//! x86 (32-bit) relocation recovery from linked code.
//!
//! Handles:
//!   * `E8 rel32`    (call rel32): a 32-bit relative field at offset 1
//!   * `E9 rel32`    (jmp rel32): a 32-bit relative field at offset 1
//!   * `0F 8x rel32` (jcc rel32): a 32-bit relative field at offset 2
//!
//! Most 32-bit absolute pointer fixups come from the PE base-relocation table.
//! The MSVC SEH `fs:[0]` access is an exception: its encoded displacement is
//! zero in the linked image, but the source object relocates it to
//! `__except_list`.
//!
//! Intra-function branches are skipped. Unresolved targets are counted.

use crate::bytes::wrap64;
use crate::resolver::opt_target;
use crate::seqs::{opt_text, views};
use crate::text::Error;
use crate::x86::{
    control_of, decode_control, decode_memory_operand, memory_operand_of, Control, Flow, InsnKind,
    MemoryOperand, Reg,
};
use vstd::prelude::*;

verus! {

#[derive(Debug, Clone, Copy, PartialEq, Eq, Structural)]
pub enum RelocKind {
    /// IMAGE_REL_I386_REL32: 32-bit PC-relative (calls, jumps).
    Rel32,
    /// IMAGE_REL_I386_DIR32: MSVC's `__except_list` at `fs:[0]`.
    Dir32,
}

#[derive(Debug)]
pub struct RecoveredReloc {
    /// Byte offset within the function bytes where the fixup field lives.
    pub offset: u64,
    /// Instruction address (fn_va + offset of instruction start).
    pub pc: u64,
    pub kind: RelocKind,
    /// Symbol name the reloc targets.
    pub target: String,
    /// Addend relative to the symbol (0 = target is exactly the symbol start).
    pub addend: i64,
}

#[verifier::ext_equal]
pub struct RecoveredRelocView {
    pub offset: u64,
    pub pc: u64,
    pub kind: RelocKind,
    pub target: Seq<char>,
    pub addend: i64,
}

impl View for RecoveredReloc {
    type V = RecoveredRelocView;

    open spec fn view(&self) -> RecoveredRelocView {
        RecoveredRelocView {
            offset: self.offset,
            pc: self.pc,
            kind: self.kind,
            target: self.target@,
            addend: self.addend,
        }
    }
}

#[derive(Debug)]
pub struct RecoveryDiagnostics {
    pub instructions: usize,
    pub decode_failures: usize,
    pub calls_resolved: usize,
    pub calls_unresolved: usize,
    /// Always 0 for x86 (no RIP-relative addressing); kept for API symmetry.
    pub rip_refs_unresolved: usize,
}

impl Default for RecoveryDiagnostics {
    fn default() -> (r: Self)
        ensures
            r.instructions == 0,
            r.decode_failures == 0,
            r.calls_resolved == 0,
            r.calls_unresolved == 0,
            r.rip_refs_unresolved == 0,
    {
        RecoveryDiagnostics {
            instructions: 0,
            decode_failures: 0,
            calls_resolved: 0,
            calls_unresolved: 0,
            rip_refs_unresolved: 0,
        }
    }
}

pub struct RecoveryOutput {
    pub relocs: Vec<RecoveredReloc>,
    pub diag: RecoveryDiagnostics,
    /// Byte offsets (within the function) of the `F3` prefix of each `rep ret`
    /// (`F3 C3`) instruction. The emitter can strip these to plain `ret`.
    pub rep_ret_offsets: Vec<u64>,
}

/// What was recovered.
#[verifier::ext_equal]
pub struct RecoveryView {
    pub relocs: Seq<RecoveredRelocView>,
    pub instructions: int,
    pub decode_failures: int,
    pub calls_resolved: int,
    pub calls_unresolved: int,
    pub rip_refs_unresolved: int,
    pub rep_ret_offsets: Seq<u64>,
}

impl View for RecoveryOutput {
    type V = RecoveryView;

    open spec fn view(&self) -> RecoveryView {
        RecoveryView {
            relocs: views(self.relocs@),
            instructions: self.diag.instructions as int,
            decode_failures: self.diag.decode_failures as int,
            calls_resolved: self.diag.calls_resolved as int,
            calls_unresolved: self.diag.calls_unresolved as int,
            rip_refs_unresolved: self.diag.rip_refs_unresolved as int,
            rep_ret_offsets: self.rep_ret_offsets@,
        }
    }
}

/// Whether `target_va` is inside the function body.
pub open spec fn in_body(fn_va: u64, fn_size: u64, target_va: u64) -> bool {
    fn_va <= target_va < wrap64(fn_va + fn_size)
}

/// Trait that callers implement to resolve VAs to symbol names.
pub trait SymbolResolver {
    /// Whether the resolver can be asked.
    spec fn ready(&self) -> bool;

    /// The symbol and addend of a code target.
    spec fn code_target(&self, va: u64) -> Option<(Seq<char>, i64)>;

    /// The symbol and addend of a data reference.
    spec fn data_target(&self, va: u64) -> Option<(Seq<char>, i64)>;

    /// The symbol of `fs:[0]`: none, unless a resolver names one.
    open spec fn fs_zero(&self) -> Option<Seq<char>> {
        None
    }

    /// Whether a target counts as one within the function: it does where it is an
    /// address of the body, unless a resolver says otherwise.
    open spec fn intra_function(&self, fn_va: u64, fn_size: u64, target_va: u64) -> bool {
        in_body(fn_va, fn_size, target_va)
    }

    /// Resolve a code target (call/jmp destination) to a symbol and addend.
    fn resolve_code(&self, va: u64) -> (r: Option<(String, i64)>)
        requires
            self.ready(),
        ensures
            opt_target(r) == self.code_target(va),
    ;

    /// Resolve a data reference to a symbol and addend.
    fn resolve_data(&self, va: u64) -> (r: Option<(String, i64)>)
        requires
            self.ready(),
        ensures
            opt_target(r) == self.data_target(va),
    ;

    /// Resolve a zero displacement through FS, when the target ABI gives it a
    /// named COFF symbol (MSVC x86 uses `__except_list`).
    fn resolve_fs_zero(&self) -> (r: Option<String>)
        requires
            self.ready(),
        default_ensures
            r is None,
    {
        None
    }

    /// Returns true if `target_va` is inside the current function body.
    fn is_intra_function(&self, fn_va: u64, fn_size: u64, target_va: u64) -> (r: bool)
        requires
            self.ready(),
        default_ensures
            r == in_body(fn_va, fn_size, target_va),
    {
        target_va >= fn_va && target_va < fn_va.wrapping_add(fn_size)
    }
}

/// Whether what a resolver says of `fs:[0]` and of targets within a function is
/// what it is specified to say. A resolver that takes the given methods with
/// their specifications does.
pub open spec fn keeps_its_word<R: SymbolResolver>(resolver: &R) -> bool {
    &&& forall|r: Option<String>| #[trigger]
        call_ensures(R::resolve_fs_zero, (resolver,), r) ==> opt_text(r) == resolver.fs_zero()
    &&& forall|fn_va: u64, fn_size: u64, target_va: u64, r: bool| #[trigger]
        call_ensures(R::is_intra_function, (resolver, fn_va, fn_size, target_va), r) ==> r
            == resolver.intra_function(fn_va, fn_size, target_va)
}

/// The instruction address `at` bytes into a function: 32-bit code runs at the
/// low half of its address.
pub open spec fn insn_pc(fn_va: u64, at: int) -> u64 {
    wrap64(fn_va % 0x1_0000_0000 + at) as u64
}

/// A `rep ret`: a two-byte near return whose first byte is the redundant REP
/// prefix.
pub open spec fn is_rep_ret(first: u8, control: Control) -> bool {
    control.kind == InsnKind::Ret && control.len == 2 && first == 0xF3
}

/// A memory operand `fs:[0]` with an explicit 32-bit displacement and no base or
/// index register.
pub open spec fn is_fs_zero(operand: MemoryOperand) -> bool {
    &&& operand.segment == Reg::Fs
    &&& operand.base == Reg::Absent
    &&& operand.index == Reg::Absent
    &&& operand.displacement == 0
    &&& operand.displacement_size == 4
}

/// A call, jump or conditional branch that is long enough for a 32-bit field.
pub open spec fn is_long_branch(control: Control) -> bool {
    control.flow != Flow::Other && control.len >= 5
}

/// What a resolver answers.
pub struct Answers {
    pub code: spec_fn(u64) -> Option<(Seq<char>, i64)>,
    /// By the address and the size of the function, and the target.
    pub intra_function: spec_fn(u64, u64, u64) -> bool,
    pub fs_zero: Option<Seq<char>>,
}

/// What a resolver answers.
pub open spec fn answers<R: SymbolResolver>(resolver: &R) -> Answers {
    Answers {
        code: |va: u64| resolver.code_target(va),
        intra_function: |fn_va: u64, fn_size: u64, target_va: u64|
            resolver.intra_function(fn_va, fn_size, target_va),
        fs_zero: resolver.fs_zero(),
    }
}

/// `out` with the relocation of an `fs:[0]` access, where it has a name.
pub open spec fn with_fs_zero(
    operand: MemoryOperand,
    fn_va: u64,
    at: int,
    fs_zero: Option<Seq<char>>,
    out: RecoveryView,
) -> RecoveryView {
    if is_fs_zero(operand) && fs_zero is Some {
        RecoveryView {
            relocs: out.relocs.push(
                RecoveredRelocView {
                    offset: wrap64(at + operand.displacement_offset) as u64,
                    pc: insn_pc(fn_va, at),
                    kind: RelocKind::Dir32,
                    target: fs_zero->0,
                    addend: 0,
                },
            ),
            ..out
        }
    } else {
        out
    }
}

/// `out` with the relocation of a long branch that leaves the function; the
/// field is the last four bytes of the instruction.
pub open spec fn with_branch(
    control: Control,
    fn_va: u64,
    fn_size: u64,
    at: int,
    answers: Answers,
    out: RecoveryView,
) -> RecoveryView {
    let target_va = control.target as u64;
    if is_long_branch(control) && !(answers.intra_function)(fn_va, fn_size, target_va) {
        match (answers.code)(target_va) {
            Some((target, addend)) => RecoveryView {
                relocs: out.relocs.push(
                    RecoveredRelocView {
                        offset: (at + control.len - 4) as u64,
                        pc: insn_pc(fn_va, at),
                        kind: RelocKind::Rel32,
                        target,
                        addend,
                    },
                ),
                calls_resolved: out.calls_resolved + 1,
                ..out
            },
            None => RecoveryView { calls_unresolved: out.calls_unresolved + 1, ..out },
        }
    } else {
        out
    }
}

/// `out` with what the instruction at `at`, which begins with the byte `first`
/// and is decoded to `control` and `operand`, gives.
pub open spec fn with_decoded(
    first: u8,
    control: Control,
    operand: MemoryOperand,
    fn_va: u64,
    fn_size: u64,
    at: int,
    answers: Answers,
    out: RecoveryView,
) -> RecoveryView {
    let counted = RecoveryView { instructions: out.instructions + 1, ..out };
    if control.invalid {
        RecoveryView { decode_failures: out.decode_failures + 1, ..counted }
    } else {
        let noted = if is_rep_ret(first, control) {
            RecoveryView { rep_ret_offsets: out.rep_ret_offsets.push(at as u64), ..counted }
        } else {
            counted
        };
        with_branch(
            control,
            fn_va,
            fn_size,
            at,
            answers,
            with_fs_zero(operand, fn_va, at, answers.fs_zero, noted),
        )
    }
}

/// `out` with what the instruction at `at` gives.
#[verifier::opaque]
pub open spec fn with_insn(
    code: Seq<u8>,
    fn_va: u64,
    fn_size: u64,
    at: int,
    answers: Answers,
    out: RecoveryView,
) -> RecoveryView {
    with_decoded(
        code[at],
        control_of(code.skip(at), insn_pc(fn_va, at)),
        memory_operand_of(code.skip(at), insn_pc(fn_va, at)),
        fn_va,
        fn_size,
        at,
        answers,
        out,
    )
}

/// `out` with what the instructions from `at` on give, one behind the other.
pub open spec fn recovered_from(
    code: Seq<u8>,
    fn_va: u64,
    fn_size: u64,
    at: int,
    answers: Answers,
    out: RecoveryView,
) -> RecoveryView
    decreases code.len() - at,
{
    let len = control_of(code.skip(at), insn_pc(fn_va, at)).len;
    if at >= code.len() || len == 0 || at + len > code.len() {
        out
    } else {
        recovered_from(
            code,
            fn_va,
            fn_size,
            at + len,
            answers,
            with_insn(code, fn_va, fn_size, at, answers, out),
        )
    }
}

pub open spec fn nothing_recovered() -> RecoveryView {
    RecoveryView {
        relocs: Seq::empty(),
        instructions: 0,
        decode_failures: 0,
        calls_resolved: 0,
        calls_unresolved: 0,
        rip_refs_unresolved: 0,
        rep_ret_offsets: Seq::empty(),
    }
}

/// What is recovered from the instructions of a function.
pub open spec fn recovered(
    code: Seq<u8>,
    fn_va: u64,
    fn_size: u64,
    answers: Answers,
) -> RecoveryView {
    recovered_from(code, fn_va, fn_size, 0, answers, nothing_recovered())
}

/// The fields, each of four bytes, lie in the first `len` bytes of the function
/// one behind the other.
pub open spec fn fields_in_order(relocs: Seq<RecoveredRelocView>, len: int) -> bool {
    &&& forall|i: int| 0 <= i < relocs.len() ==> (#[trigger] relocs[i]).offset + 4 <= len
    &&& forall|i: int, j: int|
        0 <= i < j < relocs.len() ==> (#[trigger] relocs[i]).offset + 4 <= (
        #[trigger] relocs[j]).offset
}

/// The relocation of an `fs:[0]` access, where it has a name.
pub fn fs_zero_reloc<R: SymbolResolver>(
    operand: &MemoryOperand,
    fn_va: u64,
    at: usize,
    resolver: &R,
) -> (r: Option<RecoveredReloc>)
    requires
        resolver.ready(),
        keeps_its_word(resolver),
    ensures
        match r {
            Some(reloc) => is_fs_zero(*operand) && resolver.fs_zero() == Some(reloc.target@)
                && reloc.offset == wrap64(at + operand.displacement_offset) && reloc.pc == insn_pc(
                fn_va,
                at as int,
            ) && reloc.kind == RelocKind::Dir32 && reloc.addend == 0,
            None => !is_fs_zero(*operand) || resolver.fs_zero() is None,
        },
{
    if operand.segment == Reg::Fs && operand.base == Reg::Absent && operand.index == Reg::Absent
        && operand.displacement == 0 && operand.displacement_size == 4 {
        if let Some(target) = resolver.resolve_fs_zero() {
            return Some(
                RecoveredReloc {
                    offset: (at as u64).wrapping_add(operand.displacement_offset as u64),
                    pc: (fn_va % 0x1_0000_0000).wrapping_add(at as u64),
                    kind: RelocKind::Dir32,
                    target,
                    addend: 0,
                },
            );
        }
    }
    None
}

/// Takes account of the instruction at `at`, which begins with the byte `first`
/// and is decoded to `control` and `operand`.
pub fn recover_insn<R: SymbolResolver>(
    first: u8,
    control: &Control,
    operand: &MemoryOperand,
    fn_va: u64,
    fn_size: u64,
    at: usize,
    resolver: &R,
    out: &mut RecoveryOutput,
)
    requires
        resolver.ready(),
        keeps_its_word(resolver),
        at + control.len <= usize::MAX,
        old(out).diag.instructions < usize::MAX,
        old(out).diag.decode_failures < usize::MAX,
        old(out).diag.calls_resolved < usize::MAX,
        old(out).diag.calls_unresolved < usize::MAX,
    ensures
        final(out)@ == with_decoded(
            first,
            *control,
            *operand,
            fn_va,
            fn_size,
            at as int,
            answers(resolver),
            old(out)@,
        ),
{
    let ghost start = out@;
    let ghost expected = with_decoded(
        first,
        *control,
        *operand,
        fn_va,
        fn_size,
        at as int,
        answers(resolver),
        start,
    );
    out.diag.instructions += 1;
    if control.invalid {
        out.diag.decode_failures += 1;
        assert(out@ =~= expected);
        return;
    }
    // `rep ret` (F3 C3): record the `F3` byte so the emitter can drop it to plain
    // `ret`.
    if control.kind == InsnKind::Ret && control.len == 2 && first == 0xF3 {
        out.rep_ret_offsets.push(at as u64);
    }
    let ghost noted = out@;
    // A linked image retains the zero displacement in `fs:[0]`, so neither IDA nor
    // the base-relocation table can recover this COFF symbol.
    if let Some(reloc) = fs_zero_reloc(operand, fn_va, at, resolver) {
        let ghost before = out.relocs@;
        out.relocs.push(reloc);
        assert(views(out.relocs@) =~= views(before).push(reloc@));
    }
    assert(out@ =~= with_fs_zero(*operand, fn_va, at as int, resolver.fs_zero(), noted));
    if control.flow != Flow::Other && control.len >= 5 {
        let target_va: u64 = control.target as u64;
        if !resolver.is_intra_function(fn_va, fn_size, target_va) {
            match resolver.resolve_code(target_va) {
                Some((target, addend)) => {
                    let ghost before = out.relocs@;
                    let reloc = RecoveredReloc {
                        // The rel32 field is always the last four bytes.
                        offset: (at + control.len - 4) as u64,
                        pc: (fn_va % 0x1_0000_0000).wrapping_add(at as u64),
                        kind: RelocKind::Rel32,
                        target,
                        addend,
                    };
                    out.relocs.push(reloc);
                    assert(views(out.relocs@) =~= views(before).push(reloc@));
                    out.diag.calls_resolved += 1;
                },
                None => {
                    out.diag.calls_unresolved += 1;
                },
            }
        }
    }
    assert(out@ =~= expected);
}

/// Takes account of the instruction at `at` and gives its length.
fn recover_at<R: SymbolResolver>(
    fn_bytes: &[u8],
    fn_va: u64,
    fn_size: u64,
    at: usize,
    resolver: &R,
    out: &mut RecoveryOutput,
) -> (len: usize)
    requires
        resolver.ready(),
        keeps_its_word(resolver),
        at < fn_bytes@.len(),
        old(out).diag.instructions <= at,
        old(out).diag.decode_failures <= at,
        old(out).diag.calls_resolved <= at,
        old(out).diag.calls_unresolved <= at,
        fields_in_order(old(out)@.relocs, at as int),
    ensures
        len == control_of(fn_bytes@.skip(at as int), insn_pc(fn_va, at as int)).len,
        1 <= len,
        at + len <= fn_bytes@.len(),
        final(out)@ == with_insn(
            fn_bytes@,
            fn_va,
            fn_size,
            at as int,
            answers(resolver),
            old(out)@,
        ),
        final(out)@.rip_refs_unresolved == old(out)@.rip_refs_unresolved,
        final(out).diag.instructions <= at + 1,
        final(out).diag.decode_failures <= at + 1,
        final(out).diag.calls_resolved <= at + 1,
        final(out).diag.calls_unresolved <= at + 1,
        fields_in_order(final(out)@.relocs, at + len),
{
    reveal(with_insn);
    let rest = vstd::slice::slice_subrange(fn_bytes, at, fn_bytes.len());
    assert(rest@ =~= fn_bytes@.skip(at as int));
    assert(fn_bytes@.len() == fn_bytes.len());
    // For 32-bit code, the low half of the address is the instruction pointer.
    let pc: u64 = (fn_va % 0x1_0000_0000).wrapping_add(at as u64);
    let control = decode_control(rest, pc);
    let operand = decode_memory_operand(rest, pc);
    recover_insn(fn_bytes[at], &control, &operand, fn_va, fn_size, at, resolver, out);
    control.len
}

/// Walk `fn_bytes` starting at `fn_va`, synthesise COFF relocations for
/// all direct calls and jumps that leave the function.
pub fn recover<R: SymbolResolver>(
    fn_bytes: &[u8],
    fn_va: u64,
    fn_size: u64,
    resolver: &R,
) -> (r: Result<RecoveryOutput, Error>)
    requires
        resolver.ready(),
        keeps_its_word(resolver),
    ensures
        r matches Ok(out) && out@ == recovered(fn_bytes@, fn_va, fn_size, answers(resolver)),
        r matches Ok(out) ==> out@.rip_refs_unresolved == 0,
        r matches Ok(out) ==> fields_in_order(out@.relocs, fn_bytes@.len() as int),
{
    let ghost code = fn_bytes@;
    let ghost given = answers(resolver);
    let ghost all = recovered(code, fn_va, fn_size, given);
    let mut out = RecoveryOutput {
        relocs: Vec::new(),
        diag: RecoveryDiagnostics::default(),
        rep_ret_offsets: Vec::new(),
    };
    let mut at: usize = 0;
    assert(out@ =~= nothing_recovered());
    while at < fn_bytes.len()
        invariant
            resolver.ready(),
            keeps_its_word(resolver),
            code == fn_bytes@,
            at <= code.len(),
            out.diag.instructions <= at,
            out.diag.decode_failures <= at,
            out.diag.calls_resolved <= at,
            out.diag.calls_unresolved <= at,
            out@.rip_refs_unresolved == 0,
            given == answers(resolver),
            all == recovered_from(code, fn_va, fn_size, at as int, given, out@),
            fields_in_order(out@.relocs, at as int),
        decreases code.len() - at,
    {
        let len: usize = recover_at(fn_bytes, fn_va, fn_size, at, resolver, &mut out);
        at += len;
    }
    Ok(out)
}

} // verus!
