//! What recovery finds in 32-bit code: every direct branch that leaves the
//! function, every `fs:[0]`, and nothing else.

use crate::bytes::wrap64;
use crate::recover::{
    nothing_recovered, recovered, recovered_from, with_insn, Answers, RecoveredRelocView,
    RecoveryView, RelocKind,
};
use crate::x86::{control_of, memory_operand_of, Control, Flow, InsnKind, MemoryOperand, Reg};
use vstd::prelude::*;

verus! {

/// The instruction `at` bytes into the function at `fn_va`, which runs at the low
/// half of its address.
pub open spec fn control_at(code: Seq<u8>, fn_va: u64, at: int) -> Control {
    control_of(code.skip(at), wrap64(fn_va % 0x1_0000_0000 + at) as u64)
}

/// The memory operand of that instruction.
pub open spec fn operand_at(code: Seq<u8>, fn_va: u64, at: int) -> MemoryOperand {
    memory_operand_of(code.skip(at), wrap64(fn_va % 0x1_0000_0000 + at) as u64)
}

/// Where the instructions of a function begin, from `from` on one behind the
/// other, as far as they fit in the code.
pub open spec fn starts(code: Seq<u8>, fn_va: u64, from: int) -> Seq<int>
    decreases code.len() - from,
{
    let len = control_at(code, fn_va, from).len;
    if from < code.len() && 1 <= len && from + len <= code.len() {
        seq![from] + starts(code, fn_va, from + len)
    } else {
        Seq::empty()
    }
}

/// Whether an instruction is a call, a jump or a conditional branch with a field
/// of 32 bits, to a target that does not count as one within the function.
pub open spec fn leaves(
    code: Seq<u8>,
    fn_va: u64,
    fn_size: u64,
    answers: Answers,
    at: int,
) -> bool {
    let control = control_at(code, fn_va, at);
    &&& !control.invalid
    &&& control.flow == Flow::Call || control.flow == Flow::Jump || control.flow == Flow::Branch
    &&& control.len >= 5
    &&& !(answers.intra_function)(fn_va, fn_size, control.target as u64)
}

/// Whether an instruction reads or writes `fs:[0]`, with the zero in a field of 32
/// bits.
pub open spec fn uses_fs_zero(code: Seq<u8>, fn_va: u64, at: int) -> bool {
    let operand = operand_at(code, fn_va, at);
    &&& !control_at(code, fn_va, at).invalid
    &&& operand.segment == Reg::Fs
    &&& operand.base == Reg::Absent && operand.index == Reg::Absent
    &&& operand.displacement == 0 && operand.displacement_size == 4
}

/// Whether an instruction is a return of two bytes that begins with `F3`.
pub open spec fn is_prefixed_return(code: Seq<u8>, fn_va: u64, at: int) -> bool {
    let control = control_at(code, fn_va, at);
    !control.invalid && control.kind == InsnKind::Ret && control.len == 2 && code[at] == 0xF3
}

/// The relocation of the field in the last four bytes of an instruction.
pub open spec fn branch_reloc(
    code: Seq<u8>,
    fn_va: u64,
    at: int,
    target: Seq<char>,
    addend: i64,
) -> RecoveredRelocView {
    RecoveredRelocView {
        offset: (at + control_at(code, fn_va, at).len - 4) as u64,
        pc: wrap64(fn_va % 0x1_0000_0000 + at) as u64,
        kind: RelocKind::Rel32,
        target,
        addend,
    }
}

/// The relocation of the field that holds the displacement of an instruction.
pub open spec fn fs_reloc(
    code: Seq<u8>,
    fn_va: u64,
    at: int,
    target: Seq<char>,
) -> RecoveredRelocView {
    RecoveredRelocView {
        offset: wrap64(at + operand_at(code, fn_va, at).displacement_offset) as u64,
        pc: wrap64(fn_va % 0x1_0000_0000 + at) as u64,
        kind: RelocKind::Dir32,
        target,
        addend: 0,
    }
}

/// Whether a relocation is that of the instruction at `at`.
pub open spec fn stems_from(
    code: Seq<u8>,
    fn_va: u64,
    fn_size: u64,
    answers: Answers,
    at: int,
    r: RecoveredRelocView,
) -> bool {
    ||| {
        &&& leaves(code, fn_va, fn_size, answers, at)
        &&& (answers.code)(control_at(code, fn_va, at).target as u64) matches Some((
            target,
            addend,
        )) && r == branch_reloc(code, fn_va, at, target, addend)
    }
    ||| {
        &&& uses_fs_zero(code, fn_va, at)
        &&& answers.fs_zero matches Some(target) && r == fs_reloc(code, fn_va, at, target)
    }
}

/// How many of the places have a property.
pub open spec fn how_many(places: Seq<int>, p: spec_fn(int) -> bool) -> nat
    decreases places.len(),
{
    if places.len() == 0 {
        0
    } else if p(places[0]) {
        1 + how_many(places.skip(1), p)
    } else {
        how_many(places.skip(1), p)
    }
}

proof fn lemma_how_many(first: int, rest: Seq<int>, p: spec_fn(int) -> bool)
    ensures
        how_many(seq![first] + rest, p) == how_many(rest, p) + if p(first) {
            1nat
        } else {
            0
        },
{
    assert((seq![first] + rest).skip(1) =~= rest);
}

/// What one instruction adds.
proof fn lemma_one_insn(
    code: Seq<u8>,
    fn_va: u64,
    fn_size: u64,
    at: int,
    answers: Answers,
    out: RecoveryView,
)
    ensures
        ({
            let after = with_insn(code, fn_va, fn_size, at, answers, out);
            let control = control_at(code, fn_va, at);
            &&& out.relocs.len() <= after.relocs.len()
            &&& after.relocs.take(out.relocs.len() as int) == out.relocs
            &&& forall|i: int|
                out.relocs.len() <= i < after.relocs.len() ==> stems_from(
                    code,
                    fn_va,
                    fn_size,
                    answers,
                    at,
                    #[trigger] after.relocs[i],
                )
            &&& forall|r: RecoveredRelocView| #[trigger]
                stems_from(code, fn_va, fn_size, answers, at, r) ==> after.relocs.contains(r)
            &&& after.instructions == out.instructions + 1
            &&& after.decode_failures == out.decode_failures + if control.invalid {
                1int
            } else {
                0
            }
            &&& after.rip_refs_unresolved == out.rip_refs_unresolved
            &&& after.rep_ret_offsets == if is_prefixed_return(code, fn_va, at) {
                out.rep_ret_offsets.push(at as u64)
            } else {
                out.rep_ret_offsets
            }
            &&& after.calls_resolved == out.calls_resolved + if leaves(
                code,
                fn_va,
                fn_size,
                answers,
                at,
            ) && (answers.code)(control.target as u64) is Some {
                1int
            } else {
                0
            }
            &&& after.calls_unresolved == out.calls_unresolved + if leaves(
                code,
                fn_va,
                fn_size,
                answers,
                at,
            ) && (answers.code)(control.target as u64) is None {
                1int
            } else {
                0
            }
        }),
{
    reveal(with_insn);
    let after = with_insn(code, fn_va, fn_size, at, answers, out);
    assert(after.relocs.take(out.relocs.len() as int) =~= out.relocs);
    assert forall|r: RecoveredRelocView| #[trigger]
        stems_from(code, fn_va, fn_size, answers, at, r) implies after.relocs.contains(r) by {
        let n = out.relocs.len() as int;
        if after.relocs.len() > n && after.relocs[n] == r {
        } else {
            assert(after.relocs[n + 1] == r);
        }
    }
}

/// What is found from `from` on, on top of `out`.
proof fn lemma_recovered_from(
    code: Seq<u8>,
    fn_va: u64,
    fn_size: u64,
    from: int,
    answers: Answers,
    out: RecoveryView,
)
    requires
        0 <= from <= code.len(),
    ensures
        ({
            let all = recovered_from(code, fn_va, fn_size, from, answers, out);
            let places = starts(code, fn_va, from);
            &&& out.relocs.len() <= all.relocs.len()
            &&& all.relocs.take(out.relocs.len() as int) == out.relocs
            &&& forall|i: int|
                out.relocs.len() <= i < all.relocs.len() ==> exists|k: int|
                    0 <= k < places.len() && stems_from(
                        code,
                        fn_va,
                        fn_size,
                        answers,
                        #[trigger] places[k],
                        #[trigger] all.relocs[i],
                    )
            &&& forall|k: int, r: RecoveredRelocView|
                0 <= k < places.len() && #[trigger] stems_from(
                    code,
                    fn_va,
                    fn_size,
                    answers,
                    places[k],
                    r,
                ) ==> all.relocs.contains(r)
        }),
    decreases code.len() - from,
{
    let all = recovered_from(code, fn_va, fn_size, from, answers, out);
    let places = starts(code, fn_va, from);
    let len = control_at(code, fn_va, from).len;
    let n = out.relocs.len() as int;
    if places.len() == 0 {
        assert(all == out);
        assert(all.relocs.take(n) =~= out.relocs);
    } else {
        let next = with_insn(code, fn_va, fn_size, from, answers, out);
        let rest = starts(code, fn_va, from + len);
        let m = next.relocs.len() as int;
        lemma_one_insn(code, fn_va, fn_size, from, answers, out);
        lemma_recovered_from(code, fn_va, fn_size, from + len, answers, next);
        assert(all == recovered_from(code, fn_va, fn_size, from + len, answers, next));
        assert(all.relocs.take(n) =~= all.relocs.take(m).take(n));
        assert forall|i: int| n <= i < all.relocs.len() implies exists|k: int|
            0 <= k < places.len() && stems_from(
                code,
                fn_va,
                fn_size,
                answers,
                #[trigger] places[k],
                #[trigger] all.relocs[i],
            ) by {
            if i < m {
                assert(all.relocs.take(m)[i] == next.relocs[i]);
                assert(stems_from(code, fn_va, fn_size, answers, places[0], all.relocs[i]));
            } else {
                let k = choose|k: int|
                    0 <= k < rest.len() && stems_from(
                        code,
                        fn_va,
                        fn_size,
                        answers,
                        #[trigger] rest[k],
                        all.relocs[i],
                    );
                assert(places[k + 1] == rest[k]);
            }
        }
        assert forall|k: int, r: RecoveredRelocView|
            0 <= k < places.len() && #[trigger] stems_from(
                code,
                fn_va,
                fn_size,
                answers,
                places[k],
                r,
            ) implies all.relocs.contains(r) by {
            if k == 0 {
                assert(next.relocs.contains(r));
                let i = choose|i: int| 0 <= i < next.relocs.len() && next.relocs[i] == r;
                assert(all.relocs.take(m)[i] == all.relocs[i]);
            } else {
                assert(places[k] == rest[k - 1]);
            }
        }
    }
}

/// Every call, jump or conditional branch of a function that has a field of 32
/// bits, leads out of the function and has a target with a name is relocated: the
/// last four bytes of the instruction, against that name and addend.
pub proof fn lemma_every_branch_out_is_relocated(
    code: Seq<u8>,
    fn_va: u64,
    fn_size: u64,
    answers: Answers,
    k: int,
    target: Seq<char>,
    addend: i64,
)
    requires
        0 <= k < starts(code, fn_va, 0).len(),
        leaves(code, fn_va, fn_size, answers, starts(code, fn_va, 0)[k]),
        (answers.code)(control_at(code, fn_va, starts(code, fn_va, 0)[k]).target as u64) == Some(
            (target, addend),
        ),
    ensures
        ({
            let at = starts(code, fn_va, 0)[k];
            recovered(code, fn_va, fn_size, answers).relocs.contains(
                RecoveredRelocView {
                    offset: (at + control_at(code, fn_va, at).len - 4) as u64,
                    pc: wrap64(fn_va % 0x1_0000_0000 + at) as u64,
                    kind: RelocKind::Rel32,
                    target,
                    addend,
                },
            )
        }),
{
    lemma_recovered_from(code, fn_va, fn_size, 0, answers, nothing_recovered());
    let at = starts(code, fn_va, 0)[k];
    let r = branch_reloc(code, fn_va, at, target, addend);
    assert(stems_from(code, fn_va, fn_size, answers, starts(code, fn_va, 0)[k], r));
}

/// Every `fs:[0]` of a function is relocated where it has a name: the field that
/// holds the zero, against that name.
pub proof fn lemma_every_fs_zero_is_relocated(
    code: Seq<u8>,
    fn_va: u64,
    fn_size: u64,
    answers: Answers,
    k: int,
    target: Seq<char>,
)
    requires
        0 <= k < starts(code, fn_va, 0).len(),
        uses_fs_zero(code, fn_va, starts(code, fn_va, 0)[k]),
        answers.fs_zero == Some(target),
    ensures
        recovered(code, fn_va, fn_size, answers).relocs.contains(
            fs_reloc(code, fn_va, starts(code, fn_va, 0)[k], target),
        ),
{
    lemma_recovered_from(code, fn_va, fn_size, 0, answers, nothing_recovered());
    let r = fs_reloc(code, fn_va, starts(code, fn_va, 0)[k], target);
    assert(stems_from(code, fn_va, fn_size, answers, starts(code, fn_va, 0)[k], r));
}

/// Nothing else is relocated: each relocation is that of a branch out of the
/// function, or of an `fs:[0]`.
pub proof fn lemma_recovered_relocations_are_sound(
    code: Seq<u8>,
    fn_va: u64,
    fn_size: u64,
    answers: Answers,
    i: int,
)
    requires
        0 <= i < recovered(code, fn_va, fn_size, answers).relocs.len(),
    ensures
        exists|k: int|
            0 <= k < starts(code, fn_va, 0).len() && stems_from(
                code,
                fn_va,
                fn_size,
                answers,
                #[trigger] starts(code, fn_va, 0)[k],
                recovered(code, fn_va, fn_size, answers).relocs[i],
            ),
{
    lemma_recovered_from(code, fn_va, fn_size, 0, answers, nothing_recovered());
    let all = recovered_from(code, fn_va, fn_size, 0, answers, nothing_recovered());
    let places = starts(code, fn_va, 0);
    let k = choose|k: int|
        0 <= k < places.len() && stems_from(
            code,
            fn_va,
            fn_size,
            answers,
            #[trigger] places[k],
            all.relocs[i],
        );
    assert(stems_from(code, fn_va, fn_size, answers, starts(code, fn_va, 0)[k], all.relocs[i]));
}

proof fn lemma_counts_from(
    code: Seq<u8>,
    fn_va: u64,
    fn_size: u64,
    from: int,
    answers: Answers,
    out: RecoveryView,
)
    requires
        0 <= from <= code.len(),
    ensures
        ({
            let all = recovered_from(code, fn_va, fn_size, from, answers, out);
            let places = starts(code, fn_va, from);
            let leaving = |at: int| leaves(code, fn_va, fn_size, answers, at);
            let named = |at: int|
                leaves(code, fn_va, fn_size, answers, at) && (answers.code)(
                    control_at(code, fn_va, at).target as u64,
                ) is Some;
            &&& all.instructions == out.instructions + places.len()
            &&& all.decode_failures == out.decode_failures + how_many(
                places,
                |at: int| control_at(code, fn_va, at).invalid,
            )
            &&& all.calls_resolved == out.calls_resolved + how_many(places, named)
            &&& all.calls_resolved + all.calls_unresolved == out.calls_resolved
                + out.calls_unresolved + how_many(places, leaving)
            &&& all.rip_refs_unresolved == out.rip_refs_unresolved
            &&& forall|o: u64| #[trigger]
                all.rep_ret_offsets.contains(o) <==> out.rep_ret_offsets.contains(o) || exists|k: int|
                    0 <= k < places.len() && is_prefixed_return(code, fn_va, #[trigger] places[k])
                        && places[k] as u64 == o
        }),
    decreases code.len() - from,
{
    let all = recovered_from(code, fn_va, fn_size, from, answers, out);
    let places = starts(code, fn_va, from);
    let len = control_at(code, fn_va, from).len;
    let leaving = |at: int| leaves(code, fn_va, fn_size, answers, at);
    let named = |at: int|
        leaves(code, fn_va, fn_size, answers, at) && (answers.code)(
            control_at(code, fn_va, at).target as u64,
        ) is Some;
    let failed = |at: int| control_at(code, fn_va, at).invalid;
    if places.len() == 0 {
        assert(all == out);
    } else {
        let next = with_insn(code, fn_va, fn_size, from, answers, out);
        let rest = starts(code, fn_va, from + len);
        lemma_one_insn(code, fn_va, fn_size, from, answers, out);
        lemma_counts_from(code, fn_va, fn_size, from + len, answers, next);
        assert(all == recovered_from(code, fn_va, fn_size, from + len, answers, next));
        lemma_how_many(from, rest, leaving);
        lemma_how_many(from, rest, named);
        lemma_how_many(from, rest, failed);
        assert forall|o: u64| #[trigger] all.rep_ret_offsets.contains(o) <==>
            out.rep_ret_offsets.contains(o) || exists|k: int|
            0 <= k < places.len() && is_prefixed_return(code, fn_va, #[trigger] places[k])
                && places[k] as u64 == o by {
            let before = out.rep_ret_offsets;
            let pushed = next.rep_ret_offsets;
            if is_prefixed_return(code, fn_va, from) {
                assert(pushed[before.len() as int] == from as u64);
                if before.contains(o) {
                    let i = choose|i: int| 0 <= i < before.len() && before[i] == o;
                    assert(pushed[i] == o);
                }
                if pushed.contains(o) && o != from as u64 {
                    let i = choose|i: int| 0 <= i < pushed.len() && pushed[i] == o;
                    assert(before[i] == o);
                }
            }
            if exists|k: int|
                0 <= k < places.len() && is_prefixed_return(code, fn_va, #[trigger] places[k])
                    && places[k] as u64 == o {
                let k = choose|k: int|
                    0 <= k < places.len() && is_prefixed_return(code, fn_va, #[trigger] places[k])
                        && places[k] as u64 == o;
                if k > 0 {
                    assert(rest[k - 1] == places[k]);
                }
            }
            if exists|k: int|
                0 <= k < rest.len() && is_prefixed_return(code, fn_va, #[trigger] rest[k])
                    && rest[k] as u64 == o {
                let k = choose|k: int|
                    0 <= k < rest.len() && is_prefixed_return(code, fn_va, #[trigger] rest[k])
                        && rest[k] as u64 == o;
                assert(places[k + 1] == rest[k]);
            }
            assert(places[0] == from);
        }
    }
}

/// The diagnostics count: the instructions, those that cannot be decoded, the
/// branches out of the function whose target has a name, and those whose target
/// has none. The offsets of `rep ret` are those of the returns with an `F3` before
/// them.
pub proof fn lemma_diagnostics_count(code: Seq<u8>, fn_va: u64, fn_size: u64, answers: Answers)
    ensures
        ({
            let all = recovered(code, fn_va, fn_size, answers);
            let places = starts(code, fn_va, 0);
            let leaving = |at: int| leaves(code, fn_va, fn_size, answers, at);
            let named = |at: int|
                leaves(code, fn_va, fn_size, answers, at) && (answers.code)(
                    control_at(code, fn_va, at).target as u64,
                ) is Some;
            &&& all.instructions == places.len()
            &&& all.decode_failures == how_many(
                places,
                |at: int| control_at(code, fn_va, at).invalid,
            )
            &&& all.calls_resolved == how_many(places, named)
            &&& all.calls_resolved + all.calls_unresolved == how_many(places, leaving)
            &&& all.rip_refs_unresolved == 0
            &&& forall|o: u64| #[trigger]
                all.rep_ret_offsets.contains(o) <==> exists|k: int|
                    0 <= k < places.len() && is_prefixed_return(code, fn_va, #[trigger] places[k])
                        && places[k] as u64 == o
        }),
{
    lemma_counts_from(code, fn_va, fn_size, 0, answers, nothing_recovered());
}

/// Unless a resolver says otherwise, a target counts as one within the function if
/// and only if it is an address of the function.
pub proof fn lemma_targets_in_the_body_stay(fn_va: u64, fn_size: u64, target_va: u64)
    requires
        fn_va + fn_size <= u64::MAX,
    ensures
        crate::recover::in_body(fn_va, fn_size, target_va) == (fn_va <= target_va < fn_va
            + fn_size),
{
}

} // verus!
