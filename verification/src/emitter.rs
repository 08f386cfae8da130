//! What every emission reads, and the fields that fixups relocate.

use crate::addr_map::{lemma_below, window, AddrMap};
use crate::bytes::wrap64;
use crate::draft::{Pending, PendingView};
use crate::format::{abs_flags, absolute_type, OutputFormat};
use crate::model::{IdaArch, IdaModel, Name, Reloc, RelocView};
use crate::ownership::{resolve_split_data, split_target, OwnedDataRange, OwnedView};
use crate::pe::{PeImage, SectionView};
use crate::ranges::Span;
use crate::recover::SymbolResolver;
use crate::resolver::{IdaSymbols, SymbolsView};
use crate::seqs::{opt_text, views};
use crate::sorting::in_key_order;
use crate::text::chars_of;
use std::collections::HashSet;
use vstd::prelude::*;

verus! {

#[derive(Debug, Clone, Copy)]
pub struct EmitStats {
    pub text_bytes: u64,
    pub data_bytes: u64,
    pub const_bytes: u64,
    pub bss_bytes: u64,
    pub instructions: usize,
    pub local_symbols: usize,
    pub undef_symbols: usize,
    pub relocations: usize,
    pub unresolved_calls: usize,
    pub unresolved_rip: usize,
}

pub open spec fn no_stats() -> EmitStats {
    EmitStats {
        text_bytes: 0,
        data_bytes: 0,
        const_bytes: 0,
        bss_bytes: 0,
        instructions: 0,
        local_symbols: 0,
        undef_symbols: 0,
        relocations: 0,
        unresolved_calls: 0,
        unresolved_rip: 0,
    }
}

impl Default for EmitStats {
    fn default() -> (r: Self)
        ensures
            r == no_stats(),
    {
        EmitStats {
            text_bytes: 0,
            data_bytes: 0,
            const_bytes: 0,
            bss_bytes: 0,
            instructions: 0,
            local_symbols: 0,
            undef_symbols: 0,
            relocations: 0,
            unresolved_calls: 0,
            unresolved_rip: 0,
        }
    }
}

/// A relative field that was found in 64-bit code, by its offset in the function.
#[derive(Debug)]
pub struct WideReloc {
    pub offset: u64,
    pub target: String,
    pub addend: i64,
}

#[verifier::ext_equal]
pub struct WideRelocView {
    pub offset: u64,
    pub target: Seq<char>,
    pub addend: i64,
}

impl View for WideReloc {
    type V = WideRelocView;

    open spec fn view(&self) -> WideRelocView {
        WideRelocView { offset: self.offset, target: self.target@, addend: self.addend }
    }
}

/// What was recovered from the instructions of a 64-bit function.
#[derive(Debug)]
pub struct WideRecovery {
    pub relocs: Vec<WideReloc>,
    pub instructions: usize,
    pub unresolved_calls: usize,
    pub unresolved_rip: usize,
}

#[verifier::ext_equal]
pub struct WideRecoveryView {
    pub relocs: Seq<WideRelocView>,
    pub instructions: usize,
    pub unresolved_calls: usize,
    pub unresolved_rip: usize,
}

impl View for WideRecovery {
    type V = WideRecoveryView;

    open spec fn view(&self) -> WideRecoveryView {
        WideRecoveryView {
            relocs: views(self.relocs@),
            instructions: self.instructions,
            unresolved_calls: self.unresolved_calls,
            unresolved_rip: self.unresolved_rip,
        }
    }
}

/// The model, its image and symbols, who owns which data, the exported names in
/// address order, and the output format.
pub struct Emitter<'a> {
    pub model: &'a IdaModel,
    pub pe: &'a PeImage,
    pub symbols: &'a IdaSymbols,
    pub owned: &'a Vec<OwnedDataRange>,
    pub names: &'a Vec<Name>,
    /// What was recovered from 64-bit functions, by their start.
    pub wide: &'a AddrMap<WideRecovery>,
    pub format: OutputFormat,
}

#[verifier::ext_equal]
pub struct EmitView {
    pub model: IdaModel,
    pub image: Seq<SectionView>,
    pub symbols: SymbolsView,
    pub owned: Seq<OwnedView>,
    pub names: Seq<Name>,
    pub wide: Seq<(u64, WideRecoveryView)>,
    pub format: OutputFormat,
}

impl<'a> View for Emitter<'a> {
    type V = EmitView;

    open spec fn view(&self) -> EmitView {
        EmitView {
            model: *self.model,
            image: self.pe.spec_sections(),
            symbols: self.symbols@,
            owned: views(self.owned@),
            names: self.names@,
            wide: self.wide@,
            format: self.format,
        }
    }
}

impl EmitView {
    /// Where a data reference points.
    pub open spec fn target(self, va: u64) -> Option<(Seq<char>, i64)> {
        split_target(self.symbols, self.owned, va)
    }

    pub open spec fn base(self) -> u64 {
        self.model.image_base
    }

    pub open spec fn relocs(self, start: u64, end: u64) -> Seq<(u64, RelocView)> {
        window(self.symbols.relocs, start as int, end as int)
    }
}

impl<'a> Emitter<'a> {
    pub open spec fn wf(&self) -> bool {
        &&& self.model.wf()
        &&& self.symbols.wf()
        &&& self.wide.wf()
        &&& in_key_order(self.names@)
    }
}

// ---------------------------------------------------------------------------
// Symbol resolution for split code
// ---------------------------------------------------------------------------

/// Resolves code targets through the exported symbols, data targets with regard
/// to who owns them, and `fs:[0]` where the image is an MSVC x86 PE.
pub struct SplitResolver<'a> {
    pub symbols: &'a IdaSymbols,
    pub owned: &'a Vec<OwnedDataRange>,
    pub msvc_x86_pe: bool,
}

impl<'a> SymbolResolver for SplitResolver<'a> {
    open spec fn ready(&self) -> bool {
        self.symbols.wf()
    }

    open spec fn code_target(&self, va: u64) -> Option<(Seq<char>, i64)> {
        self.symbols@.code_target(va)
    }

    open spec fn data_target(&self, va: u64) -> Option<(Seq<char>, i64)> {
        split_target(self.symbols@, views(self.owned@), va)
    }

    open spec fn fs_zero(&self) -> Option<Seq<char>> {
        if self.msvc_x86_pe {
            Some("__except_list"@)
        } else {
            None
        }
    }

    fn resolve_code(&self, va: u64) -> (r: Option<(String, i64)>) {
        self.symbols.resolve_code(va)
    }

    fn resolve_data(&self, va: u64) -> (r: Option<(String, i64)>) {
        resolve_split_data(self.symbols, self.owned, va)
    }

    fn resolve_fs_zero(&self) -> (r: Option<String>)
        ensures
            opt_text(r) == self.fs_zero(),
    {
        if self.msvc_x86_pe {
            Some("__except_list".to_owned())
        } else {
            None
        }
    }
}

impl SymbolResolver for IdaSymbols {
    open spec fn ready(&self) -> bool {
        self.wf()
    }

    open spec fn code_target(&self, va: u64) -> Option<(Seq<char>, i64)> {
        self@.code_target(va)
    }

    open spec fn data_target(&self, va: u64) -> Option<(Seq<char>, i64)> {
        self@.data_target(va)
    }

    fn resolve_code(&self, va: u64) -> (r: Option<(String, i64)>) {
        IdaSymbols::resolve_code(self, va)
    }

    fn resolve_data(&self, va: u64) -> (r: Option<(String, i64)>) {
        IdaSymbols::resolve_data(self, va)
    }
}

/// Whether a file type is PE, in whatever case.
pub open spec fn is_pe_filetype(filetype: Seq<char>) -> bool {
    &&& filetype.len() == 2
    &&& filetype[0] == 'P' || filetype[0] == 'p'
    &&& filetype[1] == 'E' || filetype[1] == 'e'
}

/// Whether `fs:[0]` stands for `__except_list` in the model's code.
pub open spec fn is_msvc_x86_pe(model: IdaModel) -> bool {
    model.arch == IdaArch::X86 && is_pe_filetype(model.filetype@)
}

pub fn uses_except_list(model: &IdaModel) -> (r: bool)
    ensures
        r == is_msvc_x86_pe(*model),
{
    let filetype = chars_of(model.filetype.as_str());
    model.arch == IdaArch::X86 && filetype.len() == 2 && (filetype[0] == 'P' || filetype[0] == 'p')
        && (filetype[1] == 'E' || filetype[1] == 'e')
}

// ---------------------------------------------------------------------------
// Fields
// ---------------------------------------------------------------------------

/// `bytes` with zeros in the `width` bytes at `off`, where they all exist.
pub open spec fn cleared(bytes: Seq<u8>, off: int, width: int) -> Seq<u8> {
    if 0 <= off && off + width <= bytes.len() {
        Seq::new(
            bytes.len(),
            |i: int|
                if off <= i < off + width {
                    0u8
                } else {
                    bytes[i]
                },
        )
    } else {
        bytes
    }
}

pub fn clear_field(bytes: &mut Vec<u8>, off: u64, width: u64)
    ensures
        final(bytes)@ == cleared(old(bytes)@, off as int, width as int),
        final(bytes)@.len() == old(bytes)@.len(),
{
    let total: u64 = bytes.len() as u64;
    if width > total || off > total - width {
        return;
    }
    let ghost before = bytes@;
    let start: usize = off as usize;
    let end: usize = (off + width) as usize;
    let mut i: usize = start;
    while i < end
        invariant
            start <= i <= end <= bytes@.len(),
            start == off,
            end == off + width,
            bytes@.len() == before.len(),
            forall|k: int| 0 <= k < before.len() ==> #[trigger] bytes@[k] == if start <= k < i {
                0u8
            } else {
                before[k]
            },
        decreases end - i,
    {
        bytes.set(i, 0);
        i += 1;
    }
    assert(bytes@ =~= cleared(before, off as int, width as int));
}

/// Whether a fixup relocates a field of `len` bytes from `start` on: its
/// address is not set aside, the format has a type for it, the field fits and
/// the target has a name.
pub open spec fn fixup_applies(
    ctx: EmitView,
    start: u64,
    len: int,
    skip: Set<u64>,
    e: (u64, RelocView),
) -> bool {
    &&& !skip.contains(e.0)
    &&& absolute_type(ctx.format, ctx.model.arch, e.1.size) is Some
    &&& e.0 - start + e.1.size <= len
    &&& ctx.target(e.1.target) is Some
}

/// The relocation of a fixup that applies.
pub open spec fn fixup_pending(
    ctx: EmitView,
    section: int,
    base: u64,
    start: u64,
    e: (u64, RelocView),
) -> PendingView {
    let (target, addend) = ctx.target(e.1.target)->0;
    PendingView {
        section,
        offset: wrap64(base + (e.0 - start)) as u64,
        target,
        addend,
        flags: absolute_type(ctx.format, ctx.model.arch, e.1.size)->0,
    }
}

/// `bytes` with the fields cleared that fixups relocate.
pub open spec fn fixed_bytes(
    ctx: EmitView,
    start: u64,
    skip: Set<u64>,
    relocs: Seq<(u64, RelocView)>,
    bytes: Seq<u8>,
) -> Seq<u8>
    decreases relocs.len(),
{
    if relocs.len() == 0 {
        bytes
    } else {
        let before = fixed_bytes(ctx, start, skip, relocs.drop_last(), bytes);
        let e = relocs.last();
        if fixup_applies(ctx, start, bytes.len() as int, skip, e) {
            cleared(before, e.0 - start, e.1.size as int)
        } else {
            before
        }
    }
}

/// The relocations of the fixups that apply, in address order.
pub open spec fn fixed_pending(
    ctx: EmitView,
    section: int,
    base: u64,
    start: u64,
    len: int,
    skip: Set<u64>,
    relocs: Seq<(u64, RelocView)>,
) -> Seq<PendingView>
    decreases relocs.len(),
{
    if relocs.len() == 0 {
        Seq::empty()
    } else {
        let before = fixed_pending(ctx, section, base, start, len, skip, relocs.drop_last());
        let e = relocs.last();
        if fixup_applies(ctx, start, len, skip, e) {
            before.push(fixup_pending(ctx, section, base, start, e))
        } else {
            before
        }
    }
}

/// The first fixup of a relocatable size whose field reaches behind the `len`
/// bytes from `start` on.
pub open spec fn straddling(
    ctx: EmitView,
    start: u64,
    len: int,
    relocs: Seq<(u64, RelocView)>,
) -> Option<u64>
    decreases relocs.len(),
{
    if relocs.len() == 0 {
        None
    } else {
        match straddling(ctx, start, len, relocs.drop_last()) {
            Some(a) => Some(a),
            None => {
                let e = relocs.last();
                if absolute_type(ctx.format, ctx.model.arch, e.1.size) is Some && e.0 - start
                    + e.1.size > len {
                    Some(e.0)
                } else {
                    None
                }
            },
        }
    }
}

/// Entries of a window have keys within it.
pub proof fn lemma_window_keys<V>(s: Seq<(u64, V)>, lo: int, hi: int)
    requires
        crate::addr_map::keys_increase(s),
        lo <= hi,
    ensures
        forall|i: int|
            0 <= i < window(s, lo, hi).len() ==> lo <= (#[trigger] window(s, lo, hi)[i]).0 < hi,
{
    lemma_below(s, lo);
    lemma_below(s, hi);
    crate::addr_map::lemma_below_monotone(s, lo, hi);
}

impl<'a> Emitter<'a> {
    /// Clear the fields of `bytes`, which stand at `span`, that fixups relocate,
    /// and give their relocations in `section`, in which the bytes begin at
    /// `base`.
    pub fn apply_fixups(
        &self,
        span: Span,
        skip: &HashSet<u64>,
        bytes: &mut Vec<u8>,
        section: usize,
        base: u64,
    ) -> (r: Vec<Pending>)
        requires
            self.wf(),
            span.start <= span.end,
        ensures
            final(bytes)@ == fixed_bytes(
                self@,
                span.start,
                skip@,
                self@.relocs(span.start, span.end),
                old(bytes)@,
            ),
            final(bytes)@.len() == old(bytes)@.len(),
            views(r@) == fixed_pending(
                self@,
                section as int,
                base,
                span.start,
                old(bytes)@.len() as int,
                skip@,
                self@.relocs(span.start, span.end),
            ),
            forall|i: int| 0 <= i < r@.len() ==> (#[trigger] r@[i]).section == section,
    {
        let ghost ctx = self@;
        let ghost original = bytes@;
        let total: u64 = bytes.len() as u64;
        let relocs = self.symbols.relocs_in(span.start, span.end);
        let ghost v = ctx.relocs(span.start, span.end);
        proof {
            lemma_window_keys(ctx.symbols.relocs, span.start as int, span.end as int);
        }
        let mut out: Vec<Pending> = Vec::new();
        let mut i: usize = 0;
        assert(v.take(0) =~= Seq::<(u64, RelocView)>::empty());
        assert(views(out@) =~= Seq::<PendingView>::empty());
        while i < relocs.len()
            invariant
                self.wf(),
                ctx == self@,
                i <= relocs@.len(),
                v == relocs@.map_values(|e: (u64, Reloc)| (e.0, e.1@)),
                forall|k: int| 0 <= k < v.len() ==> span.start <= (#[trigger] v[k]).0,
                total == original.len(),
                bytes@.len() == original.len(),
                bytes@ == fixed_bytes(ctx, span.start, skip@, v.take(i as int), original),
                views(out@) == fixed_pending(
                    ctx,
                    section as int,
                    base,
                    span.start,
                    original.len() as int,
                    skip@,
                    v.take(i as int),
                ),
                forall|k: int| 0 <= k < out@.len() ==> (#[trigger] out@[k]).section == section,
            decreases relocs@.len() - i,
        {
            broadcast use vstd::std_specs::hash::group_hash_axioms;

            assert(v.take(i + 1).drop_last() =~= v.take(i as int));
            let addr: u64 = relocs[i].0;
            let reloc = &relocs[i].1;
            assert(v[i as int] == (addr, reloc@));
            if !skip.contains(&addr) {
                if let Some(flags) = abs_flags(self.format, self.model.arch, reloc.size) {
                    let off: u64 = addr - span.start;
                    let width: u64 = reloc.size as u64;
                    if width <= total && off <= total - width {
                        if let Some((target, addend)) = resolve_split_data(
                            self.symbols,
                            self.owned,
                            reloc.target,
                        ) {
                            clear_field(bytes, off, width);
                            let ghost before = out@;
                            let pending = Pending {
                                section,
                                offset: base.wrapping_add(off),
                                target,
                                addend,
                                flags,
                            };
                            out.push(pending);
                            assert(views(out@) =~= views(before).push(pending@));
                            assert(pending@ =~= fixup_pending(
                                ctx,
                                section as int,
                                base,
                                span.start,
                                (addr, reloc@),
                            ));
                        }
                    }
                }
            }
            i += 1;
        }
        assert(v.take(v.len() as int) =~= v);
        out
    }

    /// The first fixup whose field reaches behind the `len` bytes at `span`.
    pub fn find_straddling(&self, span: Span, len: usize) -> (r: Option<u64>)
        requires
            self.wf(),
            span.start <= span.end,
        ensures
            r == straddling(self@, span.start, len as int, self@.relocs(span.start, span.end)),
    {
        let ghost ctx = self@;
        let relocs = self.symbols.relocs_in(span.start, span.end);
        let ghost v = ctx.relocs(span.start, span.end);
        proof {
            lemma_window_keys(ctx.symbols.relocs, span.start as int, span.end as int);
        }
        let total: u64 = len as u64;
        let mut i: usize = 0;
        assert(v.take(0) =~= Seq::<(u64, RelocView)>::empty());
        while i < relocs.len()
            invariant
                ctx == self@,
                i <= relocs@.len(),
                total == len,
                v == relocs@.map_values(|e: (u64, Reloc)| (e.0, e.1@)),
                forall|k: int| 0 <= k < v.len() ==> span.start <= (#[trigger] v[k]).0,
                v == ctx.relocs(span.start, span.end),
                straddling(ctx, span.start, len as int, v.take(i as int)) is None,
            decreases relocs@.len() - i,
        {
            assert(v.take(i + 1).drop_last() =~= v.take(i as int));
            let addr: u64 = relocs[i].0;
            let size: u32 = relocs[i].1.size;
            assert(v[i as int] == (addr, relocs@[i as int].1@));
            if abs_flags(self.format, self.model.arch, size).is_some() {
                let off: u64 = addr - span.start;
                let width: u64 = size as u64;
                if width > total || off > total - width {
                    proof {
                        lemma_straddling_stays(ctx, span.start, len as int, v, i + 1);
                    }
                    return Some(addr);
                }
            }
            i += 1;
        }
        assert(v.take(v.len() as int) =~= v);
        None
    }
}

proof fn lemma_straddling_stays(
    ctx: EmitView,
    start: u64,
    len: int,
    relocs: Seq<(u64, RelocView)>,
    n: int,
)
    requires
        0 <= n <= relocs.len(),
        straddling(ctx, start, len, relocs.take(n)) is Some,
    ensures
        straddling(ctx, start, len, relocs) == straddling(ctx, start, len, relocs.take(n)),
    decreases relocs.len(),
{
    if n < relocs.len() {
        assert(relocs.drop_last().take(n) =~= relocs.take(n));
        lemma_straddling_stays(ctx, start, len, relocs.drop_last(), n);
    } else {
        assert(relocs.take(n) =~= relocs);
    }
}

/// Clearing fields changes no byte outside them and no length.
pub proof fn lemma_fixed_bytes_keep_length(
    ctx: EmitView,
    start: u64,
    skip: Set<u64>,
    relocs: Seq<(u64, RelocView)>,
    bytes: Seq<u8>,
)
    ensures
        fixed_bytes(ctx, start, skip, relocs, bytes).len() == bytes.len(),
    decreases relocs.len(),
{
    if relocs.len() > 0 {
        lemma_fixed_bytes_keep_length(ctx, start, skip, relocs.drop_last(), bytes);
    }
}

} // verus!
