//! The absolute-pointer relocations of an image.

use crate::addr_map::{keys_increase, lemma_put_keeps_order, put, value_at, AddrMap};
use crate::bytes::{get_u32, get_u64, le32, le64, wrap64};
use crate::model::{IdaModel, Reloc, RelocView};
use crate::pe::{image_bytes, BaseReloc, BaseRelocKind, PeImage, SectionView};
use crate::seqs::views;
use vstd::prelude::*;

verus! {

/// The pointer stored in 4 or 8 bytes.
pub open spec fn pointer(bytes: Seq<u8>) -> int {
    if bytes.len() == 8 {
        le64(bytes, 0)
    } else {
        le32(bytes, 0)
    }
}

/// `stored`, a pointer at `from`, as a pointer at the image base `to`.
pub open spec fn rebased(stored: int, from: u64, to: u64) -> u64 {
    wrap64(to + wrap64(stored - from)) as u64
}

/// Whether an exported fixup is an absolute relocation: the image holds its
/// target, at its own base or at the model's. An offset operand can describe a
/// structure member displacement rather than an address.
pub open spec fn fixup_holds(
    base: u64,
    sections: Seq<SectionView>,
    image_base: u64,
    r: RelocView,
) -> bool {
    &&& r.size == 4 || r.size == 8
    &&& image_bytes(sections, wrap64(r.addr - base) as u64, r.size as int) matches Some(bytes) && {
        ||| pointer(bytes) == r.target
        ||| rebased(pointer(bytes), image_base, base) == r.target
    }
}

/// The exported fixups that hold, by address; of two at one address the later.
pub open spec fn exported_fixups(
    base: u64,
    sections: Seq<SectionView>,
    image_base: u64,
    relocs: Seq<RelocView>,
) -> Seq<(u64, RelocView)>
    decreases relocs.len(),
{
    if relocs.len() == 0 {
        Seq::empty()
    } else {
        let before = exported_fixups(base, sections, image_base, relocs.drop_last());
        let r = relocs.last();
        if fixup_holds(base, sections, image_base, r) {
            put(before, r.addr, r)
        } else {
            before
        }
    }
}

/// Width in bytes of the pointers of a base relocation that is handled.
pub open spec fn base_reloc_size(kind: BaseRelocKind) -> Option<u32> {
    match kind {
        BaseRelocKind::Dir64 => Some(8),
        BaseRelocKind::HighLow => Some(4),
        BaseRelocKind::Other(_) => None,
    }
}

/// The relocation of a base relocation that is handled and lies in the image; the
/// target is the pointer that the image stores.
pub open spec fn base_reloc_at(
    base: u64,
    sections: Seq<SectionView>,
    image_base: u64,
    br: BaseReloc,
) -> Option<RelocView> {
    let rva = wrap64(br.va - image_base) as u64;
    match base_reloc_size(br.kind) {
        None => None,
        Some(size) => match image_bytes(sections, rva, size as int) {
            Some(bytes) => Some(
                RelocView {
                    addr: wrap64(base + rva) as u64,
                    kind: "RELOC"@,
                    size,
                    target: rebased(pointer(bytes), image_base, base),
                },
            ),
            None => None,
        },
    }
}

/// `found` with a base relocation, unless it covers the address.
pub open spec fn with_base_reloc(
    base: u64,
    sections: Seq<SectionView>,
    image_base: u64,
    found: Seq<(u64, RelocView)>,
    br: BaseReloc,
) -> Seq<(u64, RelocView)> {
    match base_reloc_at(base, sections, image_base, br) {
        None => found,
        Some(r) => if value_at(found, r.addr) is Some {
            found
        } else {
            put(found, r.addr, r)
        },
    }
}

/// `found` with the base relocations at addresses that it does not cover.
pub open spec fn with_base_relocs(
    base: u64,
    sections: Seq<SectionView>,
    image_base: u64,
    relocs: Seq<BaseReloc>,
    found: Seq<(u64, RelocView)>,
) -> Seq<(u64, RelocView)>
    decreases relocs.len(),
{
    if relocs.len() == 0 {
        found
    } else {
        with_base_reloc(
            base,
            sections,
            image_base,
            with_base_relocs(base, sections, image_base, relocs.drop_last(), found),
            relocs.last(),
        )
    }
}

/// The relocations of a model over an image, by address.
pub open spec fn combined(model: IdaModel, image: PeImage) -> Seq<(u64, RelocView)> {
    with_base_relocs(
        model.image_base,
        image.spec_sections(),
        image.image_base,
        image.base_relocations@,
        exported_fixups(
            model.image_base,
            image.spec_sections(),
            image.image_base,
            views(model.relocations@),
        ),
    )
}

fn read_pointer(bytes: &[u8]) -> (r: u64)
    requires
        bytes@.len() == 4 || bytes@.len() == 8,
    ensures
        r == pointer(bytes@),
{
    if bytes.len() == 8 {
        get_u64(bytes, 0)
    } else {
        get_u32(bytes, 0) as u64
    }
}

fn rebase(stored: u64, from: u64, to: u64) -> (r: u64)
    ensures
        r == rebased(stored as int, from, to),
{
    to.wrapping_add(stored.wrapping_sub(from))
}

#[verifier::rlimit(20)]
fn read_base_reloc(base: u64, pe: &PeImage, br: &BaseReloc) -> (r: Option<Reloc>)
    ensures
        match r {
            Some(reloc) => base_reloc_at(base, pe.spec_sections(), pe.image_base, *br) == Some(
                reloc@,
            ),
            None => base_reloc_at(base, pe.spec_sections(), pe.image_base, *br) is None,
        },
{
    let size: u32 = match br.kind {
        BaseRelocKind::Dir64 => 8,
        BaseRelocKind::HighLow => 4,
        BaseRelocKind::Other(_) => {
            return None;
        },
    };
    let rva: u64 = br.va.wrapping_sub(pe.image_base);
    match pe.data_at_rva(rva, size as usize) {
        Some(bytes) => {
            // The stored value is an absolute VA at the binary's base.
            let target: u64 = rebase(read_pointer(bytes), pe.image_base, base);
            let addr: u64 = base.wrapping_add(rva);
            Some(Reloc { addr, kind: "RELOC".to_owned(), size, target })
        },
        None => None,
    }
}

fn add_base_reloc(by_addr: &mut AddrMap<Reloc>, base: u64, pe: &PeImage, br: &BaseReloc)
    requires
        old(by_addr).wf(),
    ensures
        final(by_addr).wf(),
        final(by_addr)@ == with_base_reloc(
            base,
            pe.spec_sections(),
            pe.image_base,
            old(by_addr)@,
            *br,
        ),
{
    if let Some(reloc) = read_base_reloc(base, pe, br) {
        // An IDA fixup at the address is authoritative.
        if by_addr.get(reloc.addr).is_none() {
            by_addr.insert(reloc.addr, reloc);
        }
    }
}

/// The set of absolute-pointer relocations to apply, in IDA-VA space.
///
/// Combines two sources (deduplicated by address):
///   * the relocations IDA exported (its fixup table: the only source for EXEs,
///     whose images carry no `.reloc`), and
///   * the PE base-relocation table from the original binary (present in DLLs),
///     whose targets are read from the binary's own bytes.
///
/// XBE images do not have a PE base-relocation table, so their absolute
/// relocations are supplied by the first source (IDA's fixup export).
///
/// Both are translated into IDA's address space via the image-base delta so they
/// resolve against the same name map.
pub fn combined_relocations(model: &IdaModel, pe: &PeImage) -> (r: Vec<Reloc>)
    ensures
        views(r@) == combined(*model, *pe).map_values(|e: (u64, RelocView)| e.1),
        keys_increase(combined(*model, *pe)),
        forall|i: int|
            0 <= i < combined(*model, *pe).len() ==> combined(*model, *pe)[i].0 == (#[trigger] combined(
                *model,
                *pe,
            )[i]).1.addr,
{
    let ghost base = model.image_base;
    let ghost sections = pe.spec_sections();
    let ghost relocs = views(model.relocations@);
    let mut by_addr: AddrMap<Reloc> = AddrMap::new();
    let mut i: usize = 0;
    assert(relocs.take(0) =~= Seq::<RelocView>::empty());
    while i < model.relocations.len()
        invariant
            i <= model.relocations@.len(),
            base == model.image_base,
            sections == pe.spec_sections(),
            relocs == views(model.relocations@),
            by_addr.wf(),
            by_addr@ == exported_fixups(base, sections, pe.image_base, relocs.take(i as int)),
        decreases model.relocations@.len() - i,
    {
        assert(relocs.take(i + 1).drop_last() =~= relocs.take(i as int));
        let r = &model.relocations[i];
        assert(relocs[i as int] == r@);
        if r.size == 4 || r.size == 8 {
            let rva: u64 = r.addr.wrapping_sub(model.image_base);
            if let Some(bytes) = pe.data_at_rva(rva, r.size as usize) {
                let stored: u64 = read_pointer(bytes);
                if stored == r.target || rebase(stored, pe.image_base, model.image_base)
                    == r.target {
                    by_addr.insert(r.addr, r.clone());
                }
            }
        }
        i += 1;
    }
    assert(relocs.take(relocs.len() as int) =~= relocs);

    let ghost found = by_addr@;
    let mut k: usize = 0;
    assert(pe.base_relocations@.take(0) =~= Seq::<BaseReloc>::empty());
    while k < pe.base_relocations.len()
        invariant
            k <= pe.base_relocations@.len(),
            base == model.image_base,
            sections == pe.spec_sections(),
            by_addr.wf(),
            by_addr@ == with_base_relocs(
                base,
                sections,
                pe.image_base,
                pe.base_relocations@.take(k as int),
                found,
            ),
        decreases pe.base_relocations@.len() - k,
    {
        assert(pe.base_relocations@.take(k + 1).drop_last() =~= pe.base_relocations@.take(
            k as int,
        ));
        add_base_reloc(&mut by_addr, model.image_base, pe, &pe.base_relocations[k]);
        k += 1;
    }
    assert(pe.base_relocations@.take(pe.base_relocations@.len() as int) =~= pe.base_relocations@);

    proof {
        lemma_exported_fixups_keyed(base, sections, pe.image_base, relocs);
        lemma_with_base_relocs_keyed(base, sections, pe.image_base, pe.base_relocations@, found);
    }
    let mut out: Vec<Reloc> = Vec::new();
    let ghost all = by_addr@;
    let mut n: usize = 0;
    while n < by_addr.entries.len()
        invariant
            n <= by_addr.entries@.len(),
            all == by_addr@,
            views(out@) == all.map_values(|e: (u64, RelocView)| e.1).take(n as int),
        decreases by_addr.entries@.len() - n,
    {
        let ghost before = out@;
        let reloc = by_addr.entries[n].1.clone();
        out.push(reloc);
        n += 1;
        assert(all[n - 1].1 == reloc@);
        assert(views(out@) =~= views(before).push(reloc@));
        assert(views(out@) =~= all.map_values(|e: (u64, RelocView)| e.1).take(n as int));
    }
    assert(views(out@) =~= all.map_values(|e: (u64, RelocView)| e.1));
    out
}

/// Every entry stands under its own address.
pub open spec fn keyed_by_address(s: Seq<(u64, RelocView)>) -> bool {
    forall|i: int| 0 <= i < s.len() ==> (#[trigger] s[i]).0 == s[i].1.addr
}

pub proof fn lemma_exported_fixups_keyed(
    base: u64,
    sections: Seq<SectionView>,
    image_base: u64,
    relocs: Seq<RelocView>,
)
    ensures
        keyed_by_address(exported_fixups(base, sections, image_base, relocs)),
        keys_increase(exported_fixups(base, sections, image_base, relocs)),
    decreases relocs.len(),
{
    if relocs.len() > 0 {
        lemma_exported_fixups_keyed(base, sections, image_base, relocs.drop_last());
        let before = exported_fixups(base, sections, image_base, relocs.drop_last());
        lemma_put_keeps_order(before, relocs.last().addr, relocs.last());
        lemma_put_keyed(before, relocs.last());
    }
}

proof fn lemma_put_keyed(s: Seq<(u64, RelocView)>, r: RelocView)
    requires
        keys_increase(s),
        keyed_by_address(s),
    ensures
        keyed_by_address(put(s, r.addr, r)),
{
    crate::addr_map::lemma_below(s, r.addr as int);
    let i = crate::addr_map::below(s, r.addr as int);
    let t = put(s, r.addr, r);
    assert forall|j: int| 0 <= j < t.len() implies (#[trigger] t[j]).0 == t[j].1.addr by {
        if value_at(s, r.addr) is None && j > i {
            assert(t[j] == s[j - 1]);
        } else if j != i {
            assert(t[j] == s[j]);
        }
    }
}

pub proof fn lemma_with_base_relocs_keyed(
    base: u64,
    sections: Seq<SectionView>,
    image_base: u64,
    relocs: Seq<BaseReloc>,
    found: Seq<(u64, RelocView)>,
)
    requires
        keys_increase(found),
        keyed_by_address(found),
    ensures
        keyed_by_address(with_base_relocs(base, sections, image_base, relocs, found)),
        keys_increase(with_base_relocs(base, sections, image_base, relocs, found)),
    decreases relocs.len(),
{
    if relocs.len() > 0 {
        lemma_with_base_relocs_keyed(base, sections, image_base, relocs.drop_last(), found);
        let before = with_base_relocs(base, sections, image_base, relocs.drop_last(), found);
        let br = relocs.last();
        let rva = wrap64(br.va - image_base) as u64;
        let addr = wrap64(base + rva) as u64;
        if let Some(size) = base_reloc_size(br.kind) {
            if let Some(bytes) = image_bytes(sections, rva, size as int) {
                let r = RelocView {
                    addr,
                    kind: "RELOC"@,
                    size,
                    target: rebased(pointer(bytes), image_base, base),
                };
                lemma_put_keeps_order(before, addr, r);
                lemma_put_keyed(before, r);
            }
        }
    }
}

/// A fixup that the export gives is kept whatever the base-relocation table
/// says of its address.
pub proof fn lemma_fixups_take_precedence(
    base: u64,
    sections: Seq<SectionView>,
    image_base: u64,
    relocs: Seq<BaseReloc>,
    found: Seq<(u64, RelocView)>,
    addr: u64,
)
    requires
        keys_increase(found),
        keyed_by_address(found),
        value_at(found, addr) is Some,
    ensures
        value_at(with_base_relocs(base, sections, image_base, relocs, found), addr) == value_at(
            found,
            addr,
        ),
    decreases relocs.len(),
{
    if relocs.len() > 0 {
        lemma_fixups_take_precedence(
            base,
            sections,
            image_base,
            relocs.drop_last(),
            found,
            addr,
        );
        lemma_with_base_relocs_keyed(base, sections, image_base, relocs.drop_last(), found);
        let before = with_base_relocs(base, sections, image_base, relocs.drop_last(), found);
        let br = relocs.last();
        let rva = wrap64(br.va - image_base) as u64;
        let at = wrap64(base + rva) as u64;
        if let Some(size) = base_reloc_size(br.kind) {
            if let Some(bytes) = image_bytes(sections, rva, size as int) {
                let r = RelocView {
                    addr: at,
                    kind: "RELOC"@,
                    size,
                    target: rebased(pointer(bytes), image_base, base),
                };
                if value_at(before, at) is None {
                    crate::addr_map::lemma_put_then_read(before, at, r, addr);
                }
            }
        }
    }
}

} // verus!
