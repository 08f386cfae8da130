//! What the absolute-pointer relocations of an image are: the exported fixups that
//! the image bears out, and pointers of the base-relocation table.

use crate::addr_map::{below, keys_increase, lemma_below, lemma_put_then_read, value_at};
use crate::bytes::wrap64;
use crate::fixups::{
    combined, exported_fixups, fixup_holds, lemma_exported_fixups_keyed,
    lemma_with_base_relocs_keyed, with_base_relocs,
};
use crate::model::{IdaModel, RelocView};
use crate::pe::{image_bytes, BaseReloc, BaseRelocKind, PeImage, SectionView};
use crate::seqs::views;
use vstd::prelude::*;

verus! {

/// The little-endian value of the first `n` bytes.
pub open spec fn value_of(bytes: Seq<u8>, n: nat) -> int
    decreases n,
{
    if n == 0 {
        0
    } else {
        bytes[0] + 0x100 * value_of(bytes.skip(1), (n - 1) as nat)
    }
}

proof fn lemma_value_of(bytes: Seq<u8>)
    ensures
        bytes.len() == 4 ==> crate::fixups::pointer(bytes) == value_of(bytes, 4),
        bytes.len() == 8 ==> crate::fixups::pointer(bytes) == value_of(bytes, 8),
{
    reveal_with_fuel(value_of, 9);
    if bytes.len() == 4 || bytes.len() == 8 {
        let s1 = bytes.skip(1);
        let s2 = s1.skip(1);
        let s3 = s2.skip(1);
        let s4 = s3.skip(1);
        assert(s1[0] == bytes[1] && s2[0] == bytes[2] && s3[0] == bytes[3]);
        if bytes.len() == 8 {
            let s5 = s4.skip(1);
            let s6 = s5.skip(1);
            let s7 = s6.skip(1);
            assert(s4[0] == bytes[4] && s5[0] == bytes[5] && s6[0] == bytes[6] && s7[0]
                == bytes[7]);
        }
    }
}

/// The pointer of `size` bytes that the image stores at `rva`.
pub open spec fn stored_pointer(sections: Seq<SectionView>, rva: u64, size: u32) -> Option<int> {
    match image_bytes(sections, rva, size as int) {
        Some(bytes) => Some(value_of(bytes, size as nat)),
        None => None,
    }
}

/// Whether the image bears out a fixup: it stores the target at the address, as a
/// pointer of four or eight bytes that holds at the model's base or at its own.
pub open spec fn borne_out(model: IdaModel, image: PeImage, r: RelocView) -> bool {
    let rva = wrap64(r.addr - model.image_base) as u64;
    &&& r.size == 4 || r.size == 8
    &&& stored_pointer(image.spec_sections(), rva, r.size) matches Some(p) && {
        ||| p == r.target
        ||| wrap64(p - image.image_base + model.image_base) == r.target
    }
}

/// The bytes of a pointer that an entry of the base-relocation table stands for.
pub open spec fn pointer_width(kind: BaseRelocKind) -> u32 {
    match kind {
        BaseRelocKind::HighLow => 4,
        BaseRelocKind::Dir64 => 8,
        BaseRelocKind::Other(_) => 0,
    }
}

/// Where the model has what an entry of the base-relocation table speaks of.
pub open spec fn moved(model: IdaModel, image: PeImage, va: u64) -> u64 {
    wrap64(va - image.image_base + model.image_base) as u64
}

/// What an entry of the base-relocation table is read as: the address in the
/// model, the width of the pointer, and the stored pointer moved to the model's
/// base; nothing where the type is none of the two that have a width, or the
/// image does not store that many bytes.
pub open spec fn read_as(model: IdaModel, image: PeImage, br: BaseReloc) -> Option<RelocView> {
    let width = pointer_width(br.kind);
    let rva = wrap64(br.va - image.image_base) as u64;
    if width == 0 {
        None
    } else {
        match stored_pointer(image.spec_sections(), rva, width) {
            None => None,
            Some(p) => Some(
                RelocView {
                    addr: moved(model, image, br.va),
                    kind: "RELOC"@,
                    size: width,
                    target: wrap64(p - image.image_base + model.image_base) as u64,
                },
            ),
        }
    }
}

proof fn lemma_wraps(a: int, b: int, c: int)
    ensures
        wrap64(c + wrap64(a - b)) == wrap64(a - b + c),
{
    let m = 0x1_0000_0000_0000_0000;
    vstd::arithmetic::div_mod::lemma_add_mod_noop_right(c, a - b, m);
}

proof fn lemma_borne_out(model: IdaModel, image: PeImage, r: RelocView)
    ensures
        borne_out(model, image, r) == fixup_holds(
            model.image_base,
            image.spec_sections(),
            image.image_base,
            r,
        ),
{
    let rva = wrap64(r.addr - model.image_base) as u64;
    if r.size == 4 || r.size == 8 {
        if let Some(bytes) = image_bytes(image.spec_sections(), rva, r.size as int) {
            lemma_value_of(bytes);
            lemma_wraps(
                crate::fixups::pointer(bytes),
                image.image_base as int,
                model.image_base as int,
            );
        }
    }
}

proof fn lemma_read_as(model: IdaModel, image: PeImage, br: BaseReloc)
    ensures
        read_as(model, image, br) == crate::fixups::base_reloc_at(
            model.image_base,
            image.spec_sections(),
            image.image_base,
            br,
        ),
{
    let rva = wrap64(br.va - image.image_base) as u64;
    let width = pointer_width(br.kind);
    lemma_wraps(br.va as int, image.image_base as int, model.image_base as int);
    if let Some(bytes) = image_bytes(image.spec_sections(), rva, width as int) {
        lemma_value_of(bytes);
        lemma_wraps(
            crate::fixups::pointer(bytes),
            image.image_base as int,
            model.image_base as int,
        );
    }
}

proof fn lemma_value_at_listed<V>(s: Seq<(u64, V)>, key: u64, v: V)
    requires
        keys_increase(s),
    ensures
        value_at(s, key) == Some(v) <==> s.contains((key, v)),
{
    lemma_below(s, key as int);
    let i = below(s, key as int);
    if s.contains((key, v)) {
        let k = choose|k: int| 0 <= k < s.len() && s[k] == (key, v);
        assert(i <= k);
        if i < k {
            assert(s[i].0 < s[k].0);
        }
    }
}

/// The last fixup at an address that the image bears out.
pub open spec fn last_borne_out(model: IdaModel, image: PeImage, i: int, n: int) -> bool {
    let relocs = views(model.relocations@);
    &&& 0 <= i < n
    &&& borne_out(model, image, relocs[i])
    &&& forall|j: int|
        i < j < n && (#[trigger] relocs[j]).addr == relocs[i].addr ==> !borne_out(
            model,
            image,
            relocs[j],
        )
}

proof fn lemma_exported_at(model: IdaModel, image: PeImage, n: int, a: u64)
    requires
        0 <= n <= model.relocations@.len(),
    ensures
        ({
            let relocs = views(model.relocations@);
            let found = exported_fixups(
                model.image_base,
                image.spec_sections(),
                image.image_base,
                relocs.take(n),
            );
            &&& value_at(found, a) is None ==> forall|j: int|
                0 <= j < n && (#[trigger] relocs[j]).addr == a ==> !borne_out(
                    model,
                    image,
                    relocs[j],
                )
            &&& value_at(found, a) matches Some(r) ==> exists|i: int| #[trigger]
                last_borne_out(model, image, i, n) && relocs[i] == r && r.addr == a
        }),
    decreases n,
{
    let relocs = views(model.relocations@);
    let base = model.image_base;
    let sections = image.spec_sections();
    let found = exported_fixups(base, sections, image.image_base, relocs.take(n));
    if n > 0 {
        lemma_exported_at(model, image, n - 1, a);
        assert(relocs.take(n).drop_last() =~= relocs.take(n - 1));
        let before = exported_fixups(base, sections, image.image_base, relocs.take(n - 1));
        let r = relocs[n - 1];
        assert(relocs.take(n).last() == r);
        lemma_exported_fixups_keyed(base, sections, image.image_base, relocs.take(n - 1));
        lemma_borne_out(model, image, r);
        lemma_put_then_read(before, r.addr, r, a);
        if borne_out(model, image, r) && r.addr == a {
            assert(last_borne_out(model, image, n - 1, n));
        } else if value_at(found, a) is Some {
            let i = choose|i: int| #[trigger]
                last_borne_out(model, image, i, n - 1) && relocs[i] == value_at(before, a)->0
                    && relocs[i].addr == a;
            assert(last_borne_out(model, image, i, n));
        }
    } else {
        assert(relocs.take(0) =~= Seq::<RelocView>::empty());
    }
}

/// The first entry of the base-relocation table at an address that is read.
pub open spec fn first_read(model: IdaModel, image: PeImage, k: int) -> bool {
    let table = image.base_relocations@;
    &&& 0 <= k < table.len()
    &&& read_as(model, image, table[k]) is Some
    &&& forall|j: int|
        0 <= j < k && moved(model, image, (#[trigger] table[j]).va) == moved(
            model,
            image,
            table[k].va,
        ) ==> read_as(model, image, table[j]) is None
}

proof fn lemma_base_at(
    model: IdaModel,
    image: PeImage,
    found: Seq<(u64, RelocView)>,
    n: int,
    a: u64,
)
    requires
        0 <= n <= image.base_relocations@.len(),
        keys_increase(found),
        crate::fixups::keyed_by_address(found),
    ensures
        ({
            let table = image.base_relocations@;
            let all = with_base_relocs(
                model.image_base,
                image.spec_sections(),
                image.image_base,
                table.take(n),
                found,
            );
            &&& value_at(found, a) is Some ==> value_at(all, a) == value_at(found, a)
            &&& value_at(all, a) is None ==> forall|j: int|
                0 <= j < n && moved(model, image, (#[trigger] table[j]).va) == a ==> read_as(
                    model,
                    image,
                    table[j],
                ) is None
            &&& value_at(found, a) is None ==> (value_at(all, a) matches Some(r) ==> exists|k: int|
                #[trigger]
                first_read(model, image, k) && k < n && read_as(model, image, table[k]) == Some(r)
                    && r.addr == a)
        }),
    decreases n,
{
    let table = image.base_relocations@;
    let base = model.image_base;
    let sections = image.spec_sections();
    if n > 0 {
        lemma_base_at(model, image, found, n - 1, a);
        assert(table.take(n).drop_last() =~= table.take(n - 1));
        let before = with_base_relocs(base, sections, image.image_base, table.take(n - 1), found);
        let br = table[n - 1];
        assert(table.take(n).last() == br);
        lemma_with_base_relocs_keyed(base, sections, image.image_base, table.take(n - 1), found);
        lemma_read_as(model, image, br);
        if let Some(r) = read_as(model, image, br) {
            lemma_put_then_read(before, r.addr, r, a);
            if r.addr == a && value_at(before, a) is None {
                assert(first_read(model, image, n - 1));
            }
        }
    } else {
        assert(table.take(0) =~= Seq::<BaseReloc>::empty());
    }
}

/// The relocations of a model over an image, in address order.
pub open spec fn listed(model: IdaModel, image: PeImage) -> Seq<RelocView> {
    combined(model, image).map_values(|e: (u64, RelocView)| e.1)
}

proof fn lemma_listed(model: IdaModel, image: PeImage, r: RelocView)
    ensures
        listed(model, image).contains(r) <==> value_at(combined(model, image), r.addr) == Some(r),
{
    let relocs = views(model.relocations@);
    let base = model.image_base;
    let sections = image.spec_sections();
    let found = exported_fixups(base, sections, image.image_base, relocs);
    lemma_exported_fixups_keyed(base, sections, image.image_base, relocs);
    lemma_with_base_relocs_keyed(
        base,
        sections,
        image.image_base,
        image.base_relocations@,
        found,
    );
    let all = combined(model, image);
    lemma_value_at_listed(all, r.addr, r);
    let list = listed(model, image);
    if list.contains(r) {
        let i = choose|i: int| 0 <= i < list.len() && list[i] == r;
        assert(all[i] == (r.addr, r));
    }
    if all.contains((r.addr, r)) {
        let i = choose|i: int| 0 <= i < all.len() && all[i] == (r.addr, r);
        assert(list[i] == r);
    }
}

proof fn lemma_combined_at(model: IdaModel, image: PeImage, a: u64)
    ensures
        ({
            let relocs = views(model.relocations@);
            let table = image.base_relocations@;
            match value_at(combined(model, image), a) {
                Some(r) => {
                    ||| exists|i: int| #[trigger]
                        last_borne_out(model, image, i, relocs.len() as int) && relocs[i] == r
                            && r.addr == a
                    ||| {
                        &&& forall|j: int|
                            0 <= j < relocs.len() && (#[trigger] relocs[j]).addr == a ==> !borne_out(
                                model,
                                image,
                                relocs[j],
                            )
                        &&& exists|k: int| #[trigger]
                            first_read(model, image, k) && read_as(model, image, table[k]) == Some(
                                r,
                            ) && r.addr == a
                    }
                },
                None => {
                    &&& forall|j: int|
                        0 <= j < relocs.len() && (#[trigger] relocs[j]).addr == a ==> !borne_out(
                            model,
                            image,
                            relocs[j],
                        )
                    &&& forall|j: int|
                        0 <= j < table.len() && moved(model, image, (#[trigger] table[j]).va) == a
                            ==> read_as(model, image, table[j]) is None
                },
            }
        }),
{
    let relocs = views(model.relocations@);
    let table = image.base_relocations@;
    let base = model.image_base;
    let sections = image.spec_sections();
    let found = exported_fixups(base, sections, image.image_base, relocs);
    assert(relocs.take(relocs.len() as int) =~= relocs);
    assert(table.take(table.len() as int) =~= table);
    lemma_exported_fixups_keyed(base, sections, image.image_base, relocs);
    lemma_exported_at(model, image, relocs.len() as int, a);
    lemma_base_at(model, image, found, table.len() as int, a);
}

/// An exported fixup that the image bears out is one of the relocations, as it was
/// exported, unless a later one at its address is borne out too.
pub proof fn lemma_borne_out_fixups_are_listed(model: IdaModel, image: PeImage, i: int)
    requires
        last_borne_out(model, image, i, model.relocations@.len() as int),
    ensures
        listed(model, image).contains(model.relocations@[i]@),
{
    let relocs = views(model.relocations@);
    let r = relocs[i];
    lemma_combined_at(model, image, r.addr);
    lemma_listed(model, image, r);
    let n = relocs.len() as int;
    if let Some(v) = value_at(combined(model, image), r.addr) {
        let j = choose|j: int| #[trigger]
            last_borne_out(model, image, j, n) && relocs[j] == v && v.addr == r.addr;
        assert(last_borne_out(model, image, j, n));
        if i < j {
            assert(!borne_out(model, image, relocs[j]));
        }
        if j < i {
            assert(!borne_out(model, image, relocs[i]));
        }
    }
}

/// An entry of the base-relocation table whose pointer the image stores is one of
/// the relocations, unless a fixup that is borne out or an earlier entry has its
/// address: of a `Dir64` entry, a relocation of eight bytes with the pointer that
/// these eight bytes are, and of a `HighLow` entry one of four bytes, both moved
/// from the image's base to the model's.
pub proof fn lemma_base_relocations_are_listed(model: IdaModel, image: PeImage, k: int)
    requires
        first_read(model, image, k),
        forall|j: int|
            0 <= j < model.relocations@.len() && (#[trigger] model.relocations@[j]).addr == moved(
                model,
                image,
                image.base_relocations@[k].va,
            ) ==> !borne_out(model, image, model.relocations@[j]@),
    ensures
        ({
            let br = image.base_relocations@[k];
            let rva = wrap64(br.va - image.image_base) as u64;
            let width = if br.kind == BaseRelocKind::Dir64 {
                8u32
            } else {
                4
            };
            &&& br.kind == BaseRelocKind::Dir64 || br.kind == BaseRelocKind::HighLow
            &&& stored_pointer(image.spec_sections(), rva, width) matches Some(p) && listed(
                model,
                image,
            ).contains(
                RelocView {
                    addr: moved(model, image, br.va),
                    kind: "RELOC"@,
                    size: width,
                    target: wrap64(p - image.image_base + model.image_base) as u64,
                },
            )
        }),
{
    let relocs = views(model.relocations@);
    let table = image.base_relocations@;
    let r = read_as(model, image, table[k])->0;
    lemma_combined_at(model, image, r.addr);
    lemma_listed(model, image, r);
    assert forall|j: int| 0 <= j < relocs.len() && (#[trigger] relocs[j]).addr
        == r.addr implies !borne_out(model, image, relocs[j]) by {
        assert(model.relocations@[j]@ == relocs[j]);
    }
    if let Some(v) = value_at(combined(model, image), r.addr) {
        let m = choose|m: int| #[trigger]
            first_read(model, image, m) && read_as(model, image, table[m]) == Some(v) && v.addr
                == r.addr;
        assert(first_read(model, image, m));
        if m < k {
            assert(read_as(model, image, table[m]) is None);
        }
        if k < m {
            assert(read_as(model, image, table[k]) is None);
        }
    }
}

/// Nothing else is one of the relocations: each is a fixup that the image bears
/// out, or what an entry of the base-relocation table is read as.
pub proof fn lemma_listed_relocations_are_sound(model: IdaModel, image: PeImage, r: RelocView)
    requires
        listed(model, image).contains(r),
    ensures
        ({
            ||| exists|i: int|
                0 <= i < model.relocations@.len() && (#[trigger] model.relocations@[i])@ == r
                    && borne_out(model, image, r)
            ||| exists|k: int|
                0 <= k < image.base_relocations@.len() && read_as(
                    model,
                    image,
                    #[trigger] image.base_relocations@[k],
                ) == Some(r)
        }),
{
    let relocs = views(model.relocations@);
    lemma_listed(model, image, r);
    lemma_combined_at(model, image, r.addr);
    let n = relocs.len() as int;
    if exists|i: int| #[trigger]
        last_borne_out(model, image, i, n) && relocs[i] == r && r.addr == r.addr {
        let i = choose|i: int| #[trigger]
            last_borne_out(model, image, i, n) && relocs[i] == r && r.addr == r.addr;
        assert(model.relocations@[i]@ == r);
    } else {
        let k = choose|k: int| #[trigger]
            first_read(model, image, k) && read_as(model, image, image.base_relocations@[k])
                == Some(r) && r.addr == r.addr;
        assert(read_as(model, image, image.base_relocations@[k]) == Some(r));
    }
}

} // verus!
