//! What is read of an image's own tables: every import of every library, and every
//! resource of the resource tree.

use crate::bytes::{le32, wrap64};
use crate::image_laws::{field, lemma_field};
use crate::pe::{
    cstr_end, descriptor_imports, image_bytes, import_name, rva_bytes, rva_text, thunk_imports,
    thunk_value, thunk_width, PeArch, SectionView,
};
use crate::resources::{
    entries_visited, entry_at, entry_count, leaf, record_bytes, records_bytes, visited, RecordView,
    ResourceIdView,
};
use crate::text::{dec_text, lossy_text};
use vstd::prelude::*;

verus! {

// ---------------------------------------------------------------------------
// Imports
// ---------------------------------------------------------------------------

/// The bytes of a thunk.
pub open spec fn width_of(arch: PeArch) -> int {
    match arch {
        PeArch::X86 => 4,
        PeArch::X86_64 => 8,
    }
}

/// The `t`th thunk of those at `at`: nothing where the sections do not hold it or
/// it is zero.
pub open spec fn thunk_at(sections: Seq<SectionView>, arch: PeArch, at: int, t: int) -> Option<int> {
    match rva_bytes(sections, at + width_of(arch) * t, width_of(arch)) {
        None => None,
        Some(entry) => if thunk_value(arch, entry) == 0 {
            None
        } else {
            Some(thunk_value(arch, entry))
        },
    }
}

proof fn lemma_thunks(
    sections: Seq<SectionView>,
    arch: PeArch,
    library: int,
    at: int,
    slot: int,
    acc: Map<u64, Seq<char>>,
    t: int,
)
    requires
        0 <= t,
        forall|j: int| 0 <= j <= t ==> #[trigger] thunk_at(sections, arch, at, j) is Some,
        import_name(sections, arch, library, thunk_at(sections, arch, at, t)->0).len() > 0,
    ensures
        thunk_imports(sections, arch, library, at, slot, acc).contains_key(
            wrap64(slot + width_of(arch) * t) as u64,
        ),
    decreases t,
{
    let w = width_of(arch);
    assert(w == thunk_width(arch));
    assert(thunk_at(sections, arch, at, 0) is Some);
    assert(at + w * 0 == at);
    let thunk = thunk_at(sections, arch, at, 0)->0;
    let name = import_name(sections, arch, library, thunk);
    let next = if name.len() == 0 {
        acc
    } else {
        acc.insert(wrap64(slot) as u64, "__imp_"@ + name)
    };
    lemma_thunk_step(sections, arch, library, at, slot, acc);
    if t == 0 {
        assert(next.contains_key(wrap64(slot + w * 0) as u64));
        lemma_imports_grow(sections, arch, library, at + w, slot + w, next);
    } else {
        assert forall|j: int| 0 <= j <= t - 1 implies #[trigger] thunk_at(
            sections,
            arch,
            at + w,
            j,
        ) is Some by {
            assert(at + w + w * j == at + w * (j + 1)) by (nonlinear_arith);
            assert(thunk_at(sections, arch, at, j + 1) is Some);
        }
        assert(at + w + w * (t - 1) == at + w * t) by (nonlinear_arith);
        assert(slot + w + w * (t - 1) == slot + w * t) by (nonlinear_arith);
        assert(thunk_at(sections, arch, at, t) == thunk_at(sections, arch, at + w, t - 1));
        lemma_thunks(sections, arch, library, at + w, slot + w, next, t - 1);
    }
}

proof fn lemma_thunk_step(
    sections: Seq<SectionView>,
    arch: PeArch,
    library: int,
    at: int,
    slot: int,
    acc: Map<u64, Seq<char>>,
)
    requires
        thunk_at(sections, arch, at, 0) is Some,
    ensures
        ({
            let w = width_of(arch);
            let name = import_name(sections, arch, library, thunk_at(sections, arch, at, 0)->0);
            let next = if name.len() == 0 {
                acc
            } else {
                acc.insert(wrap64(slot) as u64, "__imp_"@ + name)
            };
            thunk_imports(sections, arch, library, at, slot, acc) == thunk_imports(
                sections,
                arch,
                library,
                at + w,
                slot + w,
                next,
            )
        }),
{
    let w = width_of(arch);
    assert(at + w * 0 == at);
    crate::seqs::lemma_first_index(sections, crate::pe::spans_rva(at, w));
}

proof fn lemma_imports_grow(
    sections: Seq<SectionView>,
    arch: PeArch,
    library: int,
    at: int,
    slot: int,
    acc: Map<u64, Seq<char>>,
)
    ensures
        forall|k: u64| #[trigger]
            acc.contains_key(k) ==> thunk_imports(
                sections,
                arch,
                library,
                at,
                slot,
                acc,
            ).contains_key(k),
    decreases 0x2_0000_0000_0000_0000int - at,
{
    let w = width_of(arch);
    assert(at + w * 0 == at);
    if thunk_at(sections, arch, at, 0) is Some {
        crate::seqs::lemma_first_index(sections, crate::pe::spans_rva(at, w));
        let name = import_name(sections, arch, library, thunk_at(sections, arch, at, 0)->0);
        let next = if name.len() == 0 {
            acc
        } else {
            acc.insert(wrap64(slot) as u64, "__imp_"@ + name)
        };
        lemma_thunk_step(sections, arch, library, at, slot, acc);
        lemma_imports_grow(sections, arch, library, at + w, slot + w, next);
        assert forall|k: u64| #[trigger] acc.contains_key(k) implies thunk_imports(
            sections,
            arch,
            library,
            at,
            slot,
            acc,
        ).contains_key(k) by {
            assert(next.contains_key(k));
        }
    }
}

/// The imports of a library go to its slots one by one: the `t`th of `n` thunks gives
/// the `t`th slot its name behind `__imp_`, and no other slot changes.
pub proof fn lemma_thunks_name_their_slots(
    sections: Seq<SectionView>,
    arch: PeArch,
    library: int,
    at: int,
    slot: int,
    acc: Map<u64, Seq<char>>,
    n: int,
    k: u64,
)
    requires
        0 <= n,
        0 <= slot,
        slot + width_of(arch) * n <= u64::MAX,
        forall|j: int| 0 <= j < n ==> #[trigger] thunk_at(sections, arch, at, j) is Some,
        thunk_at(sections, arch, at, n) is None,
    ensures
        ({
            let all = thunk_imports(sections, arch, library, at, slot, acc);
            let w = width_of(arch);
            &&& forall|t: int|
                0 <= t < n && #[trigger] (slot + w * t) == k ==> {
                    let name = import_name(
                        sections,
                        arch,
                        library,
                        thunk_at(sections, arch, at, t)->0,
                    );
                    name.len() > 0 ==> all.contains_key(k) && all[k] == "__imp_"@ + name
                }
            &&& (forall|t: int| 0 <= t < n ==> #[trigger] (slot + w * t) != k) ==> (
            all.contains_key(k) == acc.contains_key(k) && (acc.contains_key(k) ==> all[k]
                == acc[k]))
        }),
    decreases n,
{
    let w = width_of(arch);
    assert(at + w * 0 == at);
    let all = thunk_imports(sections, arch, library, at, slot, acc);
    if n == 0 {
        assert(all == acc);
    } else {
        assert(thunk_at(sections, arch, at, 0) is Some);
        let name = import_name(sections, arch, library, thunk_at(sections, arch, at, 0)->0);
        let next = if name.len() == 0 {
            acc
        } else {
            acc.insert(wrap64(slot) as u64, "__imp_"@ + name)
        };
        lemma_thunk_step(sections, arch, library, at, slot, acc);
        assert forall|j: int| 0 <= j < n - 1 implies #[trigger] thunk_at(
            sections,
            arch,
            at + w,
            j,
        ) is Some by {
            assert(at + w + w * j == at + w * (j + 1)) by (nonlinear_arith);
            assert(thunk_at(sections, arch, at, j + 1) is Some);
        }
        assert(at + w + w * (n - 1) == at + w * n) by (nonlinear_arith);
        assert(slot + w + w * (n - 1) == slot + w * n) by (nonlinear_arith);
        assert(w * n >= w) by (nonlinear_arith)
            requires
                n >= 1,
                w >= 0,
        ;
        lemma_thunks_name_their_slots(sections, arch, library, at + w, slot + w, next, n - 1, k);
        assert(slot + w * 0 == slot);
        assert forall|t: int| 0 <= t < n && #[trigger] (slot + w * t) == k implies {
            let name = import_name(sections, arch, library, thunk_at(sections, arch, at, t)->0);
            name.len() > 0 ==> all.contains_key(k) && all[k] == "__imp_"@ + name
        } by {
            if t > 0 {
                assert(slot + w + w * (t - 1) == slot + w * t) by (nonlinear_arith);
                assert(at + w + w * (t - 1) == at + w * t) by (nonlinear_arith);
                assert((slot + w) + w * (t - 1) == k);
            } else {
                assert forall|u: int| 0 <= u < n - 1 implies #[trigger] ((slot + w) + w * u)
                    != k by {
                    assert(w * u >= 0) by (nonlinear_arith)
                        requires
                            u >= 0,
                            w >= 0,
                    ;
                }
            }
        }
        if forall|t: int| 0 <= t < n ==> #[trigger] (slot + w * t) != k {
            assert(slot + w * 0 != k);
            assert forall|u: int| 0 <= u < n - 1 implies #[trigger] ((slot + w) + w * u) != k by {
                assert(slot + w + w * u == slot + w * (u + 1)) by (nonlinear_arith);
                assert(slot + w * (u + 1) != k);
            }
        }
    }
}

proof fn lemma_descriptors_grow(
    sections: Seq<SectionView>,
    arch: PeArch,
    base: int,
    at: int,
    acc: Map<u64, Seq<char>>,
)
    ensures
        forall|k: u64| #[trigger]
            acc.contains_key(k) ==> descriptor_imports(sections, arch, base, at, acc).contains_key(
                k,
            ),
    decreases 0x2_0000_0000_0000_0000int - at,
{
    if let Some(desc) = rva_bytes(sections, at, 20) {
        let original = le32(desc, 0);
        let first_thunk = le32(desc, 16);
        if original != 0 || first_thunk != 0 {
            crate::seqs::lemma_first_index(sections, crate::pe::spans_rva(at, 20));
            let hints = if original != 0 {
                original
            } else {
                first_thunk
            };
            let next = thunk_imports(
                sections,
                arch,
                le32(desc, 12),
                hints,
                base + first_thunk,
                acc,
            );
            lemma_imports_grow(
                sections,
                arch,
                le32(desc, 12),
                hints,
                base + first_thunk,
                acc,
            );
            lemma_descriptors_grow(sections, arch, base, at + 20, next);
        }
    }
}

/// The descriptor of a library: where the names of its imports are, where its own
/// name is, and where its slots are; nothing behind the last.
pub open spec fn library_at(sections: Seq<SectionView>, at: int, q: int) -> Option<(int, int, int)> {
    match rva_bytes(sections, at + 20 * q, 20) {
        None => None,
        Some(desc) => {
            let original = field(desc, 0, 4);
            let slots = field(desc, 16, 4);
            if original == 0 && slots == 0 {
                None
            } else {
                Some(
                    (
                        if original != 0 {
                            original
                        } else {
                            slots
                        },
                        field(desc, 12, 4),
                        slots,
                    ),
                )
            }
        },
    }
}

/// Every import of every library has its slot: the `t`th thunk of the `q`th library,
/// as far as libraries and thunks reach, at the library's slots.
pub proof fn lemma_every_import_has_its_slot(
    sections: Seq<SectionView>,
    arch: PeArch,
    base: int,
    at: int,
    acc: Map<u64, Seq<char>>,
    q: int,
    t: int,
    hints: int,
    library: int,
    slots: int,
)
    requires
        0 <= q,
        0 <= t,
        forall|p: int| 0 <= p < q ==> #[trigger] library_at(sections, at, p) is Some,
        library_at(sections, at, q) == Some((hints, library, slots)),
        forall|j: int| 0 <= j <= t ==> #[trigger] thunk_at(sections, arch, hints, j) is Some,
        import_name(sections, arch, library, thunk_at(sections, arch, hints, t)->0).len() > 0,
    ensures
        descriptor_imports(sections, arch, base, at, acc).contains_key(
            wrap64(base + slots + width_of(arch) * t) as u64,
        ),
    decreases q,
{
    assert(at + 20 * 0 == at);
    assert(library_at(sections, at, 0) is Some);
    let desc = rva_bytes(sections, at, 20)->0;
    crate::seqs::lemma_first_index(sections, crate::pe::spans_rva(at, 20));
    assert(desc.len() == 20);
    lemma_field(desc, 0);
    lemma_field(desc, 12);
    lemma_field(desc, 16);
    let (h, l, s) = library_at(sections, at, 0)->0;
    let next = thunk_imports(sections, arch, l, h, base + s, acc);
    assert(descriptor_imports(sections, arch, base, at, acc) == descriptor_imports(
        sections,
        arch,
        base,
        at + 20,
        next,
    ));
    if q == 0 {
        lemma_thunks(sections, arch, l, h, base + s, acc, t);
        lemma_descriptors_grow(sections, arch, base, at + 20, next);
    } else {
        assert forall|p: int| 0 <= p < q - 1 implies #[trigger] library_at(
            sections,
            at + 20,
            p,
        ) is Some by {
            assert(at + 20 + 20 * p == at + 20 * (p + 1));
            assert(library_at(sections, at, p + 1) is Some);
        }
        assert(at + 20 + 20 * (q - 1) == at + 20 * q);
        lemma_every_import_has_its_slot(
            sections,
            arch,
            base,
            at + 20,
            next,
            q - 1,
            t,
            hints,
            library,
            slots,
        );
    }
}

proof fn lemma_text_end(d: Seq<u8>, from: int, limit: int, end: int)
    requires
        from <= end <= limit,
        end == limit || d[end] == 0,
        forall|k: int| from <= k < end ==> #[trigger] d[k] != 0,
    ensures
        cstr_end(d, from, limit) == end,
    decreases end - from,
{
    if from < end {
        assert(d[from] != 0);
        lemma_text_end(d, from + 1, limit, end);
    }
}

/// The text at an address is what its section has there, up to the first zero or
/// the end of the section's data.
pub proof fn lemma_texts_end_with_a_zero(sections: Seq<SectionView>, rva: int, s: int, end: int)
    requires
        0 <= s < sections.len(),
        sections[s].rva <= rva,
        rva + 1 <= sections[s].rva + sections[s].virtual_size,
        forall|j: int|
            0 <= j < s ==> !((#[trigger] sections[j]).rva <= rva && rva + 1 <= sections[j].rva
                + sections[j].virtual_size),
        rva - sections[s].rva <= end <= sections[s].data.len(),
        end == sections[s].data.len() || sections[s].data[end] == 0,
        forall|k: int| rva - sections[s].rva <= k < end ==> #[trigger] sections[s].data[k] != 0,
    ensures
        rva_text(sections, rva) == Some(
            lossy_text(sections[s].data.subrange(rva - sections[s].rva, end)),
        ),
{
    crate::seqs::lemma_first_index_is(sections, crate::pe::spans_rva(rva, 1), s);
    lemma_text_end(
        sections[s].data,
        rva - sections[s].rva,
        sections[s].data.len() as int,
        end,
    );
}

/// A thunk with its highest bit set imports by ordinal: the library's name, `#` and
/// the low word; another imports by name, which stands behind a hint of two bytes.
pub proof fn lemma_import_names(
    sections: Seq<SectionView>,
    arch: PeArch,
    library: int,
    entry: Seq<u8>,
    from: Seq<char>,
    name: Seq<char>,
)
    requires
        entry.len() == width_of(arch),
        rva_text(sections, library) == Some(from),
        rva_text(sections, field(entry, 0, width_of(arch) as nat) + 2) == Some(name),
    ensures
        ({
            let thunk = field(entry, 0, width_of(arch) as nat);
            let by_ordinal = entry[width_of(arch) - 1] >= 0x80;
            &&& thunk_value(arch, entry) == thunk
            &&& import_name(sections, arch, library, thunk) == if by_ordinal {
                from + "#"@ + dec_text(thunk % 0x1_0000)
            } else {
                name
            }
        }),
{
    lemma_field(entry, 0);
}

// ---------------------------------------------------------------------------
// Resources
// ---------------------------------------------------------------------------

/// How many entries a resource directory has, by name and by number.
pub open spec fn entries_of(b: Seq<u8>, directory: int) -> int {
    field(b, directory + 12, 2) + field(b, directory + 14, 2)
}

/// The two fields of an entry: what it is called, and where it leads.
pub open spec fn entry_key(b: Seq<u8>, directory: int, i: int) -> int {
    field(b, directory + 16 + 8 * i, 4)
}

pub open spec fn entry_child(b: Seq<u8>, directory: int, i: int) -> int {
    field(b, directory + 20 + 8 * i, 4)
}

/// What an entry is called: a number, or the text that it points to.
pub open spec fn is_called(id: ResourceIdView, b: Seq<u8>, key: int) -> bool {
    if key < 0x8000_0000 {
        id == ResourceIdView::Number((key % 0x1_0000) as u16)
    } else {
        let at = key - 0x8000_0000;
        id matches ResourceIdView::Text(text) && text.len() == field(b, at, 2) && forall|k: int|
            0 <= k < text.len() ==> #[trigger] text[k] == field(b, at + 2 + 2 * k, 2)
    }
}

proof fn lemma_entry(b: Seq<u8>, directory: int, i: int)
    requires
        0 <= directory,
        0 <= i,
        entry_at(b, directory + 16 + 8 * i) is Ok,
    ensures
        ({
            let (id, child) = entry_at(b, directory + 16 + 8 * i)->Ok_0;
            &&& is_called(id, b, entry_key(b, directory, i))
            &&& child == entry_child(b, directory, i)
        }),
{
    let e = directory + 16 + 8 * i;
    lemma_field(b, e);
    lemma_field(b, e + 4);
    let (id, child) = entry_at(b, e)->Ok_0;
    let key = le32(b, e);
    if key >= 0x8000_0000 {
        let at = key - 0x8000_0000;
        lemma_field(b, at);
        if let ResourceIdView::Text(text) = id {
            assert forall|k: int| 0 <= k < text.len() implies #[trigger] text[k] == field(
                b,
                at + 2 + 2 * k,
                2,
            ) by {
                lemma_field(b, at + 2 + 2 * k);
            }
        }
    }
}

proof fn lemma_entry_count(b: Seq<u8>, directory: int)
    requires
        0 <= directory,
        entry_count(b, directory) is Ok,
    ensures
        entry_count(b, directory)->Ok_0 == entries_of(b, directory),
{
    lemma_field(b, directory + 12);
    lemma_field(b, directory + 14);
}

/// What is found below an entry is found below its directory.
proof fn lemma_below_entry(
    image: Seq<SectionView>,
    b: Seq<u8>,
    directory: int,
    depth: int,
    ids: Seq<ResourceIdView>,
    n: nat,
    i: int,
    r: RecordView,
)
    requires
        0 <= depth <= 2,
        0 <= i < n,
        entries_visited(image, b, directory, depth, ids, n) is Ok,
        entry_at(b, directory + 16 + 8 * i) matches Ok((id, child)) && if depth < 2 {
            visited(image, b, child - 0x8000_0000, depth + 1, ids.push(id)) matches Ok(below)
                && below.contains(r)
        } else {
            leaf(image, b, child, id, ids) == Ok::<RecordView, Seq<char>>(r)
        },
    ensures
        entries_visited(image, b, directory, depth, ids, n)->Ok_0.contains(r),
    decreases n,
{
    let m = (n - 1) as nat;
    let before = entries_visited(image, b, directory, depth, ids, m)->Ok_0;
    let all = entries_visited(image, b, directory, depth, ids, n)->Ok_0;
    if i < m {
        lemma_below_entry(image, b, directory, depth, ids, m, i, r);
        let k = choose|k: int| 0 <= k < before.len() && before[k] == r;
        assert(all[k] == r);
    } else {
        let (id, child) = entry_at(b, directory + 16 + 8 * i)->Ok_0;
        if depth < 2 {
            let below = visited(image, b, child - 0x8000_0000, depth + 1, ids.push(id))->Ok_0;
            let k = choose|k: int| 0 <= k < below.len() && below[k] == r;
            assert(all[before.len() + k] == r);
        } else {
            assert(all[before.len() as int] == r);
        }
    }
}

/// All that is visited goes well where the whole does.
proof fn lemma_entry_goes_well(
    image: Seq<SectionView>,
    b: Seq<u8>,
    directory: int,
    depth: int,
    ids: Seq<ResourceIdView>,
    n: nat,
    i: int,
)
    requires
        0 <= depth <= 2,
        0 <= i < n,
        entries_visited(image, b, directory, depth, ids, n) is Ok,
    ensures
        entry_at(b, directory + 16 + 8 * i) matches Ok((id, child)) && if depth < 2 {
            child >= 0x8000_0000 && visited(
                image,
                b,
                child - 0x8000_0000,
                depth + 1,
                ids.push(id),
            ) is Ok
        } else {
            leaf(image, b, child, id, ids) is Ok
        },
    decreases n,
{
    if i < n - 1 {
        lemma_entry_goes_well(image, b, directory, depth, ids, (n - 1) as nat, i);
    }
}

/// Every resource of a resource tree is found: for every entry `i` of the root, `j`
/// of the directory that it leads to and `k` of the one below, the type, the name and
/// the language of these entries, and the payload that the last one describes.
pub proof fn lemma_every_resource_is_found(
    image: Seq<SectionView>,
    b: Seq<u8>,
    i: int,
    j: int,
    k: int,
)
    requires
        visited(image, b, 0, 0, Seq::empty()) is Ok,
        0 <= i < entries_of(b, 0),
        0 <= j < entries_of(b, entry_child(b, 0, i) - 0x8000_0000),
        0 <= k < entries_of(
            b,
            entry_child(b, entry_child(b, 0, i) - 0x8000_0000, j) - 0x8000_0000,
        ),
    ensures
        ({
            let names = entry_child(b, 0, i) - 0x8000_0000;
            let languages = entry_child(b, names, j) - 0x8000_0000;
            let data = entry_child(b, languages, k);
            exists|r: RecordView|
                #![trigger visited(image, b, 0, 0, Seq::empty())->Ok_0.contains(r)]
                visited(image, b, 0, 0, Seq::empty())->Ok_0.contains(r) && is_called(
                    r.kind,
                    b,
                    entry_key(b, 0, i),
                ) && is_called(r.name, b, entry_key(b, names, j)) && r.language == entry_key(
                    b,
                    languages,
                    k,
                ) % 0x1_0000 && r.rva == field(b, data, 4) && image_bytes(
                    image,
                    r.rva as u64,
                    field(b, data + 4, 4),
                ) == Some(r.data)
        }),
{
    let none = Seq::<ResourceIdView>::empty();
    lemma_entry_count(b, 0);
    let n0 = entry_count(b, 0)->Ok_0;
    lemma_entry_goes_well(image, b, 0, 0, none, n0, i);
    lemma_entry(b, 0, i);
    let (kind, child0) = entry_at(b, 0 + 16 + 8 * i)->Ok_0;
    let names = child0 - 0x8000_0000;
    let ids1 = none.push(kind);
    lemma_entry_count(b, names);
    let n1 = entry_count(b, names)->Ok_0;
    lemma_entry_goes_well(image, b, names, 1, ids1, n1, j);
    lemma_entry(b, names, j);
    let (name, child1) = entry_at(b, names + 16 + 8 * j)->Ok_0;
    let languages = child1 - 0x8000_0000;
    let ids2 = ids1.push(name);
    lemma_entry_count(b, languages);
    let n2 = entry_count(b, languages)->Ok_0;
    lemma_entry_goes_well(image, b, languages, 2, ids2, n2, k);
    lemma_entry(b, languages, k);
    let (id, data) = entry_at(b, languages + 16 + 8 * k)->Ok_0;
    let r = leaf(image, b, data, id, ids2)->Ok_0;
    lemma_field(b, data as int);
    lemma_field(b, data + 4);
    lemma_below_entry(image, b, languages, 2, ids2, n2, k, r);
    lemma_below_entry(image, b, names, 1, ids1, n1, j, r);
    lemma_below_entry(image, b, 0, 0, none, n0, i, r);
    assert(visited(image, b, 0, 0, none)->Ok_0.contains(r));
    assert(ids2[0] == kind && ids2[1] == name);
}

/// Every record stands in the file whole, behind those before it.
pub proof fn lemma_every_record_is_written(records: Seq<RecordView>, i: int)
    requires
        0 <= i < records.len(),
        records_bytes(records) is Ok,
    ensures
        record_bytes(records[i].kind, records[i].name, records[i].language, records[i].data)
            is Ok,
        exists|at: int|
            #![trigger records_bytes(records)->Ok_0.skip(at)]
            0 <= at && at + record_bytes(
                records[i].kind,
                records[i].name,
                records[i].language,
                records[i].data,
            )->Ok_0.len() <= records_bytes(records)->Ok_0.len() && records_bytes(
                records,
            )->Ok_0.skip(at).take(
                record_bytes(
                    records[i].kind,
                    records[i].name,
                    records[i].language,
                    records[i].data,
                )->Ok_0.len() as int,
            ) == record_bytes(
                records[i].kind,
                records[i].name,
                records[i].language,
                records[i].data,
            )->Ok_0,
    decreases records.len(),
{
    let init = records.drop_last();
    let before = records_bytes(init)->Ok_0;
    let all = records_bytes(records)->Ok_0;
    let r = records[i];
    if i < init.len() {
        assert(init[i] == r);
        lemma_every_record_is_written(init, i);
        let bytes = record_bytes(r.kind, r.name, r.language, r.data)->Ok_0;
        let at = choose|at: int|
            #![trigger before.skip(at)]
            0 <= at && at + bytes.len() <= before.len() && before.skip(at).take(
                bytes.len() as int,
            ) == bytes;
        assert(all.skip(at).take(bytes.len() as int) =~= before.skip(at).take(
            bytes.len() as int,
        ));
    } else {
        let bytes = record_bytes(r.kind, r.name, r.language, r.data)->Ok_0;
        assert(all.skip(before.len() as int).take(bytes.len() as int) =~= bytes);
    }
}

} // verus!
