//! The resources of a PE image, as a standard `.res` file.

use crate::bytes::{
    get_u16, get_u32, le16, le16_bytes, le32, le32_bytes, lemma_le32_round_trip,
    lemma_le32_subrange, push_u16, push_u32,
};
use crate::model::{holds, IdaModel};
use crate::pe::{image_bytes, PeImage, PeSection, SectionView};
use crate::seqs::{first, lemma_first_index_is, lemma_first_index_none, views};
use crate::sorting::{
    lemma_sort_views, lemma_stable_sort_orders, sort_stably, stable_sort, views_keep_keys, HasKey,
    Keyed,
};
use crate::text::{same_text, Error};
use vstd::prelude::*;

verus! {

// ---------------------------------------------------------------------------
// Reading the resource tree
// ---------------------------------------------------------------------------

/// The number or the name of a resource, a type or a language.
#[derive(Debug)]
pub enum ResourceId {
    Number(u16),
    Text(Vec<u16>),
}

pub enum ResourceIdView {
    Number(u16),
    Text(Seq<u16>),
}

impl View for ResourceId {
    type V = ResourceIdView;

    open spec fn view(&self) -> ResourceIdView {
        match self {
            ResourceId::Number(n) => ResourceIdView::Number(*n),
            ResourceId::Text(text) => ResourceIdView::Text(text@),
        }
    }
}

impl Clone for ResourceId {
    fn clone(&self) -> (r: Self)
        ensures
            r@ == self@,
    {
        match self {
            ResourceId::Number(n) => ResourceId::Number(*n),
            ResourceId::Text(text) => {
                let copy = vstd::slice::slice_to_vec(text.as_slice());
                ResourceId::Text(copy)
            },
        }
    }
}

/// The high bit of a resource entry: the identifier is a name, or the child a
/// directory. What is below it is an offset.
pub const HIGH_BIT: u32 = 0x8000_0000;

pub open spec fn out_of_bounds() -> Seq<char> {
    "resource record is out of bounds"@
}

pub open spec fn word_at(b: Seq<u8>, offset: int) -> Result<u16, Seq<char>> {
    if offset + 2 <= b.len() {
        Ok(le16(b, offset) as u16)
    } else {
        Err(out_of_bounds())
    }
}

pub open spec fn dword_at(b: Seq<u8>, offset: int) -> Result<u32, Seq<char>> {
    if offset + 4 <= b.len() {
        Ok(le32(b, offset) as u32)
    } else {
        Err(out_of_bounds())
    }
}

/// The identifier that an entry's first field gives: its low word, or the
/// counted UTF-16 text that it points to.
pub open spec fn identifier(b: Seq<u8>, value: u32) -> Result<ResourceIdView, Seq<char>> {
    if value < HIGH_BIT {
        Ok(ResourceIdView::Number((value % 0x1_0000) as u16))
    } else {
        let offset = value - HIGH_BIT;
        match word_at(b, offset) {
            Err(e) => Err(e),
            Ok(length) => if offset + 2 + 2 * length > b.len() {
                Err(out_of_bounds())
            } else {
                Ok(
                    ResourceIdView::Text(
                        Seq::new(length as nat, |i: int| le16(b, offset + 2 + 2 * i) as u16),
                    ),
                )
            },
        }
    }
}

pub fn resource_word(bytes: &[u8], offset: u64) -> (r: Result<u16, Error>)
    ensures
        match r {
            Ok(n) => word_at(bytes@, offset as int) == Ok::<u16, Seq<char>>(n),
            Err(e) => word_at(bytes@, offset as int) == Err::<u16, Seq<char>>(e@),
        },
{
    let total: u64 = bytes.len() as u64;
    if total < 2 || offset > total - 2 {
        return Err(Error::new("resource record is out of bounds"));
    }
    Ok(get_u16(bytes, offset as usize))
}

pub fn resource_dword(bytes: &[u8], offset: u64) -> (r: Result<u32, Error>)
    ensures
        match r {
            Ok(n) => dword_at(bytes@, offset as int) == Ok::<u32, Seq<char>>(n),
            Err(e) => dword_at(bytes@, offset as int) == Err::<u32, Seq<char>>(e@),
        },
{
    let total: u64 = bytes.len() as u64;
    if total < 4 || offset > total - 4 {
        return Err(Error::new("resource record is out of bounds"));
    }
    Ok(get_u32(bytes, offset as usize))
}

fn resource_identifier(bytes: &[u8], value: u32) -> (r: Result<ResourceId, Error>)
    ensures
        match r {
            Ok(id) => identifier(bytes@, value) == Ok::<ResourceIdView, Seq<char>>(id@),
            Err(e) => identifier(bytes@, value) == Err::<ResourceIdView, Seq<char>>(e@),
        },
{
    if value < HIGH_BIT {
        return Ok(ResourceId::Number((value % 0x1_0000) as u16));
    }
    let offset: u64 = (value - HIGH_BIT) as u64;
    let length: u16 = match resource_word(bytes, offset) {
        Ok(length) => length,
        Err(e) => {
            return Err(e);
        },
    };
    let mut text: Vec<u16> = Vec::new();
    let mut i: u16 = 0;
    while i < length
        invariant
            value >= HIGH_BIT,
            offset == value - HIGH_BIT,
            word_at(bytes@, offset as int) == Ok::<u16, Seq<char>>(length),
            i <= length,
            i > 0 ==> offset + 2 + 2 * i <= bytes@.len(),
            text@ =~= Seq::new(i as nat, |k: int| le16(bytes@, offset + 2 + 2 * k) as u16),
        decreases length - i,
    {
        let word: u16 = match resource_word(bytes, offset + 2 + 2 * (i as u64)) {
            Ok(word) => word,
            Err(e) => {
                return Err(e);
            },
        };
        text.push(word);
        i += 1;
    }
    let id = ResourceId::Text(text);
    assert(id@ == ResourceIdView::Text(text@));
    Ok(id)
}

/// One resource: its payload at `rva`, with its type, name and language.
#[derive(Debug)]
pub struct ResourceRecord {
    pub rva: u32,
    pub kind: ResourceId,
    pub name: ResourceId,
    pub language: u16,
    pub data: Vec<u8>,
}

pub struct RecordView {
    pub rva: u32,
    pub kind: ResourceIdView,
    pub name: ResourceIdView,
    pub language: u16,
    pub data: Seq<u8>,
}

impl View for ResourceRecord {
    type V = RecordView;

    open spec fn view(&self) -> RecordView {
        RecordView {
            rva: self.rva,
            kind: self.kind@,
            name: self.name@,
            language: self.language,
            data: self.data@,
        }
    }
}

impl HasKey for RecordView {
    open spec fn spec_key(&self) -> u64 {
        self.rva as u64
    }
}

impl HasKey for ResourceRecord {
    open spec fn spec_key(&self) -> u64 {
        self.rva as u64
    }
}

impl Keyed for ResourceRecord {
    fn key(&self) -> (k: u64) {
        self.rva as u64
    }
}

/// The resource that a leaf of the tree describes: `child` is the offset of its
/// data entry and `id` its language.
pub open spec fn leaf(
    image: Seq<SectionView>,
    b: Seq<u8>,
    child: u32,
    id: ResourceIdView,
    ids: Seq<ResourceIdView>,
) -> Result<RecordView, Seq<char>> {
    if child >= HIGH_BIT {
        Err("PE resource leaf is a directory"@)
    } else {
        match (dword_at(b, child as int), dword_at(b, child + 4)) {
            (Ok(rva), Ok(size)) => match image_bytes(image, rva as u64, size as int) {
                None => Err("PE resource payload is out of bounds"@),
                Some(data) => match id {
                    ResourceIdView::Number(language) => Ok(
                        RecordView { rva, kind: ids[0], name: ids[1], language, data },
                    ),
                    ResourceIdView::Text(_) => Err("named PE resource language"@),
                },
            },
            (Err(e), _) => Err(e),
            (_, Err(e)) => Err(e),
        }
    }
}

/// The identifier and the child of an entry.
pub open spec fn entry_at(b: Seq<u8>, entry: int) -> Result<(ResourceIdView, u32), Seq<char>> {
    match dword_at(b, entry) {
        Err(e) => Err(e),
        Ok(value) => match identifier(b, value) {
            Err(e) => Err(e),
            Ok(id) => match dword_at(b, entry + 4) {
                Err(e) => Err(e),
                Ok(child) => Ok((id, child)),
            },
        },
    }
}

/// The number of entries of a directory, named and numbered.
pub open spec fn entry_count(b: Seq<u8>, offset: int) -> Result<nat, Seq<char>> {
    match (word_at(b, offset + 12), word_at(b, offset + 14)) {
        (Ok(named), Ok(numbered)) => Ok((named + numbered) as nat),
        (Err(e), _) => Err(e),
        (_, Err(e)) => Err(e),
    }
}

/// The resources below the first `n` entries of the directory at `offset`. The
/// levels of the tree are type, name and language; `ids` are those above.
pub open spec fn entries_visited(
    image: Seq<SectionView>,
    b: Seq<u8>,
    offset: int,
    depth: int,
    ids: Seq<ResourceIdView>,
    n: nat,
) -> Result<Seq<RecordView>, Seq<char>>
    decreases 3 - depth, 1int, n,
{
    if n == 0 {
        Ok(Seq::empty())
    } else {
        match entries_visited(image, b, offset, depth, ids, (n - 1) as nat) {
            Err(e) => Err(e),
            Ok(before) => match entry_at(b, offset + 16 + 8 * (n - 1)) {
                Err(e) => Err(e),
                Ok((id, child)) => if 0 <= depth < 2 {
                    if child < HIGH_BIT {
                        Err("PE resource directory ends early"@)
                    } else {
                        match visited(image, b, child - HIGH_BIT, depth + 1, ids.push(id)) {
                            Err(e) => Err(e),
                            Ok(below) => Ok(before + below),
                        }
                    }
                } else {
                    match leaf(image, b, child, id, ids) {
                        Err(e) => Err(e),
                        Ok(record) => Ok(before.push(record)),
                    }
                },
            },
        }
    }
}

/// The resources of the directory at `offset`.
pub open spec fn visited(
    image: Seq<SectionView>,
    b: Seq<u8>,
    offset: int,
    depth: int,
    ids: Seq<ResourceIdView>,
) -> Result<Seq<RecordView>, Seq<char>>
    decreases 3 - depth, 2int, 0nat,
{
    if depth > 2 {
        Err("PE resource tree is deeper than three levels"@)
    } else {
        match entry_count(b, offset) {
            Err(e) => Err(e),
            Ok(n) => entries_visited(image, b, offset, depth, ids, n),
        }
    }
}

proof fn lemma_entries_visited_err(
    image: Seq<SectionView>,
    b: Seq<u8>,
    offset: int,
    depth: int,
    ids: Seq<ResourceIdView>,
    n: nat,
    all: nat,
)
    requires
        n <= all,
        entries_visited(image, b, offset, depth, ids, n) is Err,
    ensures
        entries_visited(image, b, offset, depth, ids, all) == entries_visited(
            image,
            b,
            offset,
            depth,
            ids,
            n,
        ),
    decreases all,
{
    if n < all {
        lemma_entries_visited_err(image, b, offset, depth, ids, n, (all - 1) as nat);
    }
}

fn read_leaf(pe: &PeImage, bytes: &[u8], child: u32, id: ResourceId, ids: &Vec<ResourceId>) -> (r:
    Result<ResourceRecord, Error>)
    requires
        ids@.len() >= 2,
    ensures
        match r {
            Ok(record) => leaf(pe.spec_sections(), bytes@, child, id@, views(ids@)) == Ok::<
                RecordView,
                Seq<char>,
            >(record@),
            Err(e) => leaf(pe.spec_sections(), bytes@, child, id@, views(ids@)) == Err::<
                RecordView,
                Seq<char>,
            >(e@),
        },
{
    if child >= HIGH_BIT {
        return Err(Error::new("PE resource leaf is a directory"));
    }
    let rva: u32 = match resource_dword(bytes, child as u64) {
        Ok(rva) => rva,
        Err(e) => {
            return Err(e);
        },
    };
    let size: u32 = match resource_dword(bytes, child as u64 + 4) {
        Ok(size) => size,
        Err(e) => {
            return Err(e);
        },
    };
    let data = match pe.data_at_rva(rva as u64, size as usize) {
        Some(data) => vstd::slice::slice_to_vec(data),
        None => {
            return Err(Error::new("PE resource payload is out of bounds"));
        },
    };
    let language: u16 = match id {
        ResourceId::Number(language) => language,
        ResourceId::Text(_) => {
            return Err(Error::new("named PE resource language"));
        },
    };
    let record = ResourceRecord {
        rva,
        kind: ids[0].clone(),
        name: ids[1].clone(),
        language,
        data,
    };
    Ok(record)
}

fn read_entry(bytes: &[u8], entry: u64) -> (r: Result<(ResourceId, u32), Error>)
    requires
        entry <= 0xffff_ffff,
    ensures
        match r {
            Ok((id, child)) => entry_at(bytes@, entry as int) == Ok::<
                (ResourceIdView, u32),
                Seq<char>,
            >((id@, child)),
            Err(e) => entry_at(bytes@, entry as int) == Err::<(ResourceIdView, u32), Seq<char>>(e@),
        },
{
    let value: u32 = match resource_dword(bytes, entry) {
        Ok(value) => value,
        Err(e) => {
            return Err(e);
        },
    };
    let id = match resource_identifier(bytes, value) {
        Ok(id) => id,
        Err(e) => {
            return Err(e);
        },
    };
    match resource_dword(bytes, entry + 4) {
        Ok(child) => Ok((id, child)),
        Err(e) => Err(e),
    }
}

fn count_entries(bytes: &[u8], offset: u64) -> (r: Result<u32, Error>)
    requires
        offset < HIGH_BIT,
    ensures
        match r {
            Ok(n) => entry_count(bytes@, offset as int) == Ok::<nat, Seq<char>>(n as nat) && n
                <= 0x1_fffe,
            Err(e) => entry_count(bytes@, offset as int) == Err::<nat, Seq<char>>(e@),
        },
{
    let named: u16 = match resource_word(bytes, offset + 12) {
        Ok(n) => n,
        Err(e) => {
            return Err(e);
        },
    };
    match resource_word(bytes, offset + 14) {
        Ok(numbered) => Ok(named as u32 + numbered as u32),
        Err(e) => Err(e),
    }
}

fn copy_ids(ids: &Vec<ResourceId>) -> (r: Vec<ResourceId>)
    ensures
        views(r@) == views(ids@),
{
    let mut out: Vec<ResourceId> = Vec::new();
    let mut i: usize = 0;
    while i < ids.len()
        invariant
            i <= ids@.len(),
            views(out@) =~= views(ids@).take(i as int),
        decreases ids@.len() - i,
    {
        let ghost before = out@;
        let id = ids[i].clone();
        out.push(id);
        i += 1;
        assert(views(out@) =~= views(before).push(id@));
    }
    assert(views(out@) =~= views(ids@));
    out
}

/// Reads the directory at `offset`, which stands below `ids`.
fn visit(pe: &PeImage, bytes: &[u8], offset: u64, depth: usize, ids: &Vec<ResourceId>) -> (r: Result<
    Vec<ResourceRecord>,
    Error,
>)
    requires
        offset < HIGH_BIT,
        ids@.len() == depth,
        depth <= 3,
    ensures
        match r {
            Ok(records) => visited(
                pe.spec_sections(),
                bytes@,
                offset as int,
                depth as int,
                views(ids@),
            ) == Ok::<Seq<RecordView>, Seq<char>>(views(records@)),
            Err(e) => visited(pe.spec_sections(), bytes@, offset as int, depth as int, views(ids@))
                == Err::<Seq<RecordView>, Seq<char>>(e@),
        },
    decreases 3 - depth,
{
    if depth > 2 {
        return Err(Error::new("PE resource tree is deeper than three levels"));
    }
    let count: u32 = match count_entries(bytes, offset) {
        Ok(count) => count,
        Err(e) => {
            return Err(e);
        },
    };
    let ghost image = pe.spec_sections();
    let ghost v = views(ids@);
    let mut records: Vec<ResourceRecord> = Vec::new();
    let mut i: u32 = 0;
    assert(views(records@) =~= Seq::<RecordView>::empty());
    while i < count
        invariant
            offset < HIGH_BIT,
            ids@.len() == depth,
            depth <= 2,
            i <= count <= 0x1_fffe,
            image == pe.spec_sections(),
            v == views(ids@),
            entry_count(bytes@, offset as int) == Ok::<nat, Seq<char>>(count as nat),
            entries_visited(image, bytes@, offset as int, depth as int, v, i as nat) == Ok::<
                Seq<RecordView>,
                Seq<char>,
            >(views(records@)),
        decreases count - i,
    {
        proof {
            if entries_visited(image, bytes@, offset as int, depth as int, v, (i + 1) as nat) is Err {
                lemma_entries_visited_err(
                    image,
                    bytes@,
                    offset as int,
                    depth as int,
                    v,
                    (i + 1) as nat,
                    count as nat,
                );
            }
        }
        let ghost before = records@;
        let (id, child) = match read_entry(bytes, offset + 16 + 8 * (i as u64)) {
            Ok(found) => found,
            Err(e) => {
                return Err(e);
            },
        };
        if depth < 2 {
            if child < HIGH_BIT {
                return Err(Error::new("PE resource directory ends early"));
            }
            let ghost key = id@;
            let mut below_ids = copy_ids(ids);
            below_ids.push(id);
            assert(views(below_ids@) =~= v.push(key));
            let mut below = match visit(pe, bytes, (child - HIGH_BIT) as u64, depth + 1, &below_ids) {
                Ok(below) => below,
                Err(e) => {
                    return Err(e);
                },
            };
            let ghost found = below@;
            records.append(&mut below);
            assert(views(records@) =~= views(before) + views(found));
        } else {
            let record = match read_leaf(pe, bytes, child, id, ids) {
                Ok(record) => record,
                Err(e) => {
                    return Err(e);
                },
            };
            records.push(record);
            assert(views(records@) =~= views(before).push(record@));
        }
        i += 1;
    }
    Ok(records)
}

// ---------------------------------------------------------------------------
// Writing the records
// ---------------------------------------------------------------------------

/// Words in little-endian byte order.
pub open spec fn words_bytes(words: Seq<u16>) -> Seq<u8>
    decreases words.len(),
{
    if words.len() == 0 {
        Seq::empty()
    } else {
        words_bytes(words.drop_last()) + le16_bytes(words.last() as int)
    }
}

pub open spec fn id_bytes(id: ResourceIdView) -> Seq<u8> {
    match id {
        ResourceIdView::Number(n) => le16_bytes(0xffff) + le16_bytes(n as int),
        ResourceIdView::Text(text) => words_bytes(text) + le16_bytes(0),
    }
}

/// Zeros up to the next multiple of four behind `len` bytes.
pub open spec fn fill(len: int) -> Seq<u8> {
    Seq::new(((4 - len % 4) % 4) as nat, |i: int| 0u8)
}

/// The type and the name of a record, filled up.
pub open spec fn ids_bytes(kind: ResourceIdView, name: ResourceIdView) -> Seq<u8> {
    let ids = id_bytes(kind) + id_bytes(name);
    ids + fill(ids.len() as int)
}

/// The size of a record's header: two sizes, the identifiers, and the data
/// version, memory flags, language, version and characteristics.
pub open spec fn header_size(kind: ResourceIdView, name: ResourceIdView) -> int {
    24 + ids_bytes(kind, name).len() as int
}

#[verifier::opaque]
pub open spec fn record_header(
    kind: ResourceIdView,
    name: ResourceIdView,
    language: u16,
    len: int,
) -> Seq<u8> {
    le32_bytes(len) + le32_bytes(header_size(kind, name)) + ids_bytes(kind, name) + le32_bytes(0)
        + le16_bytes(0) + le16_bytes(language as int) + le32_bytes(0) + le32_bytes(0)
}

/// The bytes of a record of a `.res` file.
pub open spec fn record_bytes(
    kind: ResourceIdView,
    name: ResourceIdView,
    language: u16,
    data: Seq<u8>,
) -> Result<Seq<u8>, Seq<char>> {
    if data.len() > u32::MAX || header_size(kind, name) > u32::MAX {
        Err("out of range integral type conversion attempted"@)
    } else {
        Ok(
            record_header(kind, name, language, data.len() as int) + data + fill(
                data.len() as int,
            ),
        )
    }
}

fn append_resource_identifier(out: &mut Vec<u8>, id: &ResourceId)
    ensures
        final(out)@ == old(out)@ + id_bytes(id@),
{
    let ghost start = out@;
    match id {
        ResourceId::Number(number) => {
            push_u16(out, 0xffff);
            push_u16(out, *number);
            assert(out@ =~= start + id_bytes(id@));
        },
        ResourceId::Text(text) => {
            let ghost words = text@;
            let mut i: usize = 0;
            assert(out@ =~= start + words_bytes(words.take(0)));
            while i < text.len()
                invariant
                    i <= text@.len(),
                    words == text@,
                    out@ == start + words_bytes(words.take(i as int)),
                decreases text@.len() - i,
            {
                assert(words.take(i + 1).drop_last() =~= words.take(i as int));
                push_u16(out, text[i]);
                assert(out@ =~= start + words_bytes(words.take(i + 1)));
                i += 1;
            }
            assert(words.take(words.len() as int) =~= words);
            push_u16(out, 0);
            assert(out@ =~= start + id_bytes(id@));
        },
    }
}

/// Fills `out` up to a multiple of four bytes behind the first `start`.
fn append_fill(out: &mut Vec<u8>, start: usize)
    requires
        start <= old(out)@.len(),
    ensures
        final(out)@ == old(out)@ + fill(old(out)@.len() - start),
{
    let ghost before = out@;
    let missing: usize = (4 - (out.len() - start) % 4) % 4;
    let mut i: usize = 0;
    while i < missing
        invariant
            i <= missing,
            out@ =~= before + Seq::new(i as nat, |k: int| 0u8),
        decreases missing - i,
    {
        out.push(0);
        i += 1;
    }
    assert(out@ =~= before + fill(before.len() - start));
}

fn write_header(kind: &ResourceId, name: &ResourceId, language: u16, len: u32) -> (r: Option<
    Vec<u8>,
>)
    ensures
        match r {
            Some(header) => header_size(kind@, name@) <= u32::MAX && header@ == record_header(
                kind@,
                name@,
                language,
                len as int,
            ),
            None => header_size(kind@, name@) > u32::MAX,
        },
{
    let mut ids: Vec<u8> = Vec::new();
    append_resource_identifier(&mut ids, kind);
    append_resource_identifier(&mut ids, name);
    assert(ids@ =~= id_bytes(kind@) + id_bytes(name@));
    append_fill(&mut ids, 0);
    if ids.len() as u64 > 0xffff_ffff - 24 {
        return None;
    }
    let mut out: Vec<u8> = Vec::new();
    push_u32(&mut out, len);
    assert(out@ =~= le32_bytes(len as int));
    push_u32(&mut out, ids.len() as u32 + 24);
    out.extend_from_slice(ids.as_slice());
    push_u32(&mut out, 0);  // data version
    push_u16(&mut out, 0);  // memory flags
    push_u16(&mut out, language);
    push_u32(&mut out, 0);  // version
    push_u32(&mut out, 0);  // characteristics
    proof {
        reveal(record_header);
    }
    Some(out)
}

/// Appends a record; `out` is left as it is where a size does not fit.
fn append_res_record(
    out: &mut Vec<u8>,
    kind: &ResourceId,
    name: &ResourceId,
    language: u16,
    data: &[u8],
) -> (r: Result<(), Error>)
    ensures
        match (r, record_bytes(kind@, name@, language, data@)) {
            (Ok(_), Ok(record)) => final(out)@ == old(out)@ + record,
            (Err(e), Err(text)) => e@ == text && final(out)@ == old(out)@,
            _ => false,
        },
{
    let ghost start = out@;
    assert(data@.len() == data.len());
    if data.len() as u64 > 0xffff_ffff {
        return Err(Error::new("out of range integral type conversion attempted"));
    }
    let mut header = match write_header(kind, name, language, data.len() as u32) {
        Some(header) => header,
        None => {
            return Err(Error::new("out of range integral type conversion attempted"));
        },
    };
    let ghost head = header@;
    let ghost len = data@.len() as int;
    out.append(&mut header);
    out.extend_from_slice(data);
    append_fill(out, out.len() - data.len());
    assert(out@ =~= start + (head + data@ + fill(len)));
    Ok(())
}

/// Records, one behind the other.
pub open spec fn records_bytes(records: Seq<RecordView>) -> Result<Seq<u8>, Seq<char>>
    decreases records.len(),
{
    if records.len() == 0 {
        record_bytes(ResourceIdView::Number(0), ResourceIdView::Number(0), 0, Seq::empty())
    } else {
        let last = records.last();
        match records_bytes(records.drop_last()) {
            Err(e) => Err(e),
            Ok(before) => match record_bytes(last.kind, last.name, last.language, last.data) {
                Err(e) => Err(e),
                Ok(record) => Ok(before + record),
            },
        }
    }
}

proof fn lemma_records_bytes_err(records: Seq<RecordView>, n: int)
    requires
        0 <= n <= records.len(),
        records_bytes(records.take(n)) is Err,
    ensures
        records_bytes(records) == records_bytes(records.take(n)),
    decreases records.len(),
{
    if n < records.len() {
        assert(records.drop_last().take(n) =~= records.take(n));
        lemma_records_bytes_err(records.drop_last(), n);
    } else {
        assert(records.take(n) =~= records);
    }
}

fn write_records(records: &Vec<ResourceRecord>) -> (r: Result<Vec<u8>, Error>)
    ensures
        match r {
            Ok(bytes) => records_bytes(views(records@)) == Ok::<Seq<u8>, Seq<char>>(bytes@),
            Err(e) => records_bytes(views(records@)) == Err::<Seq<u8>, Seq<char>>(e@),
        },
{
    let ghost v = views(records@);
    let mut out: Vec<u8> = Vec::new();
    let empty: Vec<u8> = Vec::new();
    let zero = ResourceId::Number(0);
    assert(v.take(0) =~= Seq::<RecordView>::empty());
    assert(empty@ =~= Seq::<u8>::empty());
    let first = append_res_record(&mut out, &zero, &zero, 0, empty.as_slice());
    if let Err(e) = first {
        proof {
            lemma_records_bytes_err(v, 0);
        }
        return Err(e);
    }
    proof {
        if let Ok(record) = record_bytes(zero@, zero@, 0, empty@) {
            assert(out@ =~= record);
        }
    }
    let mut i: usize = 0;
    while i < records.len()
        invariant
            i <= records@.len(),
            v == views(records@),
            records_bytes(v.take(i as int)) == Ok::<Seq<u8>, Seq<char>>(out@),
        decreases records@.len() - i,
    {
        proof {
            assert(v.take(i + 1).drop_last() =~= v.take(i as int));
            assert(v[i as int] == records@[i as int]@);
            if records_bytes(v.take(i + 1)) is Err {
                lemma_records_bytes_err(v, i + 1);
            }
        }
        let record = &records[i];
        if let Err(e) = append_res_record(
            &mut out,
            &record.kind,
            &record.name,
            record.language,
            record.data.as_slice(),
        ) {
            return Err(e);
        }
        i += 1;
    }
    assert(v.take(v.len() as int) =~= v);
    Ok(out)
}

// ---------------------------------------------------------------------------
// The resources of an image
// ---------------------------------------------------------------------------

pub open spec fn named(name: Seq<char>) -> spec_fn(SectionView) -> bool {
    |s: SectionView| s.name == name
}

/// The resource file of an image and the number of its resources. There is none
/// where the image has no resource section, or where the section is mapped in
/// the model and so emitted as data.
pub open spec fn resource_file(model: IdaModel, image: Seq<SectionView>) -> Result<
    Option<(Seq<u8>, nat)>,
    Seq<char>,
> {
    match first(image, named(".rsrc"@)) {
        None => Ok(None),
        Some(section) => if first(model.sections@, holds(section.va)) is Some {
            Ok(None)
        } else {
            match visited(image, section.data, 0, 0, Seq::empty()) {
                Err(e) => Err(e),
                Ok(records) => match records_bytes(stable_sort(records)) {
                    Err(e) => Err(e),
                    Ok(bytes) => Ok(Some((bytes, records.len()))),
                },
            }
        },
    }
}

pub open spec fn file_view(r: Option<(Vec<u8>, usize)>) -> Option<(Seq<u8>, nat)> {
    match r {
        Some((bytes, count)) => Some((bytes@, count as nat)),
        None => None,
    }
}

fn find_named<'a>(pe: &'a PeImage, name: &str) -> (r: Option<&'a PeSection>)
    ensures
        match r {
            Some(s) => first(pe.spec_sections(), named(name@)) == Some(s@),
            None => first(pe.spec_sections(), named(name@)) is None,
        },
{
    let ghost v = pe.spec_sections();
    let mut i: usize = 0;
    while i < pe.sections.len()
        invariant
            i <= pe.sections@.len(),
            v == pe.spec_sections(),
            forall|k: int| 0 <= k < i ==> (#[trigger] v[k]).name != name@,
        decreases pe.sections@.len() - i,
    {
        assert(v[i as int] == pe.sections@[i as int]@);
        if same_text(pe.sections[i].name.as_str(), name) {
            proof {
                lemma_first_index_is(v, named(name@), i as int);
            }
            return Some(&pe.sections[i]);
        }
        i += 1;
    }
    proof {
        lemma_first_index_none(v, named(name@));
    }
    None
}

/// Extract PE resources into a standard `.res` file that MSVC link.exe can
/// embed. Resource payloads are emitted in original RVA order. Gives the bytes
/// of the file and the number of resources, or `None` where there is no file to
/// write.
pub fn emit_pe_resources(model: &IdaModel, pe: &PeImage) -> (r: Result<
    Option<(Vec<u8>, usize)>,
    Error,
>)
    ensures
        match r {
            Ok(file) => resource_file(*model, pe.spec_sections()) == Ok::<
                Option<(Seq<u8>, nat)>,
                Seq<char>,
            >(file_view(file)),
            Err(e) => resource_file(*model, pe.spec_sections()) == Err::<
                Option<(Seq<u8>, nat)>,
                Seq<char>,
            >(e@),
        },
{
    let section = match find_named(pe, ".rsrc") {
        Some(section) => section,
        None => {
            return Ok(None);
        },
    };
    if model.section_for(section.va).is_some() {
        return Ok(None);
    }
    let ids: Vec<ResourceId> = Vec::new();
    assert(views(ids@) =~= Seq::<ResourceIdView>::empty());
    let records = match visit(pe, section.data.as_slice(), 0, 0, &ids) {
        Ok(records) => records,
        Err(e) => {
            return Err(e);
        },
    };
    let ghost found = records@;
    let sorted = sort_stably(records);
    proof {
        assert(views_keep_keys::<ResourceRecord>());
        lemma_sort_views(found);
        crate::sorting::lemma_stable_sort_keeps_elements(found);
        assert(sorted@.to_multiset().len() == found.to_multiset().len());
        sorted@.to_multiset_ensures();
        found.to_multiset_ensures();
    }
    match write_records(&sorted) {
        Ok(bytes) => {
            let count: usize = sorted.len();
            Ok(Some((bytes, count)))
        },
        Err(e) => Err(e),
    }
}

// ---------------------------------------------------------------------------
// Laws
// ---------------------------------------------------------------------------

/// The records of a file come in the order of the addresses of their payloads.
pub proof fn lemma_records_in_payload_order(records: Seq<RecordView>, i: int, j: int)
    requires
        0 <= i <= j < stable_sort(records).len(),
    ensures
        stable_sort(records)[i].rva <= stable_sort(records)[j].rva,
{
    lemma_stable_sort_orders(records);
    let s = stable_sort(records);
    assert(s[i].spec_key() <= s[j].spec_key());
}

/// A record says how long its payload and its header are, holds the payload
/// behind the header, and ends at a multiple of four.
pub proof fn lemma_record_holds_payload(
    kind: ResourceIdView,
    name: ResourceIdView,
    language: u16,
    data: Seq<u8>,
)
    requires
        record_bytes(kind, name, language, data) is Ok,
    ensures
        ({
            let record = record_bytes(kind, name, language, data)->Ok_0;
            let header = header_size(kind, name);
            &&& le32(record, 0) == data.len()
            &&& le32(record, 4) == header
            &&& header + data.len() <= record.len()
            &&& record.subrange(header, (header + data.len()) as int) == data
            &&& header % 4 == 0
            &&& record.len() % 4 == 0
        }),
{
    let pad = fill(data.len() as int);
    let header = record_header(kind, name, language, data.len() as int);
    lemma_header_sizes(kind, name, language, data.len() as int);
    lemma_filled(data, data + pad);
    lemma_between(header, data, pad);
}

proof fn lemma_header_sizes(kind: ResourceIdView, name: ResourceIdView, language: u16, len: int)
    requires
        0 <= len <= u32::MAX,
        header_size(kind, name) <= u32::MAX,
    ensures
        ({
            let header = record_header(kind, name, language, len);
            &&& le32(header, 0) == len
            &&& le32(header, 4) == header_size(kind, name)
            &&& header.len() == header_size(kind, name)
            &&& header.len() % 4 == 0
        }),
{
    let ids = ids_bytes(kind, name);
    let size = header_size(kind, name);
    let language = le16_bytes(language as int);
    lemma_filled(id_bytes(kind) + id_bytes(name), ids);
    assert(le32_bytes(0).len() == 4 && le16_bytes(0).len() == 2 && language.len() == 2);
    let rest = le32_bytes(0) + le16_bytes(0) + language + le32_bytes(0) + le32_bytes(0);
    lemma_two_fields(len, size, ids + rest);
    assert((le32_bytes(len) + le32_bytes(size) + (ids + rest)).len() == size);
    reveal(record_header);
    lemma_header_parts(
        (le32_bytes(len), le32_bytes(size), ids),
        (le32_bytes(0), le16_bytes(0), language, le32_bytes(0), le32_bytes(0)),
    );
}

proof fn lemma_header_parts(
    a: (Seq<u8>, Seq<u8>, Seq<u8>),
    b: (Seq<u8>, Seq<u8>, Seq<u8>, Seq<u8>, Seq<u8>),
)
    ensures
        a.0 + a.1 + a.2 + b.0 + b.1 + b.2 + b.3 + b.4 == a.0 + a.1 + (a.2 + (b.0 + b.1 + b.2 + b.3
            + b.4)),
{
    let head = a.0 + a.1;
    lemma_joined(head + a.2, b.0, b.1);
    lemma_joined(head + a.2, b.0 + b.1, b.2);
    lemma_joined(head + a.2, b.0 + b.1 + b.2, b.3);
    lemma_joined(head + a.2, b.0 + b.1 + b.2 + b.3, b.4);
    lemma_joined(head, a.2, b.0 + b.1 + b.2 + b.3 + b.4);
}

proof fn lemma_joined(a: Seq<u8>, b: Seq<u8>, c: Seq<u8>)
    ensures
        a + (b + c) == a + b + c,
{
    assert(a + (b + c) =~= a + b + c);
}

proof fn lemma_between(a: Seq<u8>, b: Seq<u8>, c: Seq<u8>)
    ensures
        (a + b + c).subrange(a.len() as int, (a.len() + b.len()) as int) == b,
{
    assert((a + b + c).subrange(a.len() as int, (a.len() + b.len()) as int) =~= b);
}

proof fn lemma_filled(part: Seq<u8>, filled: Seq<u8>)
    requires
        filled == part + fill(part.len() as int),
    ensures
        filled.len() % 4 == 0,
        filled.len() == part.len() + fill(part.len() as int).len(),
{
}

proof fn lemma_two_fields(a: int, b: int, rest: Seq<u8>)
    requires
        0 <= a <= u32::MAX,
        0 <= b <= u32::MAX,
    ensures
        le32(le32_bytes(a) + le32_bytes(b) + rest, 0) == a,
        le32(le32_bytes(a) + le32_bytes(b) + rest, 4) == b,
{
    let s = le32_bytes(a) + le32_bytes(b) + rest;
    lemma_le32_round_trip(a);
    lemma_le32_round_trip(b);
    assert(s.subrange(0, 4) =~= le32_bytes(a));
    assert(s.subrange(4, 8) =~= le32_bytes(b));
    lemma_le32_subrange(s, 0);
    lemma_le32_subrange(s, 4);
}

} // verus!
