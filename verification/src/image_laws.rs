//! What a loaded image is, in terms of the file that it was loaded from.

use crate::bytes::{le16, le32, le64, wrap64};
use crate::fixup_laws::value_of;
use crate::pe::{
    base_relocs, has_rva, image_bytes, named, pe_header, pe_section_at, pe_section_list, pe_sections,
    reloc_blocks, reloc_entries, xbe_header, xbe_image, xbe_section_list, BaseReloc, BaseRelocKind,
    PeArch, SectionView,
};
use crate::seqs::{first, lemma_first_index_is};
use vstd::prelude::*;

verus! {

// ---------------------------------------------------------------------------
// The base-relocation table
// ---------------------------------------------------------------------------

/// A block of a base-relocation table: entries for one page.
pub struct RelocBlock {
    pub page: u32,
    pub entries: Seq<u16>,
}

pub open spec fn u32_bytes(n: int) -> Seq<u8> {
    seq![
        (n % 0x100) as u8,
        (n / 0x100 % 0x100) as u8,
        (n / 0x1_0000 % 0x100) as u8,
        (n / 0x100_0000 % 0x100) as u8,
    ]
}

/// Entries as a file stores them, the low byte of each first.
pub open spec fn entries_bytes(entries: Seq<u16>) -> Seq<u8> {
    Seq::new(
        2 * entries.len(),
        |i: int|
            if i % 2 == 0 {
                (entries[i / 2] % 0x100) as u8
            } else {
                (entries[i / 2] / 0x100) as u8
            },
    )
}

/// A block as a file stores it: the page, the size of the block, the entries.
pub open spec fn block_bytes(b: RelocBlock) -> Seq<u8> {
    u32_bytes(b.page as int) + u32_bytes(8 + 2 * b.entries.len() as int) + entries_bytes(b.entries)
}

/// Blocks as a file stores them, one behind the other.
pub open spec fn table_bytes(blocks: Seq<RelocBlock>) -> Seq<u8>
    decreases blocks.len(),
{
    if blocks.len() == 0 {
        Seq::empty()
    } else {
        block_bytes(blocks[0]) + table_bytes(blocks.skip(1))
    }
}

/// What an entry says: the type in the high four bits, of which zero is padding,
/// and the place in the page in the low twelve.
pub open spec fn entry_reloc(base: u64, page: u32, entry: u16) -> Option<BaseReloc> {
    let va = wrap64(base + page + entry % 0x1000) as u64;
    match entry / 0x1000 {
        0 => None,
        3 => Some(BaseReloc { va, kind: BaseRelocKind::HighLow }),
        10 => Some(BaseReloc { va, kind: BaseRelocKind::Dir64 }),
        t => Some(BaseReloc { va, kind: BaseRelocKind::Other(t as u8) }),
    }
}

/// What the entries of a page say, in order.
pub open spec fn page_relocs(base: u64, page: u32, entries: Seq<u16>) -> Seq<BaseReloc>
    decreases entries.len(),
{
    if entries.len() == 0 {
        Seq::empty()
    } else {
        let rest = page_relocs(base, page, entries.skip(1));
        match entry_reloc(base, page, entries[0]) {
            Some(r) => seq![r] + rest,
            None => rest,
        }
    }
}

/// What the blocks say, in order.
pub open spec fn table_relocs(base: u64, blocks: Seq<RelocBlock>) -> Seq<BaseReloc>
    decreases blocks.len(),
{
    if blocks.len() == 0 {
        Seq::empty()
    } else {
        page_relocs(base, blocks[0].page, blocks[0].entries) + table_relocs(base, blocks.skip(1))
    }
}

/// Blocks whose size fits in its field.
pub open spec fn blocks_fit(blocks: Seq<RelocBlock>) -> bool {
    forall|i: int| 0 <= i < blocks.len() ==> 8 + 2 * (#[trigger] blocks[i]).entries.len() <= u32::MAX
}

/// Whether no block begins with these bytes: they are too few, or the size is
/// less than that of a block's header or reaches behind them.
pub open spec fn no_block(tail: Seq<u8>) -> bool {
    tail.len() < 8 || le32(tail, 4) < 8 || le32(tail, 4) > tail.len()
}

proof fn lemma_u32_bytes(n: int)
    requires
        0 <= n <= u32::MAX,
    ensures
        le32(u32_bytes(n), 0) == n,
{
    assert(n == n % 0x100 + 0x100 * (n / 0x100 % 0x100) + 0x1_0000 * (n / 0x1_0000 % 0x100)
        + 0x100_0000 * (n / 0x100_0000 % 0x100));
}

proof fn lemma_entries(d: Seq<u8>, from: int, entries: Seq<u16>, page: u32, base: u64)
    requires
        0 <= from,
        forall|i: int|
            0 <= i < entries.len() ==> le16(d, from + 2 * i) == #[trigger] entries[i],
    ensures
        reloc_entries(d, from, from + 2 * entries.len(), page as int, base as int) == page_relocs(
            base,
            page,
            entries,
        ),
    decreases entries.len(),
{
    if entries.len() > 0 {
        let rest = entries.skip(1);
        assert forall|i: int| 0 <= i < rest.len() implies le16(d, from + 2 + 2 * i)
            == #[trigger] rest[i] by {
            assert(le16(d, from + 2 * (i + 1)) == entries[i + 1]);
        }
        lemma_entries(d, from + 2, rest, page, base);
        assert(le16(d, from + 2 * 0) == entries[0]);
    }
}

proof fn lemma_blocks(d: Seq<u8>, off: int, blocks: Seq<RelocBlock>, tail: Seq<u8>, base: u64)
    requires
        0 <= off <= d.len(),
        blocks_fit(blocks),
        no_block(tail),
        d.skip(off) == table_bytes(blocks) + tail,
    ensures
        reloc_blocks(d, off, base as int) == table_relocs(base, blocks),
    decreases blocks.len(),
{
    let here = d.skip(off);
    if blocks.len() == 0 {
        assert(here =~= tail);
        if tail.len() >= 8 {
            assert(le32(tail, 4) == le32(d, off + 4));
        }
    } else {
        let b = blocks[0];
        let n = b.entries.len() as int;
        let size = 8 + 2 * n;
        let rest = blocks.skip(1);
        assert(blocks_fit(rest)) by {
            assert forall|i: int| 0 <= i < rest.len() implies 8 + 2 * (
            #[trigger] rest[i]).entries.len() <= u32::MAX by {
                assert(rest[i] == blocks[i + 1]);
            }
        }
        let first = block_bytes(b);
        assert(here.len() == d.len() - off);
        assert(first.len() == size);
        assert forall|i: int| 0 <= i < size implies d[off + i] == #[trigger] first[i] by {
            assert(here[i] == first[i]);
        }
        lemma_u32_bytes(b.page as int);
        lemma_u32_bytes(size);
        assert forall|i: int| 0 <= i < 4 implies d[off + i] == #[trigger] u32_bytes(
            b.page as int,
        )[i] by {
            assert(first[i] == u32_bytes(b.page as int)[i]);
        }
        assert forall|i: int| 0 <= i < 4 implies d[off + 4 + i] == #[trigger] u32_bytes(
            size,
        )[i] by {
            assert(first[4 + i] == u32_bytes(size)[i]);
        }
        assert(le32(d, off) == le32(u32_bytes(b.page as int), 0));
        assert(le32(d, off + 4) == le32(u32_bytes(size), 0));
        assert forall|i: int| 0 <= i < n implies le16(d, off + 8 + 2 * i)
            == #[trigger] b.entries[i] by {
            let bytes = entries_bytes(b.entries);
            assert(first[8 + 2 * i] == bytes[2 * i]);
            assert(first[8 + 2 * i + 1] == bytes[2 * i + 1]);
            assert((2 * i) / 2 == i && (2 * i) % 2 == 0 && (2 * i + 1) / 2 == i && (2 * i + 1) % 2
                == 1);
        }
        lemma_entries(d, off + 8, b.entries, b.page, base);
        assert(d.skip(off + size) =~= here.skip(size));
        assert(here.skip(size) =~= table_bytes(rest) + tail);
        lemma_blocks(d, off + size, rest, tail, base);
    }
}

/// The base relocations of an image are what the blocks of its `.reloc` section
/// say, block after block and entry after entry, whatever stands behind the
/// blocks that is none.
pub proof fn lemma_every_block_is_read(
    sections: Seq<SectionView>,
    base: u64,
    s: int,
    blocks: Seq<RelocBlock>,
    tail: Seq<u8>,
)
    requires
        0 <= s < sections.len(),
        sections[s].name == ".reloc"@,
        forall|j: int| 0 <= j < s ==> (#[trigger] sections[j]).name != ".reloc"@,
        blocks_fit(blocks),
        no_block(tail),
        sections[s].data == table_bytes(blocks) + tail,
    ensures
        base_relocs(sections, base) == table_relocs(base, blocks),
{
    lemma_first_index_is(sections, named(".reloc"@), s);
    assert(first(sections, named(".reloc"@)) == Some(sections[s]));
    let d = sections[s].data;
    assert(d.skip(0) =~= d);
    lemma_blocks(d, 0, blocks, tail, base);
}

proof fn lemma_page_entry(base: u64, page: u32, entries: Seq<u16>, e: int)
    requires
        0 <= e < entries.len(),
    ensures
        entry_reloc(base, page, entries[e]) matches Some(r) ==> page_relocs(
            base,
            page,
            entries,
        ).contains(r),
    decreases entries.len(),
{
    let all = page_relocs(base, page, entries);
    let rest = page_relocs(base, page, entries.skip(1));
    if let Some(r) = entry_reloc(base, page, entries[e]) {
        if e == 0 {
            assert(all[0] == r);
        } else {
            lemma_page_entry(base, page, entries.skip(1), e - 1);
            assert(entries.skip(1)[e - 1] == entries[e]);
            let k = choose|k: int| 0 <= k < rest.len() && rest[k] == r;
            assert(all[k + all.len() - rest.len()] == r);
        }
    }
}

/// Every entry of every block that is no padding is a base relocation, at the
/// image's base, its page and its place in the page.
pub proof fn lemma_every_entry_is_read(base: u64, blocks: Seq<RelocBlock>, b: int, e: int)
    requires
        0 <= b < blocks.len(),
        0 <= e < blocks[b].entries.len(),
    ensures
        entry_reloc(base, blocks[b].page, blocks[b].entries[e]) matches Some(r) ==> table_relocs(
            base,
            blocks,
        ).contains(r),
    decreases blocks.len(),
{
    let all = table_relocs(base, blocks);
    let head = page_relocs(base, blocks[0].page, blocks[0].entries);
    let rest = table_relocs(base, blocks.skip(1));
    if let Some(r) = entry_reloc(base, blocks[b].page, blocks[b].entries[e]) {
        if b == 0 {
            lemma_page_entry(base, blocks[0].page, blocks[0].entries, e);
            let k = choose|k: int| 0 <= k < head.len() && head[k] == r;
            assert(all[k] == r);
        } else {
            lemma_every_entry_is_read(base, blocks.skip(1), b - 1, e);
            let k = choose|k: int| 0 <= k < rest.len() && rest[k] == r;
            assert(all[head.len() + k] == r);
        }
    }
}

// ---------------------------------------------------------------------------
// Sections
// ---------------------------------------------------------------------------

/// The number in the `n` bytes of a file at `off`, low byte first.
pub open spec fn field(d: Seq<u8>, off: int, n: nat) -> int {
    value_of(d.skip(off), n)
}

pub(crate) proof fn lemma_field(d: Seq<u8>, off: int)
    requires
        0 <= off,
    ensures
        off + 2 <= d.len() ==> field(d, off, 2) == le16(d, off),
        off + 4 <= d.len() ==> field(d, off, 4) == le32(d, off),
        off + 8 <= d.len() ==> field(d, off, 8) == le64(d, off),
{
    reveal_with_fuel(value_of, 9);
    let s0 = d.skip(off);
    let s1 = s0.skip(1);
    let s2 = s1.skip(1);
    let s3 = s2.skip(1);
    let s4 = s3.skip(1);
    let s5 = s4.skip(1);
    let s6 = s5.skip(1);
    let s7 = s6.skip(1);
    if off + 2 <= d.len() {
        assert(s0[0] == d[off] && s1[0] == d[off + 1]);
    }
    if off + 4 <= d.len() {
        assert(s2[0] == d[off + 2] && s3[0] == d[off + 3]);
    }
    if off + 8 <= d.len() {
        assert(s4[0] == d[off + 4] && s5[0] == d[off + 5] && s6[0] == d[off + 6] && s7[0] == d[off
            + 7]);
    }
}

/// Whether a section's data are the `size` bytes of the file at `raw`, and zeros
/// from there on to the end of its virtual range.
pub open spec fn is_backed(s: SectionView, d: Seq<u8>, raw: int, size: int) -> bool {
    &&& s.data.len() >= s.virtual_size
    &&& s.data.len() == size || s.data.len() == s.virtual_size
    &&& size <= s.data.len()
    &&& forall|k: int| 0 <= k < size ==> #[trigger] s.data[k] == d[raw + k]
    &&& forall|k: int| size <= k < s.data.len() ==> #[trigger] s.data[k] == 0
}

/// Where the parts of a PE file are: the header of the file, the optional header,
/// and the headers of the sections.
pub open spec fn file_header(d: Seq<u8>) -> int {
    field(d, 0x3c, 4) + 4
}

pub open spec fn optional_header(d: Seq<u8>) -> int {
    file_header(d) + 20
}

pub open spec fn section_header(d: Seq<u8>, i: int) -> int {
    optional_header(d) + field(d, file_header(d) + 16, 2) + 40 * i
}

/// Whether a file is a PE image for x86 or x86-64 whose headers it holds.
pub open spec fn is_pe(d: Seq<u8>) -> bool {
    &&& d.len() >= 0x40
    &&& d[0] == 0x4d && d[1] == 0x5a
    &&& optional_header(d) + 32 <= d.len()
    &&& field(d, file_header(d) - 4, 4) == 0x4550
    &&& field(d, file_header(d), 2) == 0x8664 || field(d, file_header(d), 2) == 0x014c
    &&& field(d, optional_header(d), 2) == 0x20b || field(d, optional_header(d), 2) == 0x10b
    &&& section_header(d, field(d, file_header(d) + 2, 2)) <= d.len()
}

/// The raw bytes of a section: how many there are, none where it has no place.
pub open spec fn raw_size(d: Seq<u8>, h: int) -> int {
    if field(d, h + 20, 4) == 0 {
        0
    } else {
        field(d, h + 16, 4)
    }
}

/// Whether a section is what the header at `h` describes.
pub open spec fn is_described(s: SectionView, d: Seq<u8>, base: u64, h: int) -> bool {
    &&& s.rva == field(d, h + 12, 4)
    &&& s.va == wrap64(base + field(d, h + 12, 4))
    &&& s.virtual_size == field(d, h + 8, 4)
    &&& s.characteristics == field(d, h + 36, 4)
    &&& is_backed(s, d, field(d, h + 20, 4), raw_size(d, h))
}

proof fn lemma_pe_section(d: Seq<u8>, base: u64, h: int)
    requires
        0 <= h,
        h + 40 <= d.len(),
    ensures
        pe_section_at(d, base, h) is Ok <==> field(d, h + 20, 4) + raw_size(d, h) <= d.len()
            || raw_size(d, h) == 0,
        pe_section_at(d, base, h) matches Ok(s) ==> is_described(s, d, base, h),
{
    lemma_field(d, h + 8);
    lemma_field(d, h + 12);
    lemma_field(d, h + 16);
    lemma_field(d, h + 20);
    lemma_field(d, h + 36);
    if let Ok(s) = pe_section_at(d, base, h) {
        let raw = le32(d, h + 20);
        let size = raw_size(d, h);
        let bytes = if size == 0 {
            Seq::<u8>::empty()
        } else {
            d.subrange(raw, raw + size)
        };
        assert(s == crate::pe::pe_section(d, base, h, s.name, bytes));
        assert(bytes.len() == size);
        assert(is_backed(s, d, raw, size));
    }
}

proof fn lemma_pe_section_list(d: Seq<u8>, base: u64, table: int, n: nat)
    requires
        0 <= table,
        table + 40 * n <= d.len(),
    ensures
        pe_section_list(d, base, table, n) is Ok <==> forall|i: int|
            0 <= i < n ==> field(d, #[trigger] (table + 40 * i) + 20, 4) + raw_size(
                d,
                table + 40 * i,
            ) <= d.len() || raw_size(d, table + 40 * i) == 0,
        pe_section_list(d, base, table, n) matches Ok(sections) ==> sections.len() == n
            && forall|i: int|
            0 <= i < n ==> is_described(#[trigger] sections[i], d, base, table + 40 * i),
    decreases n,
{
    if n > 0 {
        let m = (n - 1) as nat;
        lemma_pe_section_list(d, base, table, m);
        let h = table + 40 * m;
        assert(table + m * 40 == h);
        lemma_pe_section(d, base, h);
        let ok = |i: int|
            field(d, (table + 40 * i) + 20, 4) + raw_size(d, table + 40 * i) <= d.len() || raw_size(
                d,
                table + 40 * i,
            ) == 0;
        if pe_section_list(d, base, table, n) is Ok {
            assert forall|i: int| 0 <= i < n implies field(d, #[trigger] (table + 40 * i) + 20, 4)
                + raw_size(d, table + 40 * i) <= d.len() || raw_size(d, table + 40 * i) == 0 by {
                if i < m {
                    assert(ok(i));
                }
            }
        }
        if forall|i: int|
            0 <= i < n ==> field(d, #[trigger] (table + 40 * i) + 20, 4) + raw_size(
                d,
                table + 40 * i,
            ) <= d.len() || raw_size(d, table + 40 * i) == 0 {
            assert(field(d, (table + 40 * m) + 20, 4) + raw_size(d, table + 40 * m) <= d.len()
                || raw_size(d, table + 40 * m) == 0);
        }
    }
}

/// A PE image is loaded where its file holds the raw bytes of every section, and
/// then has the architecture and the base of its headers, and a section for each
/// section header: the addresses and sizes of the header, and the raw bytes with
/// zeros behind them.
pub proof fn lemma_pe_image_is_that_of_the_file(d: Seq<u8>)
    requires
        is_pe(d),
    ensures
        pe_sections(d) is Ok <==> forall|i: int|
            0 <= i < field(d, file_header(d) + 2, 2) ==> field(
                d,
                #[trigger] section_header(d, i) + 20,
                4,
            ) + raw_size(d, section_header(d, i)) <= d.len() || raw_size(d, section_header(d, i))
                == 0,
        pe_sections(d) matches Ok((arch, base, sections)) ==> {
            &&& arch == if field(d, file_header(d), 2) == 0x8664 {
                PeArch::X86_64
            } else {
                PeArch::X86
            }
            &&& base == if field(d, optional_header(d), 2) == 0x20b {
                field(d, optional_header(d) + 24, 8)
            } else {
                field(d, optional_header(d) + 28, 4)
            }
            &&& sections.len() == field(d, file_header(d) + 2, 2)
            &&& forall|i: int|
                0 <= i < sections.len() ==> is_described(
                    #[trigger] sections[i],
                    d,
                    base,
                    section_header(d, i),
                )
        },
{
    lemma_field(d, 0x3c);
    let coff = file_header(d);
    let opt = optional_header(d);
    assert(coff >= 4);
    lemma_field(d, coff - 4);
    lemma_field(d, coff);
    lemma_field(d, coff + 2);
    lemma_field(d, coff + 16);
    lemma_field(d, opt);
    lemma_field(d, opt + 24);
    lemma_field(d, opt + 28);
    let table = section_header(d, 0);
    let count = field(d, coff + 2, 2);
    assert(section_header(d, count) == table + 40 * count);
    assert(pe_header(d) is Ok);
    let base = if le16(d, opt) == 0x20b {
        le64(d, opt + 24) as u64
    } else {
        le32(d, opt + 28) as u64
    };
    lemma_pe_section_list(d, base, table, count as nat);
    assert forall|i: int| #[trigger] section_header(d, i) == table + 40 * i by {}
    if pe_sections(d) is Ok {
        assert forall|i: int| 0 <= i < count implies field(
            d,
            #[trigger] section_header(d, i) + 20,
            4,
        ) + raw_size(d, section_header(d, i)) <= d.len() || raw_size(d, section_header(d, i))
            == 0 by {
            let h = table + 40 * i;
        }
    }
    if forall|i: int|
        0 <= i < count ==> field(d, #[trigger] section_header(d, i) + 20, 4) + raw_size(
            d,
            section_header(d, i),
        ) <= d.len() || raw_size(d, section_header(d, i)) == 0 {
        assert forall|i: int| 0 <= i < count implies field(d, #[trigger] (table + 40 * i) + 20, 4)
            + raw_size(d, table + 40 * i) <= d.len() || raw_size(d, table + 40 * i) == 0 by {
            assert(section_header(d, i) == table + 40 * i);
        }
    }
}

/// The section of a PE image has the name in its header where that is ASCII: the
/// characters before the zeros that fill it up.
pub proof fn lemma_ascii_section_names(d: Seq<u8>, base: u64, h: int, name: Seq<char>)
    requires
        0 <= h,
        h + 40 <= d.len(),
        name.len() <= 8,
        vstd::utf8::is_ascii_chars(name),
        forall|i: int| 0 <= i < name.len() ==> #[trigger] name[i] != '\0',
        forall|i: int| 0 <= i < name.len() ==> d[h + i] == #[trigger] name[i] as u8,
        forall|i: int| name.len() <= i < 8 ==> #[trigger] d[h + i] == 0,
    ensures
        pe_section_at(d, base, h) matches Ok(s) ==> s.name == name,
{
    let bytes = d.subrange(h, h + 8);
    let text = Seq::new(
        8,
        |i: int|
            if i < name.len() {
                name[i]
            } else {
                '\0'
            },
    );
    assert(vstd::utf8::is_ascii_chars(text));
    assert forall|i: int| 0 <= i < text.len() implies bytes[i] == #[trigger] text[i] as u8 by {
        if i < name.len() {
            assert(d[h + i] == name[i] as u8);
        } else {
            assert(d[h + i] == 0);
        }
    }
    crate::text::lemma_ascii_text(bytes, text);
    assert(text.take(name.len() as int) =~= name);
    lemma_trimmed(text, name);
}

proof fn lemma_trimmed(text: Seq<char>, name: Seq<char>)
    requires
        name.len() <= text.len(),
        text.take(name.len() as int) == name,
        name.len() > 0 ==> name.last() != '\0',
        forall|i: int| name.len() <= i < text.len() ==> #[trigger] text[i] == '\0',
    ensures
        crate::text::trim_end(text, '\0') == name,
    decreases text.len(),
{
    if text.len() > name.len() {
        let init = text.drop_last();
        assert(text[text.len() - 1] == '\0');
        assert(init.take(name.len() as int) =~= text.take(name.len() as int));
        assert forall|i: int| name.len() <= i < init.len() implies #[trigger] init[i] == '\0' by {
            assert(init[i] == text[i]);
        }
        lemma_trimmed(init, name);
    } else {
        assert(text =~= name);
    }
}

/// What an image gives at an address is what its first section there has: that
/// section's data, from the address on, where they reach far enough.
pub proof fn lemma_image_reads_its_sections(
    sections: Seq<SectionView>,
    rva: u64,
    len: int,
    s: int,
)
    requires
        0 <= len,
        0 <= s < sections.len(),
        sections[s].rva + sections[s].virtual_size <= u64::MAX,
        sections[s].rva <= rva < sections[s].rva + sections[s].virtual_size,
        forall|j: int|
            0 <= j < s ==> (#[trigger] sections[j]).rva + sections[j].virtual_size <= u64::MAX && !(
            sections[j].rva <= rva < sections[j].rva + sections[j].virtual_size),
    ensures
        ({
            let data = sections[s].data;
            let off = rva - sections[s].rva;
            match image_bytes(sections, rva, len) {
                Some(bytes) => off + len <= data.len() && bytes.len() == len && forall|k: int|
                    0 <= k < len ==> #[trigger] bytes[k] == data[off + k],
                None => off + len > data.len(),
            }
        }),
{
    lemma_first_index_is(sections, has_rva(rva), s);
}

/// An image gives nothing at an address of no section.
pub proof fn lemma_image_has_nothing_elsewhere(sections: Seq<SectionView>, rva: u64, len: int)
    requires
        forall|j: int|
            0 <= j < sections.len() ==> (#[trigger] sections[j]).rva + sections[j].virtual_size
                <= u64::MAX && !(sections[j].rva <= rva < sections[j].rva
                + sections[j].virtual_size),
    ensures
        image_bytes(sections, rva, len) is None,
{
    crate::seqs::lemma_first_index_none(sections, has_rva(rva));
}

// ---------------------------------------------------------------------------
// XBE images
// ---------------------------------------------------------------------------

/// Whether a section is what the XBE section header at `h` describes.
pub open spec fn is_xbe_described(s: SectionView, d: Seq<u8>, base: int, h: int) -> bool {
    &&& s.va == field(d, h + 4, 4)
    &&& s.rva == s.va - base
    &&& s.virtual_size == field(d, h + 8, 4)
    &&& is_backed(s, d, field(d, h + 12, 4), field(d, h + 16, 4))
}

proof fn lemma_xbe_sections(d: Seq<u8>, header: crate::pe::XbeHeader, n: nat)
    requires
        header.table + 0x38 * n <= d.len(),
    ensures
        xbe_section_list(d, header, n) matches Ok(sections) ==> sections.len() == n && forall|i: int|
            0 <= i < n ==> is_xbe_described(
                #[trigger] sections[i],
                d,
                header.base as int,
                header.table + 0x38 * i,
            ),
    decreases n,
{
    if n > 0 {
        let m = (n - 1) as nat;
        lemma_xbe_sections(d, header, m);
        let h = header.table + 0x38 * m;
        assert(header.table + m * 0x38 == h);
        lemma_field(d, h + 4);
        lemma_field(d, h + 8);
        lemma_field(d, h + 12);
        lemma_field(d, h + 16);
        if xbe_section_list(d, header, n) is Ok {
            let before = xbe_section_list(d, header, m)->Ok_0;
            let s = crate::pe::xbe_section(d, header, before, m as int)->Ok_0;
            let raw = le32(d, h + 12);
            let size = le32(d, h + 16);
            assert(d.subrange(raw, raw + size).len() == size);
            assert(is_backed(s, d, raw, size));
        }
    }
}

/// An XBE image that is loaded has the base of its header, and a section for each
/// section header: the addresses and sizes of the header, and the raw bytes with
/// zeros behind them.
pub proof fn lemma_xbe_image_is_that_of_the_file(d: Seq<u8>)
    ensures
        xbe_image(d) matches Ok((base, sections)) ==> {
            &&& base == field(d, 0x104, 4)
            &&& sections.len() == field(d, 0x11c, 4)
            &&& forall|i: int|
                0 <= i < sections.len() ==> is_xbe_described(
                    #[trigger] sections[i],
                    d,
                    base as int,
                    field(d, 0x120, 4) - base + 0x38 * i,
                )
        },
{
    if xbe_image(d) is Ok {
        let header = xbe_header(d)->Ok_0;
        lemma_field(d, 0x104);
        lemma_field(d, 0x11c);
        lemma_field(d, 0x120);
        assert(header.count * 0x38 == 0x38 * header.count);
        lemma_xbe_sections(d, header, header.count as nat);
    }
}

/// Whether an XBE section lies in the image and the file holds its raw bytes.
pub open spec fn xbe_section_fits(d: Seq<u8>, h: int) -> bool {
    let base = field(d, 0x104, 4);
    let size = field(d, 0x10c, 4);
    let va = field(d, h + 4, 4);
    &&& base <= va
    &&& size == 0 || va + field(d, h + 8, 4) <= base + size
    &&& field(d, h + 12, 4) + field(d, h + 16, 4) <= d.len()
}

/// Where the header of an XBE section is.
pub open spec fn xbe_section_header(d: Seq<u8>, i: int) -> int {
    field(d, 0x120, 4) - field(d, 0x104, 4) + 0x38 * i
}

proof fn lemma_xbe_sections_fit(d: Seq<u8>, header: crate::pe::XbeHeader, n: nat)
    requires
        xbe_header(d) == Ok::<crate::pe::XbeHeader, Seq<char>>(header),
        n <= header.count,
    ensures
        xbe_section_list(d, header, n) is Ok <==> forall|i: int|
            0 <= i < n ==> xbe_section_fits(d, #[trigger] xbe_section_header(d, i)),
    decreases n,
{
    if n > 0 {
        let m = (n - 1) as nat;
        lemma_xbe_sections_fit(d, header, m);
        lemma_field(d, 0x104);
        lemma_field(d, 0x10c);
        lemma_field(d, 0x120);
        let h = xbe_section_header(d, m as int);
        assert(header.table + m * 0x38 == h);
        assert(0x38 * n <= 0x38 * header.count);
        assert(h + 0x38 <= d.len());
        lemma_field(d, h + 4);
        lemma_field(d, h + 8);
        lemma_field(d, h + 12);
        lemma_field(d, h + 16);
        if forall|i: int| 0 <= i < n ==> xbe_section_fits(d, #[trigger] xbe_section_header(d, i)) {
            assert(xbe_section_fits(d, xbe_section_header(d, m as int)));
        }
    }
}

/// An XBE file with a sound header is loaded where all of its sections lie in the
/// image and the file holds their raw bytes.
pub proof fn lemma_sound_xbe_is_loaded(d: Seq<u8>)
    requires
        d.len() >= 0x178,
        field(d, 0, 4) == 0x48454258,
        field(d, 0x104, 4) > 0,
        field(d, 0x104, 4) <= field(d, 0x120, 4) < field(d, 0x104, 4) + field(d, 0x108, 4),
        xbe_section_header(d, field(d, 0x11c, 4)) <= d.len(),
        xbe_section_header(d, field(d, 0x11c, 4)) <= field(d, 0x108, 4),
    ensures
        xbe_image(d) is Ok <==> forall|i: int|
            0 <= i < field(d, 0x11c, 4) ==> xbe_section_fits(
                d,
                #[trigger] xbe_section_header(d, i),
            ),
{
    lemma_field(d, 0);
    lemma_field(d, 0x104);
    lemma_field(d, 0x108);
    lemma_field(d, 0x10c);
    lemma_field(d, 0x11c);
    lemma_field(d, 0x120);
    assert(xbe_header(d) is Ok);
    let header = xbe_header(d)->Ok_0;
    lemma_xbe_sections_fit(d, header, header.count as nat);
}

} // verus!
