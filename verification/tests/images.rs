use delink::pe::{load_pe_and_pdb, load_pe_image, load_xbe_image, BaseRelocKind, PeArch};
use delink::report::count_dir64;

fn put_u32(bytes: &mut [u8], offset: usize, value: u32) {
    bytes[offset..offset + 4].copy_from_slice(&value.to_le_bytes());
}

#[test]
fn loads_xbe_sections_as_an_x86_image() {
    let base = 0x10000u32;
    let headers_size = 0x400u32;
    let mut bytes = vec![0u8; 0x420];
    bytes[..4].copy_from_slice(b"XBEH");
    put_u32(&mut bytes, 0x104, base);
    put_u32(&mut bytes, 0x108, headers_size);
    put_u32(&mut bytes, 0x10c, 0x30000);
    put_u32(&mut bytes, 0x11c, 2);
    put_u32(&mut bytes, 0x120, base + 0x178);

    bytes[0x200..0x206].copy_from_slice(b".text\0");
    bytes[0x208..0x20e].copy_from_slice(b".data\0");

    // Section 0: executable code with a zero-filled virtual tail.
    put_u32(&mut bytes, 0x178, 0x06);
    put_u32(&mut bytes, 0x17c, base + 0x1000);
    put_u32(&mut bytes, 0x180, 8);
    put_u32(&mut bytes, 0x184, 0x400);
    put_u32(&mut bytes, 0x188, 4);
    put_u32(&mut bytes, 0x18c, base + 0x200);
    bytes[0x400..0x404].copy_from_slice(&[0x55, 0x8b, 0xec, 0xc3]);

    // Section 1: writable data.
    put_u32(&mut bytes, 0x1b0, 0x01);
    put_u32(&mut bytes, 0x1b4, base + 0x2000);
    put_u32(&mut bytes, 0x1b8, 4);
    put_u32(&mut bytes, 0x1bc, 0x410);
    put_u32(&mut bytes, 0x1c0, 4);
    put_u32(&mut bytes, 0x1c4, base + 0x208);
    bytes[0x410..0x414].copy_from_slice(&[1, 2, 3, 4]);

    let image = load_pe_image(&bytes).ok().unwrap();
    assert_eq!(image.arch, PeArch::X86);
    assert_eq!(image.image_base, base as u64);
    assert!(image.base_relocations.is_empty());
    assert_eq!(image.sections[0].name, ".text");
    assert_eq!(image.sections[0].rva, 0x1000);
    assert_eq!(
        image.sections[0].data,
        vec![0x55, 0x8b, 0xec, 0xc3, 0, 0, 0, 0]
    );
    assert_eq!(image.data_at_rva(0x1000, 8).unwrap().len(), 8);
    assert_eq!(image.sections[1].name, ".data");
    assert_eq!(image.data_at_rva(0x2000, 4).unwrap(), &[1, 2, 3, 4]);
}

#[test]
fn rejects_xbe_section_raw_data_outside_file() {
    let base = 0x10000u32;
    let mut bytes = vec![0u8; 0x200];
    bytes[..4].copy_from_slice(b"XBEH");
    put_u32(&mut bytes, 0x104, base);
    put_u32(&mut bytes, 0x108, 0x200);
    put_u32(&mut bytes, 0x10c, 0x20000);
    put_u32(&mut bytes, 0x11c, 1);
    put_u32(&mut bytes, 0x120, base + 0x178);
    put_u32(&mut bytes, 0x178, 0x04);
    put_u32(&mut bytes, 0x17c, base + 0x1000);
    put_u32(&mut bytes, 0x180, 4);
    put_u32(&mut bytes, 0x184, 0x1ff);
    put_u32(&mut bytes, 0x188, 4);

    let error = match load_xbe_image(&bytes) {
        Ok(_) => panic!("malformed XBE unexpectedly loaded"),
        Err(error) => error.message().to_string(),
    };
    assert!(error.contains("raw data is out of bounds"));
}

fn put_u16(bytes: &mut [u8], offset: usize, value: u16) {
    bytes[offset..offset + 2].copy_from_slice(&value.to_le_bytes());
}

/// A 32-bit PE with one import by name and one by ordinal, and a relocation
/// table.
fn small_pe() -> Vec<u8> {
    let mut bytes = vec![0u8; 0x600];
    bytes[..2].copy_from_slice(b"MZ");
    put_u32(&mut bytes, 0x3c, 0x80);
    bytes[0x80..0x84].copy_from_slice(b"PE\0\0");
    put_u16(&mut bytes, 0x84, 0x014c);
    put_u16(&mut bytes, 0x86, 2);
    put_u16(&mut bytes, 0x94, 0xe0);
    put_u16(&mut bytes, 0x98, 0x010b);
    put_u32(&mut bytes, 0x98 + 28, 0x400000);
    put_u32(&mut bytes, 0x98 + 104, 0x1000);
    let table = 0x98 + 0xe0;
    bytes[table..table + 5].copy_from_slice(b".data");
    put_u32(&mut bytes, table + 8, 0x200);
    put_u32(&mut bytes, table + 12, 0x1000);
    put_u32(&mut bytes, table + 16, 0x100);
    put_u32(&mut bytes, table + 20, 0x400);
    put_u32(&mut bytes, table + 36, 0xc000_0040);
    bytes[table + 40..table + 46].copy_from_slice(b".reloc");
    put_u32(&mut bytes, table + 48, 0x10);
    put_u32(&mut bytes, table + 52, 0x2000);
    put_u32(&mut bytes, table + 56, 0x10);
    put_u32(&mut bytes, table + 60, 0x500);

    // The import descriptor, its thunks, and the names.
    put_u32(&mut bytes, 0x400, 0x1040);
    put_u32(&mut bytes, 0x40c, 0x1060);
    put_u32(&mut bytes, 0x410, 0x1050);
    put_u32(&mut bytes, 0x440, 0x1070);
    put_u32(&mut bytes, 0x444, 0x8000_0007);
    bytes[0x460..0x46a].copy_from_slice(b"USER32.dll");
    bytes[0x472..0x479].copy_from_slice(b"Message");

    put_u32(&mut bytes, 0x500, 0x1000);
    put_u32(&mut bytes, 0x504, 0x10);
    put_u16(&mut bytes, 0x508, 0x3010);
    put_u16(&mut bytes, 0x50a, 0xa018);
    put_u16(&mut bytes, 0x50c, 0x1020);
    put_u16(&mut bytes, 0x50e, 0x0000);
    bytes
}

#[test]
fn loads_pe_sections_and_base_relocations() {
    let image = load_pe_image(&small_pe()).ok().unwrap();
    assert_eq!(image.arch, PeArch::X86);
    assert_eq!(image.image_base, 0x400000);
    assert_eq!(image.sections.len(), 2);
    let data = &image.sections[0];
    assert_eq!(data.name, ".data");
    assert_eq!(data.rva, 0x1000);
    assert_eq!(data.va, 0x401000);
    assert_eq!(data.virtual_size, 0x200);
    assert_eq!(data.characteristics, 0xc000_0040);
    assert_eq!(data.data.len(), 0x200);
    assert_eq!(&data.data[0x60..0x6a], b"USER32.dll");
    assert!(data.contains_rva(0x11ff) && !data.contains_rva(0x1200));
    assert!(data.contains_va(0x401000) && !data.contains_va(0x400fff));
    assert_eq!(data.data_at_rva(0x1061, 3).unwrap(), b"SER");
    assert_eq!(data.data_at_va(0x401061, 3).unwrap(), b"SER");
    assert!(data.data_at_rva(0x11ff, 2).is_none());
    assert!(data.data_at_va(0x400fff, 1).is_none());
    let relocs: Vec<(u64, BaseRelocKind)> = image
        .base_relocations
        .iter()
        .map(|r| (r.va, r.kind))
        .collect();
    assert_eq!(
        relocs,
        vec![
            (0x401010, BaseRelocKind::HighLow),
            (0x401018, BaseRelocKind::Dir64),
            (0x401020, BaseRelocKind::Other(1))
        ]
    );
    assert_eq!(count_dir64(&image.base_relocations), 1);
    assert!(image.section_for_rva(0x2008).is_some());
    assert!(image.section_for_rva(0x3000).is_none());
}

#[test]
fn section_names_are_read_as_utf8() {
    let table = 0x98 + 0xe0;
    for (raw, name) in [
        (b".text\0\0\0", ".text"),
        (b".t\xc3\xa4xt\0\0", ".täxt"),
        (b".\xfftext\0\0", ".\u{fffd}text"),
        (b"a\0b\0\0\0\0\0", "a\0b"),
        (b"\0\0\0\0\0\0\0\0", ""),
    ] {
        let mut bytes = small_pe();
        bytes[table..table + 8].copy_from_slice(raw);
        let image = load_pe_image(&bytes).ok().unwrap();
        assert_eq!(image.sections[0].name, name);
    }
}

#[test]
fn loads_imports_with_the_debug_information() {
    let context = load_pe_and_pdb(
        &small_pe(),
        "units",
        "symbols",
        vec!["inlined".to_string()],
    )
    .ok()
    .unwrap();
    assert_eq!(context.arch, PeArch::X86);
    assert_eq!(context.imports.len(), 2);
    assert_eq!(context.imports[&0x401050], "__imp_Message");
    assert_eq!(context.imports[&0x401054], "__imp_USER32.dll#7");
    assert_eq!(context.cu_index, "units");
    assert_eq!(context.symbols, "symbols");
    assert_eq!(context.inlined_functions, vec!["inlined".to_string()]);
    assert_eq!(context.data_at_va(0x401062, 2).unwrap(), b"ER");
    assert_eq!(context.section_for_va(0x402000).unwrap().name, ".reloc");
    assert!(context.section_for_va(0x403000).is_none());
}

fn pe_fault(change: impl Fn(&mut Vec<u8>)) -> String {
    let mut bytes = small_pe();
    change(&mut bytes);
    match load_pe_image(&bytes) {
        Ok(_) => panic!("malformed PE unexpectedly loaded"),
        Err(error) => error.message().to_string(),
    }
}

#[test]
fn malformed_pe_headers_are_refused() {
    assert_eq!(
        pe_fault(|b| b.truncate(0x3f)),
        "file too small for PE header"
    );
    assert_eq!(
        pe_fault(|b| b[0] = b'Z'),
        "not a PE file (no MZ signature)"
    );
    assert_eq!(
        pe_fault(|b| put_u32(b, 0x3c, 0x5fd)),
        "e_lfanew out of bounds"
    );
    assert_eq!(pe_fault(|b| b[0x80] = 0), "PE signature not found");
    assert_eq!(
        pe_fault(|b| b.truncate(0x90)),
        "COFF header out of bounds"
    );
    assert_eq!(
        pe_fault(|b| put_u16(b, 0x84, 0x1c4)),
        "unsupported machine type 0x01c4 (only AMD64 and I386 supported)"
    );
    assert_eq!(
        pe_fault(|b| b.truncate(0x99)),
        "optional header offset out of bounds"
    );
    assert_eq!(
        pe_fault(|b| b.truncate(0xa0)),
        "PE32 optional header too short for ImageBase"
    );
    assert_eq!(
        pe_fault(|b| {
            put_u16(b, 0x98, 0x020b);
            b.truncate(0xa0);
        }),
        "PE32+ optional header too short for ImageBase"
    );
    assert_eq!(
        pe_fault(|b| put_u16(b, 0x98, 0x0107)),
        "unsupported PE optional-header magic 0x0107"
    );
    assert_eq!(
        pe_fault(|b| put_u16(b, 0x86, 0x100)),
        "section headers out of bounds"
    );
    assert_eq!(
        pe_fault(|b| put_u32(b, 0x98 + 0xe0 + 16, 0x300)),
        "section '.data' raw data out of bounds"
    );
}

#[test]
fn malformed_xbe_headers_are_refused() {
    let fault = |change: &dyn Fn(&mut Vec<u8>)| -> String {
        let mut bytes = vec![0u8; 0x200];
        bytes[..4].copy_from_slice(b"XBEH");
        put_u32(&mut bytes, 0x104, 0x10000);
        put_u32(&mut bytes, 0x108, 0x200);
        put_u32(&mut bytes, 0x10c, 0x20000);
        put_u32(&mut bytes, 0x11c, 1);
        put_u32(&mut bytes, 0x120, 0x10178);
        put_u32(&mut bytes, 0x17c, 0x11000);
        change(&mut bytes);
        match load_xbe_image(&bytes) {
            Ok(_) => String::new(),
            Err(error) => error.message().to_string(),
        }
    };
    assert_eq!(fault(&|_| ()), "");
    assert_eq!(
        fault(&|b| b.truncate(0x177)),
        "file too small for XBE header"
    );
    assert_eq!(
        fault(&|b| b[0] = b'Y'),
        "not an XBE file (no XBEH signature)"
    );
    assert_eq!(
        fault(&|b| put_u32(b, 0x104, 0)),
        "XBE has a zero image base"
    );
    assert_eq!(
        fault(&|b| put_u32(b, 0x120, 0x10200)),
        "XBE section headers address 0x10200 is outside the header image"
    );
    assert_eq!(
        fault(&|b| put_u32(b, 0x11c, 3)),
        "XBE section headers are out of bounds"
    );
    assert_eq!(
        fault(&|b| put_u32(b, 0x180, 0x40000)),
        "XBE section 0 virtual range 0x11000..0x51000 is outside the image"
    );
}

#[test]
fn xbe_sections_get_distinct_names() {
    let mut bytes = vec![0u8; 0x200];
    bytes[..4].copy_from_slice(b"XBEH");
    put_u32(&mut bytes, 0x104, 0x10000);
    put_u32(&mut bytes, 0x108, 0x200);
    put_u32(&mut bytes, 0x10c, 0x20000);
    put_u32(&mut bytes, 0x11c, 2);
    put_u32(&mut bytes, 0x120, 0x10178);
    put_u32(&mut bytes, 0x178, 0x04);
    put_u32(&mut bytes, 0x17c, 0x11000);
    put_u32(&mut bytes, 0x1b0, 0x04);
    put_u32(&mut bytes, 0x1b4, 0x12000);
    let image = load_xbe_image(&bytes).ok().unwrap();
    assert_eq!(image.sections[0].name, ".text");
    assert_eq!(image.sections[1].name, ".text_1");
    assert_eq!(
        image.sections[0].characteristics,
        0x04 | 0x0000_0020 | 0x2000_0000 | 0x0000_0080
    );
}
