use delink::export::{
    load, parse_size, validate_data_symbols, RawFunction, RawJumpTable, RawMeta, RawModel, RawName,
    RawSegment, SizeValue,
};
use delink::fixups::combined_relocations;
use delink::model::{IdaArch, JumpTableEntry, Name, Reloc, SegClass, Section};
use delink::pe::{BaseReloc, BaseRelocKind, PeArch, PeImage, PeSection};
use delink::report::{code_bytes, perms};
use delink::resolver::IdaSymbols;

fn section() -> Section {
    Section {
        name: ".rdata".into(),
        start: 0x1000,
        end: 0x1100,
        read: true,
        write: false,
        execute: false,
        class: SegClass::Const,
    }
}

fn name(addr: u64, size: u64, text: &str) -> Name {
    Name {
        addr,
        size,
        name: text.into(),
        public: false,
        weak: false,
        is_func: false,
    }
}

#[test]
fn parses_hexadecimal_sizes() {
    assert_eq!(
        parse_size(&SizeValue::Text("0xC".into())).ok().unwrap(),
        12
    );
    assert_eq!(
        parse_size(&SizeValue::Text("0x10".into())).ok().unwrap(),
        16
    );
    assert!(parse_size(&SizeValue::Text("12".into())).is_err());
}

#[test]
fn rejects_overlapping_data_symbols() {
    let sections = vec![section()];
    let names = vec![name(0x1004, 12, "kZero"), name(0x1008, 4, "dword")];
    let error = validate_data_symbols(&sections, &names).err().unwrap();
    assert!(error.message().contains("overlap"));
    let names = vec![name(0x1004, 12, "kZero"), name(0x1010, 4, "next")];
    validate_data_symbols(&sections, &names).ok().unwrap();
}

#[test]
fn rejects_data_that_extends_past_section() {
    let error = validate_data_symbols(&vec![section()], &vec![name(0x10fc, 8, "past_end")])
        .err()
        .unwrap();
    assert!(error.message().contains("beyond section"));
}

#[test]
fn sizes_that_are_no_hexadecimal_strings_are_refused() {
    let fault = |value: SizeValue| parse_size(&value).err().unwrap().message().to_string();
    assert_eq!(parse_size(&SizeValue::Unsigned(7)).ok().unwrap(), 7);
    assert_eq!(
        parse_size(&SizeValue::Text("0XfF".into())).ok().unwrap(),
        255
    );
    assert_eq!(
        fault(SizeValue::Text("12".into())),
        "size must be a hexadecimal string such as 0x4"
    );
    assert_eq!(
        fault(SizeValue::Text("0x".into())),
        "invalid hexadecimal size"
    );
    assert_eq!(
        fault(SizeValue::Text("0x1g".into())),
        "invalid hexadecimal size"
    );
    assert_eq!(
        fault(SizeValue::Text("0x10000000000000000".into())),
        "invalid hexadecimal size"
    );
    assert_eq!(fault(SizeValue::OtherNumber), "size must be nonnegative");
    assert_eq!(
        fault(SizeValue::Other),
        "size must be a hexadecimal string or integer"
    );
}

fn raw_model() -> RawModel {
    RawModel {
        meta: RawMeta {
            arch: "x86".into(),
            procname: "metapc".into(),
            bits: 32,
            endian: "little".into(),
            image_base: 0x400000,
            filetype: "PE".into(),
            input_file: "test.exe".into(),
        },
        segments: vec![
            RawSegment {
                name: ".text".into(),
                start: 0x401000,
                end: 0x402000,
                perm_r: true,
                perm_w: false,
                perm_x: true,
                class: "CODE".into(),
            },
            RawSegment {
                name: ".data".into(),
                start: 0x402000,
                end: 0x403000,
                perm_r: true,
                perm_w: true,
                perm_x: false,
                class: "DATA".into(),
            },
        ],
        functions: vec![],
        names: vec![],
        relocations: vec![],
        jump_tables: vec![],
    }
}

fn raw_function(start: u64, end: Option<u64>, size: Option<&str>, name: &str) -> RawFunction {
    RawFunction {
        start,
        end,
        size: size.map(|text| SizeValue::Text(text.into())),
        name: name.into(),
        thunk: false,
        lib: false,
        is_static: false,
        public: true,
    }
}

fn raw_name(addr: u64, size: Option<&str>, name: &str) -> RawName {
    RawName {
        addr,
        size: size.map(|text| SizeValue::Text(text.into())),
        name: name.into(),
        public: false,
        weak: false,
        is_func: false,
    }
}

#[test]
fn decodes_an_export() {
    let mut raw = raw_model();
    raw.functions = vec![
        raw_function(0x401020, Some(0x401030), None, "second"),
        raw_function(0x401000, None, Some("0x20"), "first"),
    ];
    raw.names = vec![
        raw_name(0x402000, Some("0x4"), "sized"),
        raw_name(0x402004, None, "unsized"),
    ];
    let model = load(raw).ok().unwrap();
    assert_eq!(model.arch, IdaArch::X86);
    assert!(model.little_endian);
    assert_eq!(model.functions[0].name, "first");
    assert_eq!(model.functions[0].end, 0x401020);
    assert_eq!(model.functions[0].size(), 0x20);
    assert_eq!(model.functions[1].name, "second");
    assert_eq!(model.names[0].size, 4);
    assert_eq!(model.names[1].size, 0);
    assert_eq!(model.sections[0].class, SegClass::Code);
    assert_eq!(model.sections[1].class, SegClass::Data);
    assert_eq!(model.sections[1].size(), 0x1000);
    assert!(model.sections[1].contains(0x402fff));
    assert!(!model.sections[1].contains(0x403000));
    assert_eq!(model.section_for(0x401fff).unwrap().name, ".text");
    assert!(model.section_for(0x403000).is_none());
    assert_eq!(code_bytes(&model), 0x30);
    assert_eq!(perms(&model.sections[0]), "r-x");
    assert_eq!(perms(&model.sections[1]), "rw-");
}

#[test]
fn exported_tables_have_one_dispatch() {
    let mut raw = raw_model();
    raw.jump_tables = vec![RawJumpTable {
        owner: 0x401000,
        dispatch: 0x401004,
        dispatch_addr: Some(0x401007),
        start: 0x401020,
        entry_size: 4,
        entries: vec![
            JumpTableEntry { addr: 0x401020, target: 0x401010 },
            JumpTableEntry { addr: 0x401024, target: 0x401018 },
        ],
        name: "jpt_401004".into(),
    }];
    let model = load(raw).ok().unwrap();
    assert_eq!(model.jump_tables.len(), 1);
    let table = &model.jump_tables[0];
    assert_eq!((table.owner, table.dispatch), (0x401000, 0x401004));
    assert_eq!((table.start, table.entry_size), (0x401020, 4));
    assert_eq!(table.end(), 0x401028);
    assert_eq!(table.name, "jpt_401004");
    assert_eq!(table.entries[1].addr, 0x401024);
    assert_eq!(table.entries[1].target, 0x401018);
    assert!(table.dispatch_addrs.is_empty());
    assert_eq!(table.dispatch_fields(), vec![0x401007]);
}

#[test]
fn architectures_and_classes_are_told_by_name() {
    let mut raw = raw_model();
    raw.meta.arch = "x86_64".into();
    raw.meta.endian = "big".into();
    let model = load(raw).ok().unwrap();
    assert_eq!(model.arch, IdaArch::X86_64);
    assert!(!model.little_endian);
    assert_eq!(IdaArch::from_meta("arm"), IdaArch::Other);
    for (text, class) in [
        ("CODE", SegClass::Code),
        ("DATA", SegClass::Data),
        ("CONST", SegClass::Const),
        ("BSS", SegClass::Bss),
        ("XTRN", SegClass::Xtrn),
        ("code", SegClass::Other),
    ] {
        assert_eq!(SegClass::from_str(text), class);
    }
}

#[test]
fn faulty_exports_are_refused() {
    let fault = |change: &dyn Fn(&mut RawModel)| -> String {
        let mut raw = raw_model();
        change(&mut raw);
        load(raw).err().unwrap().message().to_string()
    };
    assert_eq!(
        fault(&|raw| raw.functions = vec![raw_function(1, Some(2), Some("0x1"), "f")]),
        "function f needs exactly one of size or end"
    );
    assert_eq!(
        fault(&|raw| raw.functions = vec![raw_function(1, None, None, "f")]),
        "function f needs exactly one of size or end"
    );
    assert_eq!(
        fault(&|raw| raw.functions = vec![raw_function(2, Some(2), None, "f")]),
        "function f has invalid size"
    );
    assert_eq!(
        fault(&|raw| raw.functions = vec![raw_function(2, None, Some("0xffffffffffffffff"), "f")]),
        "function size overflows address space"
    );
    assert_eq!(
        fault(&|raw| raw.names = vec![raw_name(0x402000, Some("0x0"), "n")]),
        "data symbol n at 0x402000 has zero size"
    );
    assert_eq!(
        fault(&|raw| {
            raw.names = vec![
                raw_name(0x402002, Some("0x2"), "m"),
                raw_name(0x402000, Some("0x3"), "n"),
            ]
        }),
        "data symbols n at 0x402000 and m at 0x402002 overlap"
    );
    assert_eq!(
        fault(&|raw| raw.names = vec![raw_name(0x402ffe, Some("0x3"), "n")]),
        "data symbol n at 0x402ffe extends beyond section 0x403000"
    );
}

#[test]
fn exported_fixups_take_precedence_over_base_relocations() {
    let mut raw = raw_model();
    let fixup = |addr: u64, size: u32, target: u64| Reloc {
        addr,
        kind: "OFF".into(),
        size,
        target,
    };
    raw.relocations = vec![
        fixup(0x402000, 4, 0x401000),
        // The bytes there hold another value: a displacement, not an address.
        fixup(0x402004, 4, 0x401000),
        fixup(0x402008, 2, 0x401000),
    ];
    let model = load(raw).ok().unwrap();
    let mut data = vec![0u8; 16];
    data[..4].copy_from_slice(&0x401000u32.to_le_bytes());
    data[12..16].copy_from_slice(&0x10402010u32.to_le_bytes());
    let base = |va: u64, kind: BaseRelocKind| BaseReloc { va, kind };
    let pe = PeImage {
        arch: PeArch::X86,
        image_base: 0x10400000,
        sections: vec![PeSection {
            name: ".data".into(),
            rva: 0x2000,
            va: 0x10402000,
            virtual_size: 16,
            data,
            characteristics: 0,
        }],
        base_relocations: vec![
            base(0x10402000, BaseRelocKind::HighLow),
            base(0x1040200c, BaseRelocKind::HighLow),
            base(0x10402008, BaseRelocKind::Other(4)),
            base(0x1040200c, BaseRelocKind::Dir64),
        ],
    };
    let relocs = combined_relocations(&model, &pe);
    let seen: Vec<(u64, &str, u32, u64)> = relocs
        .iter()
        .map(|r| (r.addr, r.kind.as_str(), r.size, r.target))
        .collect();
    assert_eq!(
        seen,
        vec![
            (0x402000, "OFF", 4, 0x401000),
            (0x40200c, "RELOC", 4, 0x402010)
        ]
    );
}

#[test]
fn names_resolve_before_functions_and_sections() {
    let mut raw = raw_model();
    raw.functions = vec![raw_function(0x401000, Some(0x401010), None, "f")];
    raw.names = vec![
        raw_name(0x401004, None, "label"),
        raw_name(0x402008, None, "variable"),
    ];
    let model = load(raw).ok().unwrap();
    let symbols = IdaSymbols::build(&model, &vec![]);
    let at = |name: &str, addend: i64| Some((name.to_string(), addend));
    assert_eq!(symbols.resolve_code(0x401000), at("f", 0));
    assert_eq!(symbols.resolve_code(0x401004), at("label", 0));
    assert_eq!(symbols.resolve_code(0x401005), at("f", 5));
    assert_eq!(symbols.resolve_code(0x401010), None);
    assert_eq!(symbols.resolve_exact(0x401005), None);
    assert_eq!(symbols.resolve_exact(0x402008), at("variable", 0));
    assert_eq!(symbols.resolve_data(0x402008), at("variable", 0));
    assert_eq!(
        symbols.resolve_data(0x40200a),
        at("__delink_ida_data_start", 10)
    );
    assert_eq!(symbols.resolve_data(0x403000), None);
    assert_eq!(symbols.variables.entries.len(), 1);
    assert_eq!(symbols.variables.get(0x402008).unwrap().name, "variable");
}

#[test]
fn variables_live_in_any_data_section() {
    let mut raw = raw_model();
    for (name, start, class) in [
        (".data1", 0x404000, "DATA"),
        (".idata", 0x405000, "XTRN"),
        (".other", 0x406000, "OTHER"),
    ] {
        raw.segments.push(RawSegment {
            name: name.into(),
            start,
            end: start + 0x100,
            perm_r: true,
            perm_w: true,
            perm_x: false,
            class: class.into(),
        });
    }
    raw.names = vec![
        raw_name(0x404000, Some("0x8"), "second"),
        raw_name(0x405000, None, "imported"),
        raw_name(0x406000, None, "elsewhere"),
    ];
    let model = load(raw).ok().unwrap();
    let symbols = IdaSymbols::build(&model, &vec![]);
    assert_eq!(symbols.variables.get(0x404000).unwrap().size, 8);
    assert_eq!(symbols.variables.get(0x405000).unwrap().name, "imported");
    assert!(symbols.variables.get(0x406000).is_none());
}

#[test]
fn relocations_are_found_by_range() {
    let model = load(raw_model()).ok().unwrap();
    let fixup = |addr: u64| Reloc {
        addr,
        kind: "OFF".into(),
        size: 4,
        target: 0x401000,
    };
    let symbols = IdaSymbols::build(
        &model,
        &vec![fixup(0x402008), fixup(0x402000), fixup(0x402004)],
    );
    let found: Vec<u64> = symbols
        .relocs_in(0x402000, 0x402008)
        .iter()
        .map(|(address, _)| *address)
        .collect();
    assert_eq!(found, vec![0x402000, 0x402004]);
}
