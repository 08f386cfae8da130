use delink::coff::{
    add_coff_function_auxes, coff_function_auxes, coff_symbol_layout, coff_u16, coff_u32,
    FunctionSize, ParsedSymbol,
};
use delink::draft::{Draft, DraftSymbol, Linkage, Pending, SymbolClass};
use delink::format::{
    abs_flags, name_of_section, rel32_flags, Contents, OutputFormat, RelocType,
};
use delink::limits::{addend_fits, Shape};
use delink::model::{Function, IdaArch, IdaModel};
use delink::plan::{finish, Plan};
use delink::ranges::{subtract_ranges, Span};
use delink::readobj::{
    elf_header, lists_symbol, read_object, shown_name, target_name, ReadFlags, ReadTarget,
};
use delink::split_meta::{original_symbol_va, split_meta_note, spread_out};
use delink::writer::write_plan;
use object::{Object as _, ObjectSection as _, ObjectSymbol as _};

fn model(arch: IdaArch) -> IdaModel {
    IdaModel {
        arch,
        procname: "metapc".into(),
        bits: 32,
        little_endian: true,
        image_base: 0x400000,
        filetype: "PE".into(),
        input_file: "test.exe".into(),
        sections: vec![],
        functions: vec![Function {
            start: 0x401000,
            end: 0x401006,
            name: "f".into(),
            thunk: false,
            lib: false,
            is_static: false,
            public: true,
        }],
        names: vec![],
        relocations: vec![],
        jump_tables: vec![],
    }
}

/// A function with one relocation, and eight zero-filled bytes.
fn draft(format: OutputFormat, flags: RelocType) -> Draft {
    let mut draft = Draft::new();
    let text = draft.add_section(format, Contents::Text);
    let bss = draft.add_section(format, Contents::Zeroed);
    assert_eq!(draft.append(text, &vec![0xe8, 0, 0, 0, 0, 0xc3]), 0);
    draft.append_zeroed(bss, 8);
    draft.define(
        "f".into(),
        DraftSymbol {
            name: "f".into(),
            value: 0,
            size: 6,
            class: SymbolClass::Function,
            linkage: Linkage::External,
            section: text,
        },
    );
    draft.offer(
        "zeros".into(),
        DraftSymbol {
            name: "zeros".into(),
            value: 0,
            size: 8,
            class: SymbolClass::Data,
            linkage: Linkage::External,
            section: bss,
        },
    );
    draft.stage(Pending {
        section: text,
        offset: 1,
        target: "outside".into(),
        addend: -4,
        flags,
    });
    draft
}

#[test]
fn a_finished_object_is_written_whole() {
    for (format, arch) in [
        (OutputFormat::Coff, IdaArch::X86),
        (OutputFormat::Elf, IdaArch::X86_64),
    ] {
        let model = model(arch);
        let (plan, locals, undefs) = finish(draft(format, rel32_flags(format, arch)));
        assert_eq!((locals, undefs), (2, 1));
        assert_eq!(plan.relocs.len(), 1);
        let bytes = write_plan(format, &model, &plan, "add reloc at ")
            .ok()
            .unwrap();
        let file = object::File::parse(bytes.as_slice()).unwrap();
        let text = file.section_by_name(".text").unwrap();
        assert_eq!(text.size(), 6);
        assert_eq!(text.relocations().count(), 1);
        assert_eq!(file.section_by_name(".bss").unwrap().size(), 8);
        assert!(file.section_by_name(".note.split").is_some());
        let f = file
            .symbols()
            .find(|symbol| symbol.name().ok() == Some("f"))
            .unwrap();
        assert_eq!(f.kind(), object::SymbolKind::Text);
        assert_eq!(f.size(), 6);
        assert!(f.is_global());
        let outside = file
            .symbols()
            .find(|symbol| symbol.name().ok() == Some("outside"))
            .unwrap();
        assert!(outside.is_undefined());
    }
}

#[test]
fn relocations_of_another_format_are_refused() {
    let model = model(IdaArch::X86);
    let (plan, _, _) = finish(draft(
        OutputFormat::Coff,
        rel32_flags(OutputFormat::Elf, IdaArch::X86),
    ));
    let error = write_plan(OutputFormat::Coff, &model, &plan, "add reloc at ")
        .err()
        .unwrap();
    assert!(error.message().starts_with("add reloc at 0x1: "));
}

fn written(format: OutputFormat, plan: &Plan) -> Result<Vec<u8>, String> {
    write_plan(format, &model(IdaArch::X86), plan, "add reloc at ")
        .map_err(|error| error.message().to_string())
}

#[test]
fn string_tables_take_no_name_with_a_zero_byte() {
    let null = "serialize object for split metadata: string table entry contains null byte";
    let (coff, elf) = (OutputFormat::Coff, OutputFormat::Elf);
    for (format, name, taken) in [
        (coff, "f\0", true),
        (coff, "f\0234567", true),
        (coff, "f\02345678", false),
        (coff, "f23456789", true),
        (elf, "f\0", false),
        (elf, "f23456789", true),
    ] {
        let (mut plan, _, _) = finish(draft(format, rel32_flags(format, IdaArch::X86)));
        plan.symbols[0].name = name.to_string();
        match written(format, &plan) {
            Ok(_) => assert!(taken),
            Err(error) => assert!(!taken && error == null),
        }
        let (mut plan, _, _) = finish(draft(format, rel32_flags(format, IdaArch::X86)));
        plan.sections[1].name = name.to_string();
        match written(format, &plan) {
            Ok(_) => assert!(taken),
            Err(error) => assert!(!taken && error == null),
        }
    }
}

#[test]
fn coff_counts_sections_in_sixteen_bits() {
    let format = OutputFormat::Coff;
    let mut draft = draft(format, rel32_flags(format, IdaArch::X86));
    for _ in 0..0xfffd {
        draft.add_section(format, Contents::Zeroed);
    }
    let (plan, _, _) = finish(draft);
    assert_eq!(plan.sections.len(), 0xffff);
    // The split metadata takes one section more.
    assert_eq!(
        written(format, &plan).err().unwrap(),
        "serialize object for split metadata: too many sections"
    );
}

#[test]
fn formats_have_limits() {
    let shape = |format: OutputFormat, sections: Vec<(usize, usize)>, symbols: usize| Shape {
        format,
        names_fit: true,
        sections,
        symbols,
    };
    let (coff, elf) = (OutputFormat::Coff, OutputFormat::Elf);
    assert_eq!(shape(coff, vec![(0, 0); 0xffff], 0).fault(), None);
    assert_eq!(
        shape(coff, vec![(0, 0); 0x10000], 0).fault(),
        Some("too many sections")
    );
    assert_eq!(shape(elf, vec![(0, 0); 0x10000], 0).fault(), None);
    // Two headers take sixty bytes, and four-byte steps none between them and the data.
    let room = 0xffff_ffff - 60;
    assert_eq!(shape(coff, vec![(room, 0)], 0).fault(), None);
    assert_eq!(
        shape(coff, vec![(room + 1, 0)], 0).fault(),
        Some("file is too large")
    );
    assert_eq!(shape(elf, vec![(room + 1, 0)], 0).fault(), None);
    assert_eq!(shape(coff, vec![(room - 18, 0)], 1).fault(), None);
    assert!(shape(coff, vec![(room - 17, 0)], 1).fault().is_some());
    assert_eq!(shape(coff, vec![(room - 0x9fff6, 0xffff)], 0).fault(), None);
    assert!(shape(coff, vec![(room - 0x9fff5, 0xffff)], 0).fault().is_some());
    assert!(shape(coff, vec![(room - 0xa0009, 0x10000)], 0).fault().is_some());
    assert_eq!(shape(coff, vec![(room - 0xa000a, 0x10000)], 0).fault(), None);
    // The second section begins on a multiple of four.
    assert_eq!(shape(coff, vec![(1, 0), (room - 44, 0)], 0).fault(), None);
    assert!(shape(coff, vec![(1, 0), (room - 43, 0)], 0).fault().is_some());
    assert_eq!(
        shape(elf, vec![], 0xffff_fff1).fault(),
        Some("too many sections or symbols")
    );
    let mut unnamed = shape(elf, vec![], 0);
    unnamed.names_fit = false;
    assert_eq!(
        unnamed.fault(),
        Some("string table entry contains null byte")
    );
}

#[test]
fn only_relative_coff_fields_move_the_addend() {
    let with_addend = |format: OutputFormat, flags: RelocType, addend: i64| {
        let (mut plan, _, _) = finish(draft(format, flags));
        plan.relocs[0].addend = addend;
        written(format, &plan)
    };
    let coff = OutputFormat::Coff;
    let relative = rel32_flags(coff, IdaArch::X86);
    let absolute = abs_flags(coff, IdaArch::X86, 4).unwrap();
    assert!(with_addend(coff, relative, i64::MAX - 4).is_ok());
    assert_eq!(
        with_addend(coff, relative, i64::MAX - 3).err().unwrap(),
        "add reloc at 0x1: relocation addend is out of range"
    );
    assert!(with_addend(coff, absolute, i64::MAX).is_ok());
    for (t, last) in [(4, 4), (9, 9)] {
        assert!(addend_fits(coff, IdaArch::X86_64, RelocType::Coff(t), i64::MAX - last));
        assert!(!addend_fits(coff, IdaArch::X86_64, RelocType::Coff(t), i64::MAX - last + 1));
    }
    for t in [1, 3, 10, 0x14] {
        assert!(addend_fits(coff, IdaArch::X86_64, RelocType::Coff(t), i64::MAX));
    }
    assert!(addend_fits(OutputFormat::Elf, IdaArch::X86, relative, i64::MAX));
    let model = model(IdaArch::X86_64);
    let elf = OutputFormat::Elf;
    let (mut plan, _, _) = finish(draft(elf, rel32_flags(elf, IdaArch::X86_64)));
    plan.relocs[0].addend = i64::MAX;
    assert!(write_plan(elf, &model, &plan, "add reloc at ").is_ok());
}

#[test]
fn relocation_types_follow_format_and_architecture() {
    assert_eq!(
        rel32_flags(OutputFormat::Coff, IdaArch::X86_64),
        RelocType::Coff(4)
    );
    assert_eq!(
        rel32_flags(OutputFormat::Coff, IdaArch::X86),
        RelocType::Coff(0x14)
    );
    assert_eq!(
        rel32_flags(OutputFormat::Elf, IdaArch::X86_64),
        RelocType::Elf(2)
    );
    assert_eq!(
        rel32_flags(OutputFormat::Elf, IdaArch::Other),
        RelocType::Elf(2)
    );
    assert_eq!(
        abs_flags(OutputFormat::Coff, IdaArch::X86_64, 8),
        Some(RelocType::Coff(1))
    );
    assert_eq!(
        abs_flags(OutputFormat::Coff, IdaArch::X86_64, 4),
        Some(RelocType::Coff(2))
    );
    assert_eq!(
        abs_flags(OutputFormat::Coff, IdaArch::X86, 4),
        Some(RelocType::Coff(6))
    );
    assert_eq!(
        abs_flags(OutputFormat::Elf, IdaArch::X86_64, 8),
        Some(RelocType::Elf(1))
    );
    assert_eq!(
        abs_flags(OutputFormat::Elf, IdaArch::X86_64, 4),
        Some(RelocType::Elf(10))
    );
    assert_eq!(
        abs_flags(OutputFormat::Elf, IdaArch::X86, 4),
        Some(RelocType::Elf(1))
    );
    assert_eq!(abs_flags(OutputFormat::Coff, IdaArch::X86, 8), None);
    assert_eq!(abs_flags(OutputFormat::Elf, IdaArch::Other, 4), None);
    assert_eq!(
        name_of_section(OutputFormat::Coff, Contents::ReadOnly),
        ".rdata"
    );
    assert_eq!(
        name_of_section(OutputFormat::Elf, Contents::ReadOnly),
        ".rodata"
    );
}

/// A COFF file with one section, one relocation and three symbols, the second
/// with an auxiliary record.
fn coff_file() -> Vec<u8> {
    let mut d = vec![0u8; 20 + 40 + 10 + 4 * 18 + 4];
    d[2] = 1;
    d[8..12].copy_from_slice(&70u32.to_le_bytes());
    d[12..16].copy_from_slice(&4u32.to_le_bytes());
    d[20 + 24..20 + 28].copy_from_slice(&60u32.to_le_bytes());
    d[20 + 32] = 1;
    // The relocation refers to the third symbol, at record 3.
    d[64] = 3;
    for (record, letter) in [(0, b'a'), (1, b'b'), (3, b'c')] {
        d[70 + 18 * record] = letter;
    }
    d[70 + 18 + 17] = 1;
    d[70 + 2 * 18] = b'x';
    d[142] = 4;
    d
}

#[test]
fn functions_get_auxiliary_records() {
    let out = add_coff_function_auxes(
        coff_file(),
        &vec![
            FunctionSize { index: 0, size: 5 },
            FunctionSize {
                index: 3,
                size: 0x1234,
            },
        ],
    )
    .ok()
    .unwrap();
    assert_eq!(out.len(), coff_file().len() + 2 * 18);
    assert_eq!(coff_u32(&out, 12).ok().unwrap(), 6);
    let record = |n: usize| &out[70 + 18 * n..88 + 18 * n];
    assert_eq!(record(0)[0], b'a');
    assert_eq!(record(0)[17], 1);
    assert_eq!(record(1)[4..8], 5u32.to_le_bytes());
    assert_eq!(record(2)[0], b'b');
    assert_eq!(record(2)[17], 1);
    assert_eq!(record(3)[0], b'x');
    assert_eq!(record(4)[0], b'c');
    assert_eq!(record(4)[17], 1);
    assert_eq!(record(5)[4..8], 0x1234u32.to_le_bytes());
    // The relocation follows its symbol.
    assert_eq!(out[64], 4);
    assert_eq!(out[out.len() - 4], 4);

    let spread = spread_out(
        &vec![
            FunctionSize { index: 0, size: 5 },
            FunctionSize {
                index: 3,
                size: 0x1234,
            },
        ],
        &vec![10, 20, 30, 40],
    );
    assert_eq!(spread, vec![10, 0, 20, 30, 40, 0]);
}

#[test]
fn faulty_coff_files_are_refused() {
    let layout_fault =
        |d: &[u8]| coff_symbol_layout(d).err().unwrap().message().to_string();
    let d = coff_file();
    assert_eq!(layout_fault(&d[..19]), "truncated COFF file header");
    assert_eq!(layout_fault(&d[..59]), "truncated COFF section table");
    assert_eq!(
        layout_fault(&d[..100]),
        "invalid COFF symbol table bounds"
    );
    assert_eq!(
        coff_u32(&d, d.len() as u64 - 3).err().unwrap().message(),
        "truncated COFF u32 at 0x8f"
    );
    assert!(coff_u16(&d, d.len() as u64).is_err());
    let auxes = vec![FunctionSize { index: 1, size: 5 }];
    assert_eq!(
        add_coff_function_auxes(coff_file(), &auxes)
            .err()
            .unwrap()
            .message(),
        "function symbol unexpectedly has auxiliary records"
    );
    let mut long = coff_file();
    long[70 + 3 * 18 + 17] = 1;
    assert_eq!(
        add_coff_function_auxes(long, &vec![FunctionSize { index: 0, size: 5 }])
            .err()
            .unwrap()
            .message(),
        "invalid COFF auxiliary symbol count"
    );
}

#[test]
fn function_symbols_are_found_by_name() {
    let mut d = coff_file();
    d[70] = b'f';
    let symbol = |index: u64, name: &str| ParsedSymbol {
        index,
        name: Some(name.to_string()),
        is_text: true,
        is_undefined: false,
    };
    let model = model(IdaArch::X86);
    let auxes = coff_function_auxes(&d, &vec![symbol(0, "f"), symbol(3, "other")], &model)
        .ok()
        .unwrap();
    assert_eq!(auxes.len(), 1);
    assert_eq!((auxes[0].index, auxes[0].size), (0, 6));
    assert_eq!(
        coff_function_auxes(&d, &vec![symbol(9, "f")], &model)
            .err()
            .unwrap()
            .message(),
        "COFF function symbol index is out of bounds"
    );
    assert_eq!(
        coff_function_auxes(&d, &vec![symbol(1, "f")], &model)
            .err()
            .unwrap()
            .message(),
        "COFF function 'f' already has 1 auxiliary symbols"
    );
}

#[test]
fn made_up_names_lead_back_to_addresses() {
    let model = model(IdaArch::X86);
    assert_eq!(original_symbol_va(&model, "f"), Some(0x401000));
    assert_eq!(original_symbol_va(&model, "$L_40100A"), Some(0x40100a));
    assert_eq!(original_symbol_va(&model, "jpt_401010"), Some(0x401010));
    assert_eq!(
        original_symbol_va(&model, "__delink_ida_rdata_0000000000402000"),
        Some(0x402000)
    );
    assert_eq!(original_symbol_va(&model, "__delink_ida_data_start"), None);
    assert_eq!(original_symbol_va(&model, "unknown"), None);
    let note = split_meta_note(&vec![0x1_0000_0001], true).ok().unwrap();
    assert_eq!(note.len(), 28);
    assert_eq!(note[20..28], 0x1_0000_0001u64.to_le_bytes());
}

#[test]
fn ranges_are_subtracted() {
    let span = |start: u64, end: u64| Span { start, end };
    assert_eq!(
        subtract_ranges(
            span(10, 50),
            &vec![span(40, 60), span(15, 20), span(18, 25), span(0, 11), span(30, 30)]
        ),
        vec![span(11, 15), span(25, 40)]
    );
    assert_eq!(
        subtract_ranges(span(10, 50), &vec![]),
        vec![span(10, 50)]
    );
    assert!(subtract_ranges(span(10, 50), &vec![span(0, 100)]).is_empty());
}

#[test]
fn objects_are_read_back() {
    let format = OutputFormat::Elf;
    let model = model(IdaArch::X86_64);
    let (plan, _, _) = finish(draft(format, rel32_flags(format, IdaArch::X86_64)));
    let bytes = write_plan(format, &model, &plan, "add reloc at ")
        .ok()
        .unwrap();
    assert_eq!(elf_header(&bytes), (1, 62));
    assert_eq!(elf_header(b"MZ"), (0, 0));
    let report = read_object(&bytes).ok().unwrap();
    assert_eq!((report.e_type, report.e_machine), (1, 62));
    let text = report
        .sections
        .iter()
        .find(|section| section.name.as_deref() == Some(".text"))
        .unwrap();
    assert_eq!(text.size, 6);
    assert_eq!(text.kind, "Text");
    let f = report
        .symbols
        .iter()
        .find(|symbol| symbol.name.as_deref() == Some("f"))
        .unwrap();
    assert_eq!((f.address, f.size), (0, 6));
    assert_eq!(f.kind, "Text");
    assert!(lists_symbol(f));
    assert_eq!(report.relocs.len(), report.sections.len());
    let relocs: Vec<_> = report.relocs.iter().flat_map(|l| l.relocs.iter()).collect();
    assert_eq!(relocs.len(), 1);
    assert_eq!(relocs[0].offset, 1);
    assert_eq!(relocs[0].addend, -4);
    assert!(matches!(relocs[0].flags, ReadFlags::Elf(2)));
    assert_eq!(target_name(&report.symbols, &relocs[0].target), "outside");
    assert_eq!(
        target_name(&report.symbols, &ReadTarget::Symbol(999)),
        "<?>"
    );
    assert_eq!(
        target_name(&report.symbols, &ReadTarget::Other("Absolute".into())),
        "Absolute"
    );
    assert_eq!(shown_name(&None), "<?>");
    assert!(read_object(b"no object").is_err());
}
