use delink::addr_map::AddrMap;
use delink::draft::{Linkage, SymbolClass};
use delink::emitter::{Emitter, WideRecovery, WideReloc};
use delink::format::OutputFormat;
use delink::groups::{DataRange, IdaproJson, ObjectGroup};
use delink::model::{Function, IdaArch, IdaModel, Name, Reloc, SegClass, Section};
use delink::ownership::{
    expand_function_ranges, owned_data_ranges, resolve_split_data, validate_data_ranges,
    OwnedDataRange,
};
use delink::pe::{PeArch, PeImage, PeSection};
use delink::ranges::Span;
use delink::resolver::IdaSymbols;
use delink::resources::{emit_pe_resources, resource_dword};
use delink::split::{
    emit_shared, emit_shared_for_groups, names_in_order, prepare_groups, split_by_groups, CuOutcome,
};
use delink::split_meta::split_meta_note;
use delink::tables::discover_x86_jump_tables;
use delink::text_map::TextMap;
use delink::writer::emit_except_list_symbol;
use object::{Object as _, ObjectSection as _, ObjectSymbol as _};

fn section(name: &str, start: u64, end: u64, class: SegClass) -> Section {
    Section {
        name: name.into(),
        start,
        end,
        read: true,
        write: class == SegClass::Data,
        execute: class == SegClass::Code,
        class,
    }
}

fn function(start: u64, end: u64, name: &str, public: bool) -> Function {
    Function {
        start,
        end,
        name: name.into(),
        thunk: false,
        lib: false,
        is_static: false,
        public,
    }
}

fn name(addr: u64, size: u64, text: &str) -> Name {
    Name {
        addr,
        size,
        name: text.into(),
        public: false,
        weak: false,
        is_func: false,
    }
}

fn model(arch: IdaArch, bits: u32, image_base: u64) -> IdaModel {
    IdaModel {
        arch,
        procname: "metapc".into(),
        bits,
        little_endian: true,
        image_base,
        filetype: "PE".into(),
        input_file: "test.exe".into(),
        sections: vec![],
        functions: vec![],
        names: vec![],
        relocations: vec![],
        jump_tables: vec![],
    }
}

fn pe_section(name: &str, rva: u64, va: u64, data: Vec<u8>) -> PeSection {
    PeSection {
        name: name.into(),
        rva,
        va,
        virtual_size: data.len() as u64,
        data,
        characteristics: 0,
    }
}

fn grouping(groups: Vec<(&str, ObjectGroup)>) -> IdaproJson {
    let mut json: IdaproJson = TextMap::new();
    for (file, group) in groups {
        json.insert(file.to_string(), group);
    }
    json
}

fn of_functions(functions: Vec<u64>) -> ObjectGroup {
    ObjectGroup {
        functions,
        ..ObjectGroup::default()
    }
}

fn no_wide() -> AddrMap<WideRecovery> {
    AddrMap::new()
}

fn bytes_of<'a>(outcomes: &'a [CuOutcome], name: &str) -> &'a [u8] {
    let outcome = outcomes
        .iter()
        .find(|outcome| outcome.cu_name == name)
        .unwrap();
    match &outcome.result {
        Ok((bytes, _)) => bytes,
        Err(e) => panic!("{}", e.message()),
    }
}

fn section_data(bytes: &[u8], name: &str) -> Vec<u8> {
    let file = object::File::parse(bytes).unwrap();
    file.sections()
        .filter(|section| section.name().ok() == Some(name))
        .flat_map(|section| section.data().unwrap().to_vec())
        .collect()
}

fn section_size(bytes: &[u8], name: &str) -> u64 {
    let file = object::File::parse(bytes).unwrap();
    file.sections()
        .find(|section| section.name().ok() == Some(name))
        .map(|section| section.size())
        .unwrap_or(0)
}

fn test_model() -> (IdaModel, PeImage, IdaSymbols) {
    let mut model = model(IdaArch::X86_64, 64, 0x1000);
    model.sections = vec![
        section(".rdata", 0x1100, 0x1110, SegClass::Const),
        section(".data", 0x1200, 0x1220, SegClass::Data),
    ];
    let pe = PeImage {
        arch: PeArch::X86_64,
        image_base: 0x1000,
        sections: vec![
            pe_section(".rdata", 0x100, 0x1100, (0..0x10).collect()),
            pe_section(".data", 0x200, 0x1200, (0x20..0x40).collect()),
        ],
        base_relocations: vec![],
    };
    let symbols = IdaSymbols::build(&model, &vec![]);
    (model, pe, symbols)
}

/// Two functions, the first of which calls the second, with a named gap between
/// them, and an import.
fn calling_model() -> (IdaModel, PeImage) {
    let mut code = vec![0x90; 0x20];
    code[..5].copy_from_slice(&[0xe8, 0x0b, 0, 0, 0]); // call 0x401010
    code[8] = 0xc3; // named code in the gap between functions
    code[0x10] = 0xc3;
    let mut model = model(IdaArch::X86, 32, 0x400000);
    model.sections = vec![
        section(".text", 0x401000, 0x401020, SegClass::Code),
        section(".idata", 0x402000, 0x402004, SegClass::Xtrn),
    ];
    model.functions = vec![
        function(0x401000, 0x401008, "_main", true),
        function(0x401010, 0x401011, "_helper", false),
    ];
    model.names = vec![
        name(0x401005, 0, "inside_main"),
        name(0x401008, 0, "handler"),
        name(0x402000, 4, "ImportedApi"),
    ];
    let pe = PeImage {
        arch: PeArch::X86,
        image_base: model.image_base,
        sections: vec![
            pe_section(".text", 0x1000, 0x401000, code),
            pe_section(".rdata", 0x2000, 0x402000, vec![1, 2, 3, 4]),
        ],
        base_relocations: vec![],
    };
    (model, pe)
}

#[test]
fn nonpublic_function_called_from_another_object_is_linkable() {
    let (model, pe) = calling_model();
    let symbols = IdaSymbols::build(&model, &vec![]);
    let groups = grouping(vec![
        ("main.obj", of_functions(vec![0x401000])),
        ("helper.obj", of_functions(vec![0x401010])),
    ]);
    let outcomes = split_by_groups(
        &model,
        &pe,
        &symbols,
        &groups,
        &no_wide(),
        OutputFormat::Coff,
    )
    .ok()
    .unwrap();
    assert!(outcomes.iter().all(|outcome| outcome.result.is_ok()));

    let file = object::File::parse(bytes_of(&outcomes, "helper.obj")).unwrap();
    let helper = file
        .symbols()
        .find(|symbol| symbol.name().unwrap() == "_helper")
        .unwrap();
    assert!(helper.is_global());

    let file = object::File::parse(bytes_of(&outcomes, "main.obj")).unwrap();
    let inside_main = file
        .symbols()
        .find(|symbol| symbol.name().unwrap() == "inside_main")
        .unwrap();
    assert!(inside_main.is_global());
    assert_eq!(inside_main.kind(), object::SymbolKind::Data);
    let main = file
        .symbols()
        .find(|symbol| symbol.name().unwrap() == "_main")
        .unwrap();
    assert_eq!(main.size(), 8);
    let reference = file
        .symbols()
        .find(|symbol| symbol.name().unwrap() == "_helper")
        .unwrap();
    assert!(reference.is_undefined());
    let text = file.section_by_name(".text").unwrap();
    let relocation = text.relocations().next().unwrap().1;
    let object::RelocationTarget::Symbol(target) = relocation.target() else {
        panic!("call relocation does not target a symbol");
    };
    assert_eq!(
        file.symbol_by_index(target).unwrap().name().unwrap(),
        "_helper"
    );

    let (shared, _) = emit_shared_for_groups(&model, &pe, &symbols, &groups, OutputFormat::Coff)
        .ok()
        .unwrap();
    let file = object::File::parse(shared.as_slice()).unwrap();
    let handler = file
        .symbols()
        .find(|symbol| symbol.name().unwrap() == "handler")
        .unwrap();
    assert!(handler.is_global());
    let imported = file
        .symbols()
        .find(|symbol| symbol.name().unwrap() == "ImportedApi")
        .unwrap();
    assert!(imported.is_global());
    assert_eq!(section_data(&shared, ".text")[0], 0xc3);
}

#[test]
fn extracts_pe_resource_records_in_payload_order() {
    let (mut model, _, _) = test_model();
    model.sections.clear();
    let mut raw = vec![0u8; 91];
    raw[14..16].copy_from_slice(&1u16.to_le_bytes());
    raw[16..20].copy_from_slice(&10u32.to_le_bytes());
    raw[20..24].copy_from_slice(&0x8000_0018u32.to_le_bytes());
    raw[24 + 14..24 + 16].copy_from_slice(&1u16.to_le_bytes());
    raw[40..44].copy_from_slice(&1u32.to_le_bytes());
    raw[44..48].copy_from_slice(&0x8000_0030u32.to_le_bytes());
    raw[48 + 14..48 + 16].copy_from_slice(&1u16.to_le_bytes());
    raw[64..68].copy_from_slice(&1033u32.to_le_bytes());
    raw[68..72].copy_from_slice(&72u32.to_le_bytes());
    raw[72..76].copy_from_slice(&0x158u32.to_le_bytes());
    raw[76..80].copy_from_slice(&3u32.to_le_bytes());
    raw[88..91].copy_from_slice(b"ABC");
    let pe = PeImage {
        arch: PeArch::X86,
        image_base: 0x1000,
        sections: vec![pe_section(".rsrc", 0x100, 0x1100, raw)],
        base_relocations: vec![],
    };
    let (bytes, count) = emit_pe_resources(&model, &pe).ok().unwrap().unwrap();
    assert_eq!(count, 1);
    assert_eq!(resource_dword(&bytes, 0).ok().unwrap(), 0);
    assert_eq!(resource_dword(&bytes, 32).ok().unwrap(), 3);
    assert_eq!(&bytes[64..67], b"ABC");
}

#[test]
fn discovers_legacy_x86_absolute_jump_table() {
    let mut bytes = vec![0x90; 24];
    bytes[..7].copy_from_slice(&[0xFF, 0x24, 0x85, 0x10, 0x10, 0, 0]);
    bytes[16..20].copy_from_slice(&0x1008u32.to_le_bytes());
    bytes[20..24].copy_from_slice(&0x1009u32.to_le_bytes());

    let mut model = model(IdaArch::X86, 32, 0x1000);
    model.sections = vec![section(".text", 0x1000, 0x1018, SegClass::Code)];
    model.functions = vec![function(0x1000, 0x1018, "switch", true)];
    let pe = PeImage {
        arch: PeArch::X86,
        image_base: 0x1000,
        sections: vec![pe_section(".text", 0, 0x1000, bytes.clone())],
        base_relocations: vec![],
    };
    let tables = discover_x86_jump_tables(&bytes, 0x1000, 0x1018, &model, &pe);
    assert_eq!(tables.len(), 1);
    assert_eq!(tables[0].start, 0x1010);
    assert_eq!(tables[0].dispatch_addr, Some(0x1003));
    assert_eq!(tables[0].entries.len(), 2);
    assert_eq!(tables[0].entries[1].target, 0x1009);
    assert_eq!(tables[0].name, "jpt_1010");
    assert_eq!(tables[0].dispatch_fields(), vec![0x1003]);
}

#[test]
fn discovers_legacy_x86_table_after_ida_function_end() {
    let mut image = vec![0x90; 32];
    image[..7].copy_from_slice(&[0xFF, 0x24, 0x85, 0x10, 0x10, 0, 0]);
    image[16..20].copy_from_slice(&0x1002u32.to_le_bytes());
    image[20..24].copy_from_slice(&0x1007u32.to_le_bytes());
    let code = image[..8].to_vec();
    let mut model = model(IdaArch::X86, 32, 0x1000);
    model.sections = vec![section(".text", 0x1000, 0x1020, SegClass::Code)];
    model.functions = vec![function(0x1000, 0x1008, "switch", true)];
    let pe = PeImage {
        arch: PeArch::X86,
        image_base: 0x1000,
        sections: vec![pe_section(".text", 0, 0x1000, image)],
        base_relocations: vec![],
    };

    let tables = discover_x86_jump_tables(&code, 0x1000, 0x1008, &model, &pe);
    assert_eq!(tables.len(), 1);
    assert_eq!(tables[0].start, 0x1010);
    assert_eq!(tables[0].end(), 0x1018);
    assert_eq!(tables[0].entries[1].target, 0x1007);
}

#[test]
fn split_metadata_serializes_coff_symbol_virtual_addresses() {
    let note = split_meta_note(&vec![0x401000, 0x401020], false)
        .ok()
        .unwrap();
    assert_eq!(&note[0..4], &6u32.to_le_bytes());
    assert_eq!(&note[4..8], &8u32.to_le_bytes());
    assert_eq!(&note[8..12], &u32::from_be_bytes(*b"VIRT").to_le_bytes());
    assert_eq!(&note[12..20], b"Split\0\0\0");
    assert_eq!(&note[20..24], &0x401000u32.to_le_bytes());
    assert_eq!(&note[24..28], &0x401020u32.to_le_bytes());
}

#[test]
fn assigned_ranges_move_out_of_shared_data() {
    let (model, pe, symbols) = test_model();
    let groups = grouping(vec![(
        "owner.obj",
        ObjectGroup {
            functions: vec![],
            function_ranges: vec![],
            rdata: vec![DataRange([0x1104, 0x1108])],
            data: vec![DataRange([0x1208, 0x1210])],
            bss: vec![],
        },
    )]);

    let outcomes = split_by_groups(
        &model,
        &pe,
        &symbols,
        &groups,
        &no_wide(),
        OutputFormat::Coff,
    )
    .ok()
    .unwrap();
    assert_eq!(outcomes.len(), 1);
    let (owner, stats) = match &outcomes[0].result {
        Ok(emitted) => emitted,
        Err(e) => panic!("{}", e.message()),
    };
    assert_eq!(stats.const_bytes, 4);
    assert_eq!(stats.data_bytes, 8);
    assert_eq!(section_data(owner, ".rdata"), vec![4, 5, 6, 7]);
    assert_eq!(
        section_data(owner, ".data"),
        (0x28..0x30).collect::<Vec<_>>()
    );

    let (shared, shared_stats) =
        emit_shared_for_groups(&model, &pe, &symbols, &groups, OutputFormat::Coff)
            .ok()
            .unwrap();
    assert_eq!(shared_stats.const_bytes, 12);
    assert_eq!(shared_stats.data_bytes, 24);
    assert_eq!(
        section_data(&shared, ".rdata"),
        vec![0, 1, 2, 3, 8, 9, 10, 11, 12, 13, 14, 15]
    );
    assert_eq!(
        section_data(&shared, ".data"),
        (0x20..0x28).chain(0x30..0x40).collect::<Vec<_>>()
    );
}

#[test]
fn bss_range_from_data_becomes_zero_filled_bss() {
    let (model, pe, symbols) = test_model();
    let groups = grouping(vec![(
        "owner.obj",
        ObjectGroup {
            bss: vec![DataRange([0x1210, 0x1218])],
            ..ObjectGroup::default()
        },
    )]);
    let outcomes = split_by_groups(
        &model,
        &pe,
        &symbols,
        &groups,
        &no_wide(),
        OutputFormat::Coff,
    )
    .ok()
    .unwrap();
    let (owner, stats) = match &outcomes[0].result {
        Ok(emitted) => emitted,
        Err(e) => panic!("{}", e.message()),
    };
    assert_eq!(stats.bss_bytes, 8);
    assert_eq!(section_size(owner, ".bss"), 8);
    assert!(section_data(owner, ".bss").is_empty());

    let (shared, stats) =
        emit_shared_for_groups(&model, &pe, &symbols, &groups, OutputFormat::Coff)
            .ok()
            .unwrap();
    assert_eq!(stats.data_bytes, 24);
    assert_eq!(
        section_data(&shared, ".data"),
        (0x20..0x30).chain(0x38..0x40).collect::<Vec<_>>()
    );
}

#[test]
fn rejects_overlapping_ranges() {
    let (model, _, _) = test_model();
    let groups = grouping(vec![
        (
            "one.obj",
            ObjectGroup {
                rdata: vec![DataRange([0x1100, 0x1108])],
                ..ObjectGroup::default()
            },
        ),
        (
            "two.obj",
            ObjectGroup {
                rdata: vec![DataRange([0x1104, 0x110c])],
                ..ObjectGroup::default()
            },
        ),
    ]);
    let error = validate_data_ranges(&model, &groups).err().unwrap();
    assert!(error.message().contains("overlapping"));
}

fn two_functions() -> IdaModel {
    let mut model = model(IdaArch::X86_64, 64, 0x1000);
    model.sections = vec![section(".text", 0x1000, 0x1020, SegClass::Code)];
    model.functions = vec![
        function(0x1000, 0x1004, "one", false),
        function(0x1008, 0x1010, "two", false),
    ];
    model
}

#[test]
fn function_ranges_select_complete_functions() {
    let model = two_functions();
    let groups = grouping(vec![(
        "all.obj",
        ObjectGroup {
            function_ranges: vec![DataRange([0x1000, 0x1010])],
            ..ObjectGroup::default()
        },
    )]);
    let expanded = expand_function_ranges(&model, &groups).ok().unwrap();
    assert_eq!(
        expanded.get("all.obj").unwrap().functions,
        vec![0x1000, 0x1008]
    );
}

#[test]
fn function_ranges_reject_partial_function() {
    let mut model = model(IdaArch::X86_64, 64, 0x1000);
    model.sections = vec![section(".text", 0x1000, 0x1010, SegClass::Code)];
    model.functions = vec![function(0x1000, 0x1008, "one", false)];
    let groups = grouping(vec![(
        "partial.obj",
        ObjectGroup {
            function_ranges: vec![DataRange([0x1004, 0x1010])],
            ..ObjectGroup::default()
        },
    )]);
    let error = expand_function_ranges(&model, &groups).err().unwrap();
    assert!(error.message().contains("cuts through function"));
}

#[test]
fn exact_data_names_take_precedence_over_range_anchors() {
    let (mut model, _, _) = test_model();
    model.names.push(name(0x1208, 4, "renamable_data"));
    let symbols = IdaSymbols::build(&model, &vec![]);
    let owned = vec![OwnedDataRange {
        range: Span {
            start: 0x1200,
            end: 0x1210,
        },
        anchor: "__delink_ida_data_0000000000001200".into(),
    }];
    assert_eq!(
        resolve_split_data(&symbols, &owned, 0x1208),
        Some(("renamable_data".into(), 0))
    );
    assert_eq!(
        resolve_split_data(&symbols, &owned, 0x1204),
        Some(("__delink_ida_data_0000000000001200".into(), 4))
    );
}

fn split(
    model: &IdaModel,
    pe: &PeImage,
    groups: &IdaproJson,
    format: OutputFormat,
) -> Vec<CuOutcome> {
    let symbols = IdaSymbols::build(model, &vec![]);
    split_by_groups(model, pe, &symbols, groups, &no_wide(), format)
        .ok()
        .unwrap()
}

fn error_of(outcomes: &[CuOutcome], name: &str) -> String {
    let outcome = outcomes
        .iter()
        .find(|outcome| outcome.cu_name == name)
        .unwrap();
    match &outcome.result {
        Ok(_) => panic!("{name} was emitted"),
        Err(e) => e.message().to_string(),
    }
}

#[test]
fn relocated_fields_are_cleared_and_other_bytes_kept() {
    let (model, pe) = calling_model();
    let groups = grouping(vec![("main.obj", of_functions(vec![0x401000]))]);
    let outcomes = split(&model, &pe, &groups, OutputFormat::Coff);
    assert_eq!(
        section_data(bytes_of(&outcomes, "main.obj"), ".text"),
        vec![0xe8, 0, 0, 0, 0, 0x90, 0x90, 0x90]
    );
    let (_, stats) = outcomes[0].result.as_ref().ok().unwrap();
    assert_eq!(stats.text_bytes, 8);
    assert_eq!(stats.instructions, 4);
    assert_eq!(stats.local_symbols, 2);
    assert_eq!(stats.undef_symbols, 1);
    assert_eq!(stats.relocations, 1);
    assert_eq!(stats.unresolved_calls, 0);
    assert_eq!(stats.unresolved_rip, 0);
}

#[test]
fn a_call_within_an_object_binds_to_its_definition() {
    let (model, pe) = calling_model();
    let groups = grouping(vec![("all.obj", of_functions(vec![0x401010, 0x401000]))]);
    let outcomes = split(&model, &pe, &groups, OutputFormat::Coff);
    let file = object::File::parse(bytes_of(&outcomes, "all.obj")).unwrap();
    assert!(file.symbols().all(|symbol| !symbol.is_undefined()));
    let text = file.section_by_name(".text").unwrap();
    let (offset, relocation) = text.relocations().next().unwrap();
    assert_eq!(offset, 1);
    let object::RelocationTarget::Symbol(target) = relocation.target() else {
        panic!("call relocation does not target a symbol");
    };
    assert!(file.symbol_by_index(target).unwrap().is_definition());
    assert_eq!(
        relocation.flags(),
        object::RelocationFlags::Coff {
            typ: object::pe::IMAGE_REL_I386_REL32
        }
    );
}

#[test]
fn code_sections_come_in_address_order() {
    let (model, pe) = calling_model();
    let groups = grouping(vec![(
        "all.obj",
        ObjectGroup {
            function_ranges: vec![DataRange([0x401000, 0x401011])],
            ..ObjectGroup::default()
        },
    )]);
    let outcomes = split(&model, &pe, &groups, OutputFormat::Coff);
    let bytes = bytes_of(&outcomes, "all.obj");
    let file = object::File::parse(bytes).unwrap();
    let sizes: Vec<u64> = file
        .sections()
        .filter(|section| section.name().ok() == Some(".text"))
        .map(|section| section.size())
        .collect();
    assert_eq!(sizes, vec![8, 8, 1]);
    assert_eq!(section_data(bytes, ".text")[8], 0xc3);
    let handler = file
        .symbols()
        .find(|symbol| symbol.name().unwrap() == "handler")
        .unwrap();
    assert!(handler.is_global());

    let symbols = IdaSymbols::build(&model, &vec![]);
    let (shared, _) = emit_shared_for_groups(&model, &pe, &symbols, &groups, OutputFormat::Coff)
        .ok()
        .unwrap();
    assert_eq!(section_data(&shared, ".text"), vec![0x90; 15]);
}

#[test]
fn faulty_groups_fail_one_by_one() {
    let (mut model, pe) = calling_model();
    model.functions.push(function(0x401018, 0x401018, "_none", false));
    let groups = grouping(vec![
        ("a_twice.obj", of_functions(vec![0x401000, 0x401000])),
        ("b_unknown.obj", of_functions(vec![0x401002])),
        ("c_empty.obj", ObjectGroup::default()),
        ("d_none.obj", of_functions(vec![0x401018])),
        ("e_good.obj", of_functions(vec![0x401010])),
    ]);
    let outcomes = split(&model, &pe, &groups, OutputFormat::Coff);
    let names: Vec<&str> = outcomes.iter().map(|o| o.cu_name.as_str()).collect();
    assert_eq!(
        names,
        vec!["a_twice.obj", "b_unknown.obj", "d_none.obj", "e_good.obj"]
    );
    assert_eq!(
        error_of(&outcomes, "a_twice.obj"),
        "duplicate function address 0x401000 in group"
    );
    assert_eq!(
        error_of(&outcomes, "b_unknown.obj"),
        "idapro address 0x401002 is not a function start in delink.json"
    );
    assert_eq!(
        error_of(&outcomes, "d_none.obj"),
        "function '_none' at 0x401018 has zero size in delink.json"
    );
    assert!(outcomes[3].result.is_ok());
}

#[test]
fn an_empty_group_has_no_object() {
    let (model, pe) = calling_model();
    let symbols = IdaSymbols::build(&model, &vec![]);
    let owned = vec![];
    let names = names_in_order(&model);
    let wide = no_wide();
    let emitter = Emitter {
        model: &model,
        pe: &pe,
        symbols: &symbols,
        owned: &owned,
        names: &names,
        wide: &wide,
        format: OutputFormat::Coff,
    };
    let error = emitter.emit_object(&ObjectGroup::default()).err().unwrap();
    assert_eq!(error.message(), "group has no code or data ranges");
}

#[test]
fn other_architectures_are_not_split() {
    let (mut model, pe) = calling_model();
    model.arch = IdaArch::Other;
    model.procname = "ARM".into();
    let symbols = IdaSymbols::build(&model, &vec![]);
    let error = split_by_groups(
        &model,
        &pe,
        &symbols,
        &grouping(vec![]),
        &no_wide(),
        OutputFormat::Elf,
    )
    .err()
    .unwrap();
    assert_eq!(
        error.message(),
        "relocation recovery is only implemented for x86 / x86-64 (procname \"ARM\")"
    );
}

#[test]
fn wide_code_is_relocated_as_it_was_recovered() {
    let mut code = vec![0x90; 16];
    code[..5].copy_from_slice(&[0xe8, 1, 2, 3, 4]);
    let mut model = model(IdaArch::X86_64, 64, 0x1000);
    model.sections = vec![section(".text", 0x1000, 0x1010, SegClass::Code)];
    model.functions = vec![function(0x1000, 0x1010, "wide", false)];
    let pe = PeImage {
        arch: PeArch::X86_64,
        image_base: 0x1000,
        sections: vec![pe_section(".text", 0, 0x1000, code)],
        base_relocations: vec![],
    };
    let symbols = IdaSymbols::build(&model, &vec![]);
    let mut wide = no_wide();
    wide.insert(
        0x1000,
        WideRecovery {
            relocs: vec![WideReloc {
                offset: 1,
                target: "far_away".into(),
                addend: 0,
            }],
            instructions: 12,
            unresolved_calls: 2,
            unresolved_rip: 3,
        },
    );
    let groups = grouping(vec![("wide.o", of_functions(vec![0x1000]))]);
    let outcomes = split_by_groups(&model, &pe, &symbols, &groups, &wide, OutputFormat::Elf)
        .ok()
        .unwrap();
    let (bytes, stats) = outcomes[0].result.as_ref().ok().unwrap();
    assert_eq!(stats.instructions, 12);
    assert_eq!(stats.unresolved_calls, 2);
    assert_eq!(stats.unresolved_rip, 3);
    let file = object::File::parse(bytes.as_slice()).unwrap();
    assert_eq!(file.architecture(), object::Architecture::X86_64);
    assert_eq!(&section_data(bytes, ".text")[..5], &[0xe8, 0, 0, 0, 0]);
    let text = file.section_by_name(".text").unwrap();
    let (offset, relocation) = text.relocations().next().unwrap();
    assert_eq!(offset, 1);
    assert_eq!(relocation.addend(), -4);
    assert_eq!(
        relocation.flags(),
        object::RelocationFlags::Elf {
            r_type: object::elf::R_X86_64_PC32
        }
    );
    let target = file
        .symbols()
        .find(|symbol| symbol.name().unwrap() == "far_away")
        .unwrap();
    assert!(target.is_undefined());
}

/// A function that dispatches through a table behind its end.
fn switching_model() -> (IdaModel, PeImage) {
    let mut image = vec![0x90; 32];
    image[..7].copy_from_slice(&[0xFF, 0x24, 0x85, 0x10, 0x10, 0, 0]);
    image[16..20].copy_from_slice(&0x1002u32.to_le_bytes());
    image[20..24].copy_from_slice(&0x1007u32.to_le_bytes());
    let mut model = model(IdaArch::X86, 32, 0x1000);
    model.sections = vec![section(".text", 0x1000, 0x1020, SegClass::Code)];
    model.functions = vec![function(0x1000, 0x1008, "switch", true)];
    let pe = PeImage {
        arch: PeArch::X86,
        image_base: 0x1000,
        sections: vec![pe_section(".text", 0, 0x1000, image)],
        base_relocations: vec![],
    };
    (model, pe)
}

#[test]
fn switch_tables_are_emitted_with_their_function() {
    let (model, pe) = switching_model();
    let groups = grouping(vec![("switch.obj", of_functions(vec![0x1000]))]);
    let outcomes = split(&model, &pe, &groups, OutputFormat::Coff);
    let bytes = bytes_of(&outcomes, "switch.obj");
    let data = section_data(bytes, ".text");
    assert_eq!(data.len(), 24);
    assert_eq!(&data[..8], &[0xFF, 0x24, 0x85, 0, 0, 0, 0, 0x90]);
    assert_eq!(&data[8..], &[0x90, 0x90, 0x90, 0x90, 0x90, 0x90, 0x90, 0x90, 0, 0, 0, 0, 0, 0, 0, 0]);
    let file = object::File::parse(bytes).unwrap();
    let text = file.section_by_name(".text").unwrap();
    let fields: Vec<(u64, String)> = text
        .relocations()
        .map(|(offset, relocation)| {
            let object::RelocationTarget::Symbol(target) = relocation.target() else {
                panic!("relocation does not target a symbol");
            };
            let name = file.symbol_by_index(target).unwrap().name().unwrap();
            (offset, name.to_string())
        })
        .collect();
    assert_eq!(
        fields,
        vec![
            (3, "jpt_1010".to_string()),
            (16, "$L_1002".to_string()),
            (20, "$L_1007".to_string())
        ]
    );
    let label = file
        .symbols()
        .find(|symbol| symbol.name().unwrap() == "$L_1007")
        .unwrap();
    assert!(label.is_local());
    assert_eq!(label.address(), 7);
}

#[test]
fn code_is_what_the_tables_leave_over() {
    let (mut model, pe) = switching_model();
    model.functions[0].end = 0x1020;
    let symbols = IdaSymbols::build(&model, &vec![]);
    let owned = vec![];
    let names = names_in_order(&model);
    let wide = no_wide();
    let emitter = Emitter {
        model: &model,
        pe: &pe,
        symbols: &symbols,
        owned: &owned,
        names: &names,
        wide: &wide,
        format: OutputFormat::Coff,
    };
    let spans = emitter.code_of(&model.functions[0]).ok().unwrap();
    assert_eq!(
        spans,
        vec![
            Span {
                start: 0x1000,
                end: 0x1010
            },
            Span {
                start: 0x1018,
                end: 0x1020
            }
        ]
    );
}

#[test]
fn drafts_hold_external_functions_and_internal_labels() {
    let (model, pe) = switching_model();
    let symbols = IdaSymbols::build(&model, &vec![]);
    let owned = vec![];
    let names = names_in_order(&model);
    let wide = no_wide();
    let emitter = Emitter {
        model: &model,
        pe: &pe,
        symbols: &symbols,
        owned: &owned,
        names: &names,
        wide: &wide,
        format: OutputFormat::Coff,
    };
    let (draft, _) = emitter
        .draft_group(&of_functions(vec![0x1000]))
        .ok()
        .unwrap();
    let symbols: Vec<(&str, u64, u64, SymbolClass, Linkage)> = draft
        .symbols
        .iter()
        .map(|s| (s.name.as_str(), s.value, s.size, s.class, s.linkage))
        .collect();
    assert_eq!(
        symbols,
        vec![
            ("switch", 0, 24, SymbolClass::Function, Linkage::External),
            ("jpt_1010", 16, 0, SymbolClass::Label, Linkage::Internal),
            ("$L_1002", 2, 0, SymbolClass::Label, Linkage::Internal),
            ("$L_1007", 7, 0, SymbolClass::Label, Linkage::Internal),
        ]
    );
}

/// The addresses of the `.note.split` section by symbol name.
fn virtual_addresses(bytes: &[u8]) -> Vec<(String, u32)> {
    let note = section_data(bytes, ".note.split");
    let file = object::File::parse(bytes).unwrap();
    file.symbols()
        .map(|symbol| {
            let at = 20 + 4 * symbol.index().0;
            let mut field = [0u8; 4];
            field.copy_from_slice(&note[at..at + 4]);
            (
                symbol.name().unwrap().to_string(),
                u32::from_le_bytes(field),
            )
        })
        .collect()
}

#[test]
fn split_metadata_gives_the_original_address_of_each_symbol() {
    let (model, pe) = switching_model();
    let groups = grouping(vec![("switch.obj", of_functions(vec![0x1000]))]);
    let outcomes = split(&model, &pe, &groups, OutputFormat::Coff);
    let addresses = virtual_addresses(bytes_of(&outcomes, "switch.obj"));
    for (name, address) in [
        ("switch", 0x1000),
        ("jpt_1010", 0x1010),
        ("$L_1002", 0x1002),
        ("$L_1007", 0x1007),
    ] {
        assert!(addresses.contains(&(name.to_string(), address)));
    }

    let (model, pe) = calling_model();
    let groups = grouping(vec![("all.obj", of_functions(vec![0x401000, 0x401010]))]);
    let outcomes = split(&model, &pe, &groups, OutputFormat::Coff);
    let addresses = virtual_addresses(bytes_of(&outcomes, "all.obj"));
    assert!(addresses.contains(&("_main".to_string(), 0x401000)));
    assert!(addresses.contains(&("inside_main".to_string(), 0x401005)));
    assert!(addresses.contains(&("_helper".to_string(), 0x401010)));
}

#[test]
fn elf_objects_carry_split_metadata_too() {
    let (model, pe) = calling_model();
    let groups = grouping(vec![("main.o", of_functions(vec![0x401000]))]);
    let outcomes = split(&model, &pe, &groups, OutputFormat::Elf);
    let addresses = virtual_addresses(bytes_of(&outcomes, "main.o"));
    assert!(addresses.contains(&("_main".to_string(), 0x401000)));
    assert!(addresses.contains(&("_helper".to_string(), 0)));
}

#[test]
fn shared_data_without_a_grouping_holds_everything() {
    let (mut model, pe, _) = test_model();
    model.names = vec![name(0x1108, 4, "constant"), name(0x1204, 8, "variable")];
    let symbols = IdaSymbols::build(&model, &vec![]);
    let (shared, stats) = emit_shared(&model, &pe, &symbols, OutputFormat::Elf)
        .ok()
        .unwrap();
    assert_eq!(stats.const_bytes, 16);
    assert_eq!(stats.data_bytes, 32);
    assert_eq!(stats.bss_bytes, 0);
    assert_eq!(stats.text_bytes, 0);
    assert_eq!(section_data(&shared, ".rodata"), (0..0x10).collect::<Vec<_>>());
    assert_eq!(section_data(&shared, ".data"), (0x20..0x40).collect::<Vec<_>>());
    let file = object::File::parse(shared.as_slice()).unwrap();
    let variable = file
        .symbols()
        .find(|symbol| symbol.name().unwrap() == "variable")
        .unwrap();
    assert_eq!(variable.address(), 4);
    assert_eq!(variable.size(), 8);
    assert!(variable.is_global());
    assert!(file
        .symbols()
        .any(|symbol| symbol.name().unwrap() == "__delink_ida_const_start"));
}

#[test]
fn pointers_in_data_are_relocated() {
    let (model, pe, _) = test_model();
    let fixup = |addr: u64, size: u32, target: u64| Reloc {
        addr,
        kind: "OFF".into(),
        size,
        target,
    };
    let symbols = IdaSymbols::build(&model, &vec![fixup(0x1208, 8, 0x1104)]);
    let (shared, stats) = emit_shared(&model, &pe, &symbols, OutputFormat::Coff)
        .ok()
        .unwrap();
    assert_eq!(stats.relocations, 1);
    let data = section_data(&shared, ".data");
    // The field holds the distance from the start of the read-only data.
    assert_eq!(&data[8..16], &[4, 0, 0, 0, 0, 0, 0, 0]);
    assert_eq!(data[7], 0x27);
    assert_eq!(data[16], 0x30);

    let groups = grouping(vec![(
        "owner.obj",
        ObjectGroup {
            data: vec![DataRange([0x1200, 0x120c])],
            ..ObjectGroup::default()
        },
    )]);
    let outcomes = split_by_groups(
        &model,
        &pe,
        &symbols,
        &groups,
        &no_wide(),
        OutputFormat::Coff,
    )
    .ok()
    .unwrap();
    assert_eq!(
        error_of(&outcomes, "owner.obj"),
        "data split boundary intersects the relocation at 0x1208"
    );
}

#[test]
fn faulty_groupings_are_refused_as_a_whole() {
    let model = two_functions();
    let in_range = |start: u64, end: u64| ObjectGroup {
        function_ranges: vec![DataRange([start, end])],
        ..ObjectGroup::default()
    };
    let fault = |groups: Vec<(&str, ObjectGroup)>| -> String {
        prepare_groups(&model, &grouping(groups))
            .err()
            .unwrap()
            .message()
            .to_string()
    };
    assert_eq!(
        fault(vec![("one.obj", in_range(0x1010, 0x1010))]),
        "idapro \"one.obj\" function range [0x1010, 0x1010) is empty or reversed"
    );
    assert_eq!(
        fault(vec![("one.obj", in_range(0x1010, 0x1030))]),
        "idapro \"one.obj\" function range [0x1010, 0x1030) is not contained in a code section"
    );
    assert_eq!(
        fault(vec![
            ("one.obj", in_range(0x1000, 0x1008)),
            ("two.obj", in_range(0x1004, 0x1010))
        ]),
        "overlapping idapro function ranges: \"one.obj\" [0x1000, 0x1008) and \"two.obj\" [0x1004, 0x1010)"
    );
    assert_eq!(
        fault(vec![("one.obj", in_range(0x1000, 0x100c))]),
        "idapro \"one.obj\" function range [0x1000, 0x100c) cuts through function 'two' [0x1008, 0x1010)"
    );
    assert_eq!(
        fault(vec![
            ("one.obj", of_functions(vec![0x1000])),
            ("two.obj", in_range(0x1000, 0x1008))
        ]),
        "function address 0x1000 assigned to more than one idapro group"
    );
    let mut twice = in_range(0x1000, 0x1008);
    twice.functions = vec![0x1000];
    assert_eq!(
        fault(vec![("one.obj", twice)]),
        "function address 0x1000 assigned more than once in the same idapro group"
    );
}

#[test]
fn a_range_inside_a_long_function_is_refused() {
    let mut model = two_functions();
    model.functions = vec![
        function(0x1000, 0x1020, "outer", false),
        function(0x1002, 0x1004, "inner", false),
    ];
    let groups = grouping(vec![(
        "one.obj",
        ObjectGroup {
            function_ranges: vec![DataRange([0x1010, 0x1018])],
            ..ObjectGroup::default()
        },
    )]);
    let error = prepare_groups(&model, &groups).err().unwrap();
    assert!(error.message().contains("cuts through function 'outer'"));
}

#[test]
fn faulty_data_ranges_are_refused() {
    let (model, _, _) = test_model();
    let fault = |group: ObjectGroup| -> String {
        validate_data_ranges(&model, &grouping(vec![("one.obj", group)]))
            .err()
            .unwrap()
            .message()
            .to_string()
    };
    let empty = fault(ObjectGroup {
        data: vec![DataRange([0x1210, 0x1210])],
        ..ObjectGroup::default()
    });
    assert!(empty.contains("empty or reversed"));
    let outside = fault(ObjectGroup {
        rdata: vec![DataRange([0x1200, 0x1204])],
        ..ObjectGroup::default()
    });
    assert!(outside.contains("0x1200") && !outside.contains("overlapping"));
}

#[test]
fn anchors_name_the_ranges_that_objects_own() {
    let groups = grouping(vec![(
        "one.obj",
        ObjectGroup {
            rdata: vec![DataRange([0x1104, 0x1108])],
            data: vec![DataRange([0x1208, 0x1210])],
            bss: vec![DataRange([0x1218, 0x121a])],
            ..ObjectGroup::default()
        },
    )]);
    let owned = owned_data_ranges(&groups);
    let anchors: Vec<&str> = owned.iter().map(|o| o.anchor.as_str()).collect();
    assert_eq!(
        anchors,
        vec![
            "__delink_ida_rdata_0000000000001104",
            "__delink_ida_data_0000000000001208",
            "__delink_ida_bss_0000000000001218"
        ]
    );
}

#[test]
fn the_except_list_is_an_absolute_symbol() {
    let bytes = emit_except_list_symbol().ok().unwrap();
    let file = object::File::parse(bytes.as_slice()).unwrap();
    assert_eq!(file.architecture(), object::Architecture::I386);
    assert_eq!(file.sections().count(), 0);
    let symbol = file
        .symbols()
        .find(|symbol| symbol.name().unwrap() == "__except_list")
        .unwrap();
    assert_eq!(symbol.section(), object::SymbolSection::Absolute);
    assert_eq!(symbol.address(), 0);
    assert!(symbol.is_global());
}

#[test]
fn resources_of_mapped_or_missing_sections_are_left_out() {
    let (model, pe, _) = test_model();
    assert!(emit_pe_resources(&model, &pe).ok().unwrap().is_none());
    let mapped = PeImage {
        arch: PeArch::X86,
        image_base: 0x1000,
        sections: vec![pe_section(".rsrc", 0x100, 0x1100, vec![0; 16])],
        base_relocations: vec![],
    };
    assert!(emit_pe_resources(&model, &mapped).ok().unwrap().is_none());
}

/// A resource tree with one entry on each level.
fn resource_tree() -> Vec<u8> {
    let mut raw = vec![0u8; 92];
    raw[14] = 1;
    raw[16] = 10;
    raw[20..24].copy_from_slice(&0x8000_0018u32.to_le_bytes());
    raw[24 + 14] = 1;
    raw[40] = 1;
    raw[44..48].copy_from_slice(&0x8000_0030u32.to_le_bytes());
    raw[48 + 14] = 1;
    raw[64..68].copy_from_slice(&1033u32.to_le_bytes());
    raw[68..72].copy_from_slice(&72u32.to_le_bytes());
    raw[72..76].copy_from_slice(&0x158u32.to_le_bytes());
    raw[76..80].copy_from_slice(&4u32.to_le_bytes());
    raw[88..92].copy_from_slice(b"ABCD");
    raw
}

fn resource_fault(raw: Vec<u8>) -> String {
    let (mut model, _, _) = test_model();
    model.sections.clear();
    let pe = PeImage {
        arch: PeArch::X86,
        image_base: 0x1000,
        sections: vec![pe_section(".rsrc", 0x100, 0x1100, raw)],
        base_relocations: vec![],
    };
    emit_pe_resources(&model, &pe)
        .err()
        .unwrap()
        .message()
        .to_string()
}

#[test]
fn faulty_resource_trees_are_refused() {
    let mut raw = resource_tree();
    raw[20..24].copy_from_slice(&0x18u32.to_le_bytes());
    assert_eq!(resource_fault(raw), "PE resource directory ends early");
    let mut raw = resource_tree();
    raw[68..72].copy_from_slice(&0x8000_0048u32.to_le_bytes());
    assert_eq!(resource_fault(raw), "PE resource leaf is a directory");
    let mut raw = resource_tree();
    raw[76..80].copy_from_slice(&5u32.to_le_bytes());
    assert_eq!(resource_fault(raw), "PE resource payload is out of bounds");
    let mut raw = resource_tree();
    raw[64..68].copy_from_slice(&0x8000_0050u32.to_le_bytes());
    assert_eq!(resource_fault(raw), "named PE resource language");
    let mut raw = resource_tree();
    raw[20..24].copy_from_slice(&0x8000_0100u32.to_le_bytes());
    assert_eq!(resource_fault(raw), "resource record is out of bounds");
}

#[test]
fn resource_records_are_aligned_and_named() {
    let (mut model, _, _) = test_model();
    model.sections.clear();
    let mut raw = resource_tree();
    raw[16..20].copy_from_slice(&0x8000_0050u32.to_le_bytes());
    raw[80..84].copy_from_slice(&[1, 0, b'Z', 0]);
    let pe = PeImage {
        arch: PeArch::X86,
        image_base: 0x1000,
        sections: vec![pe_section(".rsrc", 0x100, 0x1100, raw)],
        base_relocations: vec![],
    };
    let (bytes, count) = emit_pe_resources(&model, &pe).ok().unwrap().unwrap();
    assert_eq!(count, 1);
    assert_eq!(
        &bytes[..32],
        &[
            0, 0, 0, 0, 32, 0, 0, 0, 0xff, 0xff, 0, 0, 0xff, 0xff, 0, 0, 0, 0, 0, 0, 0, 0, 0, 0, 0,
            0, 0, 0, 0, 0, 0, 0
        ]
    );
    assert_eq!(
        &bytes[32..],
        &[
            4, 0, 0, 0, 32, 0, 0, 0, b'Z', 0, 0, 0, 0xff, 0xff, 1, 0, 0, 0, 0, 0, 0, 0, 9, 4, 0, 0,
            0, 0, 0, 0, 0, 0, b'A', b'B', b'C', b'D'
        ]
    );
}
