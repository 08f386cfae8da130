use delink::emitter::EmitStats;
use delink::ranges::Span;
use delink::report::{
    contains_text, count_functions, list_rows, range_bytes, resolve_names, sum_outcomes,
    unit_functions, uses_debug_info, DebugInfoSource, Row, SymtabInfo,
};
use delink::text_map::TextMap;
use delink::units::{
    choose_source, count_emitted, emitted_functions, objects_json_from_index, regroup_index,
    text_coverage, GroupBy, Unit, UnitFunction, UnitSource,
};

fn function(name: &str, linkage_name: Option<&str>, addr: u64, size: u64) -> UnitFunction {
    UnitFunction {
        name: name.into(),
        linkage_name: linkage_name.map(|text| text.to_string()),
        addr,
        size,
    }
}

fn unit(id: usize, stem: &str, functions: Vec<UnitFunction>) -> Unit {
    Unit {
        id,
        name: format!("src/{stem}.cpp"),
        stem: stem.into(),
        ranges: vec![],
        functions,
        file_name: None,
    }
}

fn units() -> Vec<Unit> {
    vec![
        unit(
            7,
            "main",
            vec![
                function("second", Some("_Z6secondv"), 0x20, 8),
                function("first", None, 0x10, 4),
                function("inlined", None, 0x30, 0),
            ],
        ),
        unit(12345, "util", vec![function("helper", None, 0x40, 16)]),
        unit(9, "empty", vec![function("gone", None, 0x50, 0)]),
    ]
}

#[test]
fn units_with_code_are_emitted() {
    let units = units();
    assert_eq!(count_emitted(&units), 2);
    assert_eq!(count_functions(&units), 5);
    assert_eq!(text_coverage(&units), 28);
    let functions = emitted_functions(&units[0].functions);
    let names: Vec<&str> = functions.iter().map(|f| f.symbol_name().as_str()).collect();
    assert_eq!(names, vec!["first", "_Z6secondv"]);
    assert_eq!(unit_functions(&units, 12345).len(), 1);
    assert!(unit_functions(&units, 9).is_empty());
    assert!(unit_functions(&units, 1).is_empty());
}

#[test]
fn the_source_covers_the_most_code() {
    let units = units();
    let none: Vec<Unit> = vec![];
    let auto = |dwarf: &Vec<Unit>, groups: bool, coverage: u64| {
        choose_source(GroupBy::Auto, Some(dwarf), groups, coverage)
    };
    assert_eq!(auto(&units, true, 27).ok().unwrap(), UnitSource::Dwarf);
    assert_eq!(auto(&units, true, 28).ok().unwrap(), UnitSource::Symtab);
    assert_eq!(auto(&none, true, 0).ok().unwrap(), UnitSource::Symtab);
    assert_eq!(
        auto(&none, false, 0).err().unwrap().message(),
        "no usable .symtab: the binary appears stripped, and DWARF covers 0 bytes"
    );
    assert_eq!(
        choose_source(GroupBy::Dwarf, Some(&none), true, 100)
            .err()
            .unwrap()
            .message(),
        "no DWARF compilation units found; re-run with --group-by symtab"
    );
    assert_eq!(
        choose_source(GroupBy::Dwarf, None, true, 100)
            .err()
            .unwrap()
            .message(),
        "--group-by dwarf but no DWARF was indexed"
    );
    let source = choose_source(GroupBy::Symtab, Some(&units), false, 1)
        .ok()
        .unwrap();
    assert_eq!(source.label(), "symtab");
    assert_eq!(UnitSource::Dwarf.label(), "dwarf");
}

#[test]
fn an_unedited_grouping_keeps_the_functions_of_each_object() {
    let units = units();
    let json = objects_json_from_index(&units);
    let files: Vec<&str> = json.entries.iter().map(|(file, _)| file.as_str()).collect();
    assert_eq!(files, vec!["0007_main.o", "12345_util.o"]);
    assert_eq!(
        json.get("0007_main.o").unwrap().names,
        vec!["first", "_Z6secondv"]
    );
    let (regrouped, missing) = regroup_index(&units, &json);
    assert!(missing.is_empty());
    assert_eq!(regrouped.len(), 2);
    assert_eq!(regrouped[0].id, 0);
    assert_eq!(regrouped[0].name, "0007_main");
    assert_eq!(regrouped[0].file_name.as_deref(), Some("0007_main.o"));
    assert_eq!(
        regrouped[0].ranges,
        vec![
            Span {
                start: 0x10,
                end: 0x14
            },
            Span {
                start: 0x20,
                end: 0x28
            }
        ]
    );
    assert_eq!(regrouped[1].functions[0].symbol_name(), "helper");
}

#[test]
fn names_that_the_binary_lacks_are_reported() {
    let units = units();
    let mut json = objects_json_from_index(&units);
    let mut list = objects_json_from_index(&units)
        .entries
        .remove(1)
        .1;
    list.names = vec!["absent".into(), "first".into(), "second".into()];
    json.insert("merged".into(), list);
    let mut gone = objects_json_from_index(&units)
        .entries
        .remove(0)
        .1;
    gone.names = vec!["nothing".into()];
    json.insert("gone.o".into(), gone);
    let (regrouped, missing) = regroup_index(&units, &json);
    let lost: Vec<(&str, &str)> = missing
        .iter()
        .map(|m| (m.symbol.as_str(), m.file.as_str()))
        .collect();
    assert_eq!(
        lost,
        vec![
            ("nothing", "gone.o"),
            ("absent", "merged"),
            ("second", "merged")
        ]
    );
    assert_eq!(regrouped.len(), 3);
    assert_eq!(regrouped[2].id, 3);
    assert_eq!(regrouped[2].name, "merged");
    assert_eq!(regrouped[2].file_name.as_deref(), Some("merged.o"));
}

#[test]
fn listings_are_filtered_sorted_and_cut() {
    let row = |bytes: u64, name: &str| Row {
        bytes,
        functions: 1,
        name: name.into(),
    };
    let rows = vec![
        row(30, "lib/a.cpp"),
        row(10, "app/b.cpp"),
        row(20, "lib/c.cpp"),
        row(10, "lib/d.cpp"),
    ];
    let names = |part: &str, limit: usize| -> Vec<String> {
        list_rows(&rows, part, limit)
            .into_iter()
            .map(|r| r.name)
            .collect()
    };
    assert_eq!(names("lib", 2), vec!["lib/d.cpp", "lib/c.cpp"]);
    assert_eq!(
        names("", 20),
        vec!["app/b.cpp", "lib/d.cpp", "lib/c.cpp", "lib/a.cpp"]
    );
    assert!(names("zzz", 20).is_empty());
    assert!(contains_text("abcabd", "abd"));
    assert!(contains_text("", ""));
    assert!(!contains_text("ab", "abc"));
    assert_eq!(
        range_bytes(&vec![
            Span { start: 4, end: 10 },
            Span {
                start: 100,
                end: 101
            }
        ]),
        7
    );
}

#[test]
fn symbols_resolve_in_address_order() {
    let info = |addr: u64| SymtabInfo {
        addr,
        size: 4,
        n_type: 0xf,
        n_sect: 1,
        n_desc: 0,
        external: true,
        private_external: false,
    };
    let mut table: TextMap<SymtabInfo> = TextMap::new();
    table.insert("_b".into(), info(0x10));
    table.insert("_a".into(), info(0x20));
    let resolved = resolve_names(&vec!["_a".into(), "_missing".into(), "_b".into()], &table);
    let names: Vec<(&str, u64)> = resolved
        .iter()
        .map(|r| (r.name.as_str(), r.info.addr))
        .collect();
    assert_eq!(names, vec![("_b", 0x10), ("_a", 0x20)]);
    assert!(uses_debug_info(false, DebugInfoSource::Stabs));
    assert!(!uses_debug_info(false, DebugInfoSource::Symtab));
    assert!(!uses_debug_info(true, DebugInfoSource::Dwarf));
}

#[test]
fn totals_leave_out_what_failed() {
    let mut one = EmitStats::default();
    one.text_bytes = 5;
    one.relocations = 2;
    one.data_bytes = 100;
    let mut two = EmitStats::default();
    two.text_bytes = 7;
    two.unresolved_rip = 1;
    let totals = sum_outcomes(&vec![Some(one), None, Some(two)]);
    assert_eq!(totals.emitted, 2);
    assert_eq!(totals.failures, 1);
    assert_eq!(totals.stats.text_bytes, 12);
    assert_eq!(totals.stats.relocations, 2);
    assert_eq!(totals.stats.unresolved_rip, 1);
    assert_eq!(totals.stats.data_bytes, 0);
}
