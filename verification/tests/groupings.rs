use delink::addresses::{
    address_string, group_strings, parse_address, parse_group, parse_range,
    range_strings, GroupInput,
};
use delink::export::SizeValue;
use delink::format::OutputFormat;
use delink::groups::{
    filename_fits, generate, sanitize_filename, try_generate, try_sanitize_filename, DataRange,
    IdaproJson, ObjectGroup,
};
use delink::model::{Function, IdaArch, IdaModel};
use delink::report::{choose_format, shared_file_name};
use delink::text_map::TextMap;
use serde_json::Value;

fn size_value(value: &Value) -> SizeValue {
    match value {
        Value::String(text) => SizeValue::Text(text.clone()),
        Value::Number(number) => match number.as_u64() {
            Some(v) => SizeValue::Unsigned(v),
            None => SizeValue::OtherNumber,
        },
        _ => SizeValue::Other,
    }
}

fn values(value: &Value) -> Vec<SizeValue> {
    match value {
        Value::Array(items) => items.iter().map(size_value).collect(),
        _ => vec![],
    }
}

fn lists(value: &Value) -> Vec<Vec<SizeValue>> {
    match value {
        Value::Array(items) => items.iter().map(values).collect(),
        _ => vec![],
    }
}

fn read(text: &str) -> IdaproJson {
    let value: Value = serde_json::from_str(text).unwrap();
    let mut json: IdaproJson = TextMap::new();
    for (file, group) in value.as_object().unwrap() {
        let input = if group.is_array() {
            GroupInput::Functions(values(group))
        } else {
            GroupInput::Detailed {
                functions: values(&group["functions"]),
                function_ranges: lists(&group["function_ranges"]),
                rdata: lists(&group["rdata"]),
                data: lists(&group["data"]),
                bss: lists(&group["bss"]),
            }
        };
        json.insert(file.clone(), parse_group(&input).ok().unwrap());
    }
    json
}

#[test]
fn accepts_legacy_function_arrays() {
    let json = read(r#"{"one.obj":[4096,8192]}"#);
    let group = json.get("one.obj").unwrap();
    assert_eq!(group.functions, vec![4096, 8192]);
    assert!(group.rdata.is_empty());
    assert!(group.bss.is_empty());
    assert!(group.function_ranges.is_empty());
}

#[test]
fn accepts_data_ranges() {
    let json = read(
        r#"{"one.obj":{"functions":[4096],"function_ranges":[[4097,8192]],"rdata":[[8192,8208]],"data":[[12288,12320]],"bss":[[16384,16400]]}}"#,
    );
    let group = json.get("one.obj").unwrap();
    assert_eq!(group.rdata[0].range(), 8192..8208);
    assert_eq!(group.data[0].range(), 12288..12320);
    assert_eq!(group.function_ranges[0].range(), 4097..8192);
    assert_eq!(group.bss[0].range(), 16384..16400);
}

#[test]
fn accepts_hexadecimal_addresses() {
    let json = read(r#"{"one.obj":{"functions":["0x1000"],"rdata":[["0x2000","0x2010"]]}}"#);
    let group = json.get("one.obj").unwrap();
    assert_eq!(group.functions, vec![0x1000]);
    assert_eq!(group.rdata[0].range(), 0x2000..0x2010);
}

#[test]
fn serializes_the_editable_data_fields() {
    let mut json: IdaproJson = TextMap::new();
    json.insert(
        "one.obj".to_string(),
        ObjectGroup {
            functions: vec![4096],
            ..ObjectGroup::default()
        },
    );
    let texts = group_strings(json.get("one.obj").unwrap());
    let none: Vec<Vec<String>> = vec![];
    assert_eq!(texts.functions, vec!["0x1000"]);
    assert_eq!(texts.function_ranges, none);
    assert_eq!(texts.rdata, none);
    assert_eq!(texts.data, none);
    assert_eq!(texts.bss, none);
}

fn text_values(texts: &[String]) -> Vec<SizeValue> {
    texts
        .iter()
        .map(|text| SizeValue::Text(text.clone()))
        .collect()
}

fn text_value_lists(lists: &[Vec<String>]) -> Vec<Vec<SizeValue>> {
    lists.iter().map(|texts| text_values(texts)).collect()
}

#[test]
fn groups_read_back_as_they_were_written() {
    let group = ObjectGroup {
        functions: vec![0x401000, 0x4010AB],
        function_ranges: vec![DataRange([0x401000, 0x401100])],
        rdata: vec![DataRange([0x402000, 0x402010]), DataRange([0x402040, 0x402044])],
        data: vec![DataRange([0x403000, 0x403020])],
        bss: vec![DataRange([0x404000, 0xFFFF_FFFF_FFFF_FFFF])],
    };
    let texts = group_strings(&group);
    assert_eq!(texts.functions, vec!["0x401000", "0x4010AB"]);
    assert_eq!(texts.function_ranges, vec![vec!["0x401000", "0x401100"]]);
    assert_eq!(
        texts.rdata,
        vec![vec!["0x402000", "0x402010"], vec!["0x402040", "0x402044"]]
    );
    assert_eq!(texts.data, vec![vec!["0x403000", "0x403020"]]);
    assert_eq!(texts.bss, vec![vec!["0x404000", "0xFFFFFFFFFFFFFFFF"]]);
    let input = GroupInput::Detailed {
        functions: text_values(&texts.functions),
        function_ranges: text_value_lists(&texts.function_ranges),
        rdata: text_value_lists(&texts.rdata),
        data: text_value_lists(&texts.data),
        bss: text_value_lists(&texts.bss),
    };
    let read = parse_group(&input).ok().unwrap();
    assert_eq!(read.functions, group.functions);
    assert_eq!(read.function_ranges, group.function_ranges);
    assert_eq!(read.rdata, group.rdata);
    assert_eq!(read.data, group.data);
    assert_eq!(read.bss, group.bss);
}

#[test]
fn serializes_ranges_as_hexadecimal_strings() {
    let range = DataRange([0x401000, 0x401010]);
    assert_eq!(range_strings(range), vec!["0x401000", "0x401010"]);
}

#[test]
fn addresses_read_back_as_they_were_written() {
    for address in [0, 9, 0xa, 0x401000, 0xDEAD_BEEF, u64::MAX] {
        let text = address_string(address);
        assert_eq!(
            parse_address(&SizeValue::Text(text)).ok().unwrap(),
            address
        );
    }
    assert_eq!(address_string(0xDEAD_BEEF), "0xDEADBEEF");
}

#[test]
fn faulty_addresses_are_refused() {
    let fault = |value: SizeValue| parse_address(&value).err().unwrap().message().to_string();
    let text = |text: &str| SizeValue::Text(text.to_string());
    assert_eq!(fault(text("1000")), "address must be hexadecimal");
    assert_eq!(
        fault(text("0x")),
        "cannot parse integer from empty string"
    );
    assert_eq!(fault(text("0x+")), "invalid digit found in string");
    assert_eq!(fault(text("0x1g")), "invalid digit found in string");
    assert_eq!(
        fault(text("0X10000000000000000")),
        "number too large to fit in target type"
    );
    assert_eq!(
        fault(text("0x10000000000000000g")),
        "number too large to fit in target type"
    );
    assert_eq!(parse_address(&text("0x+1f")).ok().unwrap(), 0x1f);
    assert_eq!(
        fault(SizeValue::OtherNumber),
        "address must be nonnegative"
    );
    assert_eq!(
        fault(SizeValue::Other),
        "address must be hexadecimal or an integer"
    );
}

#[test]
fn faulty_texts_are_those_of_the_standard_library() {
    for digits in ["", "+", "-", "1g", "g", "10000000000000000", "fffffffffffffffff_"] {
        let error = u64::from_str_radix(digits, 16).err().unwrap().to_string();
        let value = SizeValue::Text(format!("0x{digits}"));
        assert_eq!(parse_address(&value).err().unwrap().message(), error);
    }
}

#[test]
fn ranges_have_two_bounds() {
    for values in [vec![], vec![1], vec![1, 2, 3]] {
        assert_eq!(
            parse_range(&values).err().unwrap().message(),
            "address range must contain two values"
        );
    }
    assert_eq!(parse_range(&vec![1, 2]).ok().unwrap(), DataRange([1, 2]));
}

fn model(functions: Vec<(u64, u64, &str)>) -> IdaModel {
    IdaModel {
        arch: IdaArch::X86,
        procname: "metapc".into(),
        bits: 32,
        little_endian: true,
        image_base: 0x400000,
        filetype: "PE".into(),
        input_file: "test.exe".into(),
        sections: vec![],
        functions: functions
            .into_iter()
            .map(|(start, end, name)| Function {
                start,
                end,
                name: name.into(),
                thunk: false,
                lib: false,
                is_static: false,
                public: true,
            })
            .collect(),
        names: vec![],
        relocations: vec![],
        jump_tables: vec![],
    }
}

#[test]
fn every_function_gets_a_group() {
    let model = model(vec![
        (0x1000, 0x1010, "sub_1000"),
        (0x1010, 0x1010, "empty"),
        (0x1020, 0x1030, "?f@@YAXXZ"),
        (0x1030, 0x1040, "__sub_1000"),
    ]);
    let json = try_generate(&model, "obj").unwrap();
    let files: Vec<&str> = json.entries.iter().map(|(file, _)| file.as_str()).collect();
    assert_eq!(
        files,
        vec!["f__YAXXZ.obj", "sub_1000.obj", "sub_1000_1030.obj"]
    );
    assert_eq!(json.get("sub_1000.obj").unwrap().functions, vec![0x1000]);
    assert_eq!(
        json.get("sub_1000_1030.obj").unwrap().functions,
        vec![0x1030]
    );
    assert_eq!(json.get("f__YAXXZ.obj").unwrap().functions, vec![0x1020]);
    assert!(json.get("empty.obj").is_none());
    assert_eq!(generate(&model, "o").entries.len(), 3);
}

#[test]
fn default_files_hold_one_function_each() {
    // The name of the second function is what the third would get.
    let model = model(vec![
        (0x1000, 0x1010, "f"),
        (0x1010, 0x1020, "f_1abc"),
        (0x1abc, 0x1ac0, "_f"),
        (0x1abc, 0x1ac0, "?f"),
        (0x2000, 0x2010, "???"),
        (0x2010, 0x2020, ""),
    ]);
    let json = generate(&model, "o");
    let files: Vec<(&str, u64)> = json
        .entries
        .iter()
        .map(|(file, group)| (file.as_str(), group.functions[0]))
        .collect();
    assert_eq!(
        files,
        vec![
            ("f.o", 0x1000),
            ("f_1abc.o", 0x1010),
            ("f_1abc_.o", 0x1abc),
            ("f_1abc__.o", 0x1abc),
            ("unknown.o", 0x2000),
            ("unknown_2010.o", 0x2010),
        ]
    );
    for (_, group) in &json.entries {
        assert_eq!(group.functions.len(), 1);
    }
}

#[test]
fn file_names_stay_as_they_are_when_made_again() {
    for name in ["a b:c-d.e_f", "._.hidden", "???", "", "größe", "-x-", "x"] {
        let once = sanitize_filename(name);
        assert!(!once.is_empty() && once.len() <= 200);
        assert!(!once.starts_with(['_', '.']));
        assert_eq!(sanitize_filename(&once), once);
    }
    let long = sanitize_filename(&"._x".repeat(300));
    assert_eq!(long.len(), 200);
    assert_eq!(sanitize_filename(&long), long);
}

#[test]
fn file_names_are_safe_and_short() {
    assert_eq!(sanitize_filename("a b:c-d.e_f"), "a_b_c-d.e_f");
    assert_eq!(sanitize_filename("._.hidden"), "hidden");
    assert_eq!(sanitize_filename("???"), "unknown");
    assert_eq!(sanitize_filename(""), "unknown");
    assert_eq!(sanitize_filename("größe"), "größe");
    assert_eq!(sanitize_filename(&"x".repeat(300)), "x".repeat(200));
    // A character of two bytes over the limit cannot be cut.
    let split = format!("{}ß", "x".repeat(199));
    assert!(!filename_fits(&split));
    assert!(try_sanitize_filename(&split).is_none());
    assert_eq!(
        try_sanitize_filename(&"ß".repeat(150)).unwrap(),
        "ß".repeat(100)
    );
}

#[test]
fn output_formats_follow_the_arguments() {
    assert_eq!(choose_format(false, false, "PE"), OutputFormat::Coff);
    assert_eq!(choose_format(false, false, "ELF"), OutputFormat::Elf);
    assert_eq!(choose_format(false, false, "MACHO"), OutputFormat::Elf);
    assert_eq!(choose_format(false, false, "elf"), OutputFormat::Coff);
    assert_eq!(choose_format(true, false, "PE"), OutputFormat::Elf);
    assert_eq!(choose_format(false, true, "ELF"), OutputFormat::Coff);
    assert_eq!(shared_file_name(OutputFormat::Coff), "__shared_data.obj");
    assert_eq!(shared_file_name(OutputFormat::Elf), "__shared_data.o");
}
