use dwarf_to_json::lines::LocationInfo;
use dwarf_to_json::to_json::{attr_json, convert_debug_info_to_json, convert_expr, convert_scopes, encode_mappings, JsonValue};
use dwarf_to_json::{
    convert, fix_source_urls, read_debug_sections, DebugAttrValue, DwarfUnits, Error, FileName, LineRow, LineUnit,
    LocationRecord, WasmFormatError,
};

fn vlq_text(values: &[i64]) -> Vec<u8> {
    let mut out = Vec::new();
    for v in values {
        vlq::encode(*v, &mut out).unwrap();
    }
    out
}

fn row(address: u64, line: u64, column: u64, end_sequence: bool) -> LineRow {
    LineRow {
        address,
        file: Some(FileName { directory: Some("/src".to_string()), path_name: "a.rs".to_string() }),
        line,
        column,
        end_sequence,
    }
}

fn sample_units() -> DwarfUnits {
    DwarfUnits {
        lines: vec![LineUnit { comp_dir: None, rows: vec![row(10, 5, 3, false), row(20, 6, 1, false), row(21, 0, 0, true)] }],
        scopes: Vec::new(),
    }
}

fn leb(mut n: usize, out: &mut Vec<u8>) {
    loop {
        let b = (n & 0x7f) as u8;
        n >>= 7;
        if n == 0 {
            out.push(b);
            break;
        }
        out.push(b | 0x80);
    }
}

fn custom_section(name: &str, body: &[u8]) -> Vec<u8> {
    let mut inner = Vec::new();
    leb(name.len(), &mut inner);
    inner.extend_from_slice(name.as_bytes());
    inner.extend_from_slice(body);
    let mut s = vec![0u8];
    leb(inner.len(), &mut s);
    s.extend(inner);
    s
}

/// A module with the given custom sections and, where asked, an empty code
/// section whose body starts at the given offset.
fn module(customs: &[(&str, &[u8])], code_at: Option<usize>) -> Vec<u8> {
    let mut m = vec![0x00, 0x61, 0x73, 0x6d, 0x01, 0x00, 0x00, 0x00];
    for (name, body) in customs {
        m.extend(custom_section(name, body));
    }
    if let Some(at) = code_at {
        assert!(m.len() + 8 <= at);
        let mut k = 0;
        loop {
            let pad = custom_section("pad", &vec![0u8; k]);
            if m.len() + pad.len() + 2 == at {
                m.extend(pad);
                break;
            }
            k += 1;
        }
        m.extend_from_slice(&[10, 0]);
    }
    m
}

const REQUIRED: [&str; 4] = [".debug_str", ".debug_abbrev", ".debug_info", ".debug_line"];

fn required_module(code_at: Option<usize>) -> Vec<u8> {
    let customs: Vec<(&str, &[u8])> = REQUIRED.iter().map(|n| (*n, &[][..])).collect();
    module(&customs, code_at)
}

fn prefixes_section(json: &str) -> Vec<u8> {
    let mut b = vec![json.len() as u8];
    b.extend_from_slice(json.as_bytes());
    b
}

fn parse(bytes: &[u8]) -> serde_json::Value {
    serde_json::from_slice(bytes).unwrap()
}

#[test]
fn mappings_of_scenario() {
    let locs = vec![
        LocationRecord { address: 10, source_id: 0, line: 5, column: 3 },
        LocationRecord { address: 20, source_id: 0, line: 6, column: 1 },
    ];
    let text = encode_mappings(&locs, 1000).unwrap();
    let mut expected = vlq_text(&[1010, 0, 4, 2]);
    expected.push(b',');
    expected.extend(vlq_text(&[10, 0, 1, -2]));
    assert_eq!(text, expected);
}

#[test]
fn mappings_skip_records_without_line() {
    let locs = vec![
        LocationRecord { address: 5, source_id: 0, line: 0, column: 0 },
        LocationRecord { address: 10, source_id: 1, line: 1, column: 0 },
        LocationRecord { address: 12, source_id: 1, line: 0, column: 4 },
    ];
    assert_eq!(encode_mappings(&locs, 0).unwrap(), vlq_text(&[10, 1, 0, 0]));
    assert_eq!(encode_mappings(&Vec::new(), 0).unwrap(), Vec::<u8>::new());
}

#[test]
fn expression_hex() {
    assert_eq!(convert_expr(&vec![0x00, 0x9f, 0x0a, 0xff]), "009F0AFF");
    assert_eq!(convert_expr(&Vec::new()), "");
}

#[test]
fn attribute_json_forms() {
    assert!(matches!(attr_json(&DebugAttrValue::I64(-3)), JsonValue::Int(-3)));
    assert!(matches!(attr_json(&DebugAttrValue::Ignored), JsonValue::Str(s) if s == "<ignored>"));
    assert!(matches!(attr_json(&DebugAttrValue::Unknown), JsonValue::Str(s) if s == "???"));
    assert!(matches!(attr_json(&DebugAttrValue::Expression(vec![0xab])), JsonValue::Str(s) if s == "AB"));
    match attr_json(&DebugAttrValue::UIDRef(7, Some("f".to_string()))) {
        JsonValue::Object(fields) => {
            assert_eq!(fields.len(), 2);
            assert_eq!(fields[0].0, "uid");
            assert!(matches!(fields[0].1, JsonValue::Int(7)));
            assert_eq!(fields[1].0, "name");
        },
        _ => panic!("expected an object"),
    }
}

#[test]
fn scope_json_puts_tag_first() {
    let mut root = dwarf_to_json::DebugInfoObj {
        tag: "compile_unit".to_string(),
        attrs: vec![("uid".to_string(), DebugAttrValue::UID(11))],
        children: Vec::new(),
    };
    root.children.push(dwarf_to_json::DebugInfoObj { tag: "variable".to_string(), attrs: Vec::new(), children: Vec::new() });
    match convert_scopes(&vec![root]) {
        JsonValue::Array(items) => match &items[0] {
            JsonValue::Object(fields) => {
                let keys: Vec<&str> = fields.iter().map(|(k, _)| k.as_str()).collect();
                assert_eq!(keys, vec!["tag", "uid", "children"]);
            },
            _ => panic!("expected an object"),
        },
        _ => panic!("expected an array"),
    }
}

#[test]
fn source_url_prefix_rewritten() {
    let mut info = LocationInfo { sources: vec!["webpack:///./src/a.rs".to_string()], locations: Vec::new() };
    let section = prefixes_section(r#"[["webpack:///./", "file:///proj/"]]"#);
    assert!(fix_source_urls(&mut info, &section).is_ok());
    assert_eq!(info.sources, vec!["file:///proj/src/a.rs".to_string()]);
}

#[test]
fn first_matching_prefix_wins() {
    let mut info = LocationInfo { sources: vec!["a/b/c".to_string(), "x/y".to_string()], locations: Vec::new() };
    let section = prefixes_section(r#"[["a/", "1/"], ["a/b/", "2/"]]"#);
    assert!(fix_source_urls(&mut info, &section).is_ok());
    assert_eq!(info.sources, vec!["1/b/c".to_string(), "x/y".to_string()]);
}

#[test]
fn malformed_prefix_json_rewrites_nothing() {
    let mut info = LocationInfo { sources: vec!["a/b".to_string()], locations: Vec::new() };
    assert!(fix_source_urls(&mut info, &prefixes_section("not json")).is_ok());
    assert!(fix_source_urls(&mut info, &prefixes_section(r#"[["a/"]]"#)).is_ok());
    assert_eq!(info.sources, vec!["a/b".to_string()]);
}

#[test]
fn prefix_section_without_string_is_error() {
    let mut info = LocationInfo { sources: vec!["a/b".to_string()], locations: Vec::new() };
    assert_eq!(fix_source_urls(&mut info, &[9, b'x']), Err(WasmFormatError));
}

#[test]
fn end_to_end_scenario() {
    let json = convert(&required_module(Some(1000)), &sample_units(), false).ok().unwrap();
    let doc = parse(&json);
    let mut expected = vlq_text(&[1010, 0, 4, 2]);
    expected.push(b',');
    expected.extend(vlq_text(&[10, 0, 1, -2]));
    assert_eq!(doc["mappings"].as_str().unwrap().as_bytes(), &expected[..]);
    assert_eq!(doc["version"].as_i64(), Some(3));
    assert_eq!(doc["sources"][0].as_str(), Some("/src/a.rs"));
    assert_eq!(doc["names"].as_array().unwrap().len(), 0);
}

#[test]
fn key_order_and_no_scopes_when_not_asked() {
    let json = convert(&required_module(Some(1000)), &sample_units(), false).ok().unwrap();
    let doc = parse(&json);
    let keys: Vec<&String> = doc.as_object().unwrap().keys().collect();
    assert_eq!(keys, vec!["version", "sources", "names", "mappings"]);
    assert!(!String::from_utf8(json).unwrap().contains("x-scopes"));
}

#[test]
fn scopes_when_asked() {
    let json = convert(&required_module(Some(1000)), &sample_units(), true).ok().unwrap();
    let doc = parse(&json);
    let keys: Vec<&String> = doc.as_object().unwrap().keys().collect();
    assert_eq!(keys, vec!["version", "sources", "names", "mappings", "x-scopes"]);
    assert_eq!(doc["x-scopes"]["code_section_offset"].as_i64(), Some(1000));
    assert_eq!(doc["x-scopes"]["debug_info"].as_array().unwrap().len(), 0);
    assert_eq!(doc["x-scopes"]["debug_info"].as_array().unwrap().len(), 0);
}

#[test]
fn conversion_is_deterministic() {
    let a = convert(&required_module(Some(1000)), &sample_units(), true).ok().unwrap();
    let b = convert(&required_module(Some(1000)), &sample_units(), true).ok().unwrap();
    assert_eq!(a, b);
}

#[test]
fn missing_section_is_data_format() {
    let m = module(&[(".debug_str", &[][..]), (".debug_info", &[][..]), (".debug_line", &[][..])], None);
    assert_eq!(convert(&m, &sample_units(), false).err(), Some(Error::DataFormat));
}

#[test]
fn url_prefixes_applied_in_conversion() {
    let body = prefixes_section(r#"[["/src/", "file:///p/"]]"#);
    let mut customs: Vec<(&str, &[u8])> = REQUIRED.iter().map(|n| (*n, &[][..])).collect();
    customs.push(("sourceURLPrefixes", &body[..]));
    let json = convert(&module(&customs, None), &sample_units(), false).ok().unwrap();
    assert_eq!(parse(&json)["sources"][0].as_str(), Some("file:///p/a.rs"));
}

#[test]
fn truncated_module_gives_wasm_error() {
    let m = vec![0x00, 0x61, 0x73, 0x6d, 0x01, 0x00, 0x00, 0x00, 0, 20, 3, b'a', b'b'];
    assert_eq!(read_debug_sections(&m).err(), Some(WasmFormatError));
    let mut t = vec![0x00, 0x61, 0x73, 0x6d, 0x01, 0x00, 0x00, 0x00, 0x00, 0x10, 0x0b];
    t.extend_from_slice(b".debug_info");
    t.push(0x01);
    assert_eq!(convert(&t, &sample_units(), false).err(), Some(Error::WasmError));
    assert_eq!(convert(&t, &sample_units(), true).err(), Some(Error::WasmError));
}

#[test]
fn mapping_text_of_sample() {
    let di = LocationInfo {
        sources: vec!["a".to_string()],
        locations: vec![
            LocationRecord { address: 10, source_id: 0, line: 5, column: 3 },
            LocationRecord { address: 20, source_id: 0, line: 6, column: 1 },
        ],
    };
    let json = convert_debug_info_to_json(&di, None, 1000).ok().unwrap();
    let doc = parse(&json);
    assert_eq!(doc["mappings"].as_str(), Some("k/BAIE,UACF"));
    assert_eq!(doc["sources"][0].as_str(), Some("a"));
}

#[test]
fn malformed_prefix_section_is_wasm_error_in_conversion() {
    let body = vec![9u8, b'['];
    let mut customs: Vec<(&str, &[u8])> = REQUIRED.iter().map(|n| (*n, &[][..])).collect();
    customs.push(("sourceURLPrefixes", &body[..]));
    assert_eq!(convert(&module(&customs, None), &sample_units(), false).err(), Some(Error::WasmError));
}
