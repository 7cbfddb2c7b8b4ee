use dwarf_to_json::scopes::{decode_data2, decode_data4, enum_to_str, get_source_id, remove_dead_functions};
use dwarf_to_json::{
    get_debug_scopes, DebugAttrValue, DebugInfoObj, FileName, RawAttr, RawAttrValue, RawEntry, ScopeUnit,
};

fn attr(name: &str, value: RawAttrValue) -> RawAttr {
    RawAttr { name: Some(format!("DW_AT_{}", name)), value }
}

fn entry(depth_delta: i64, offset: usize, tag: &str, attrs: Vec<RawAttr>) -> RawEntry {
    RawEntry { depth_delta, offset, tag: Some(format!("DW_TAG_{}", tag)), attrs }
}

fn unit(entries: Vec<RawEntry>) -> ScopeUnit {
    ScopeUnit {
        comp_dir: Some("/work".to_string()),
        files: Some(vec![None, Some(FileName { directory: Some("src".to_string()), path_name: "lib.rs".to_string() })]),
        entries,
    }
}

fn get<'a>(o: &'a DebugInfoObj, name: &str) -> Option<&'a DebugAttrValue> {
    o.attrs.iter().find(|(n, _)| n == name).map(|(_, v)| v)
}

fn int_attr(o: &DebugInfoObj, name: &str) -> Option<i64> {
    match get(o, name) {
        Some(DebugAttrValue::I64(v)) => Some(*v),
        _ => None,
    }
}

fn node(tag: &str, attrs: Vec<(&str, DebugAttrValue)>) -> DebugInfoObj {
    DebugInfoObj {
        tag: tag.to_string(),
        attrs: attrs.into_iter().map(|(n, v)| (n.to_string(), v)).collect(),
        children: Vec::new(),
    }
}

#[test]
fn little_endian_data() {
    assert_eq!(decode_data2(&[0x34, 0x12]), 0x1234);
    assert_eq!(decode_data4(&[0x78, 0x56, 0x34, 0x12]), 0x1234_5678);
    assert_eq!(decode_data4(&[0xff, 0xff, 0xff, 0xff]), 0xffff_ffff);
}

#[test]
fn constant_short_names() {
    match enum_to_str(&Some("DW_ATE_signed".to_string())) {
        Ok(DebugAttrValue::String(s)) => assert_eq!(s, "signed"),
        _ => panic!("expected a name"),
    }
    match enum_to_str(&Some("DW_LANG_C_plus_plus".to_string())) {
        Ok(DebugAttrValue::String(s)) => assert_eq!(s, "C_plus_plus"),
        _ => panic!("expected a name"),
    }
    assert!(matches!(enum_to_str(&Some("DW_ATE".to_string())), Err(dwarf_to_json::dwarf::Error::DataFormat)));
    assert!(matches!(enum_to_str(&None), Err(dwarf_to_json::dwarf::Error::DataFormat)));
}

#[test]
fn file_index_resolution() {
    let u = unit(Vec::new());
    let mut sources = vec!["other".to_string()];
    assert_eq!(get_source_id(&mut sources, &u, 0), Ok(None));
    assert_eq!(get_source_id(&mut sources, &u, 1), Ok(Some(1)));
    assert_eq!(sources, vec!["other".to_string(), "/work/src/lib.rs".to_string()]);
    assert_eq!(get_source_id(&mut sources, &u, 1), Ok(Some(1)));
    assert_eq!(sources.len(), 2);
    assert_eq!(get_source_id(&mut sources, &u, 5), Err(dwarf_to_json::dwarf::Error::MissingDwarfEntry));
    let no_program = ScopeUnit { comp_dir: None, files: None, entries: Vec::new() };
    assert_eq!(get_source_id(&mut sources, &no_program, 1), Err(dwarf_to_json::dwarf::Error::MissingDwarfEntry));
}

#[test]
fn tree_follows_depth_deltas() {
    let u = unit(vec![
        entry(0, 11, "compile_unit", vec![attr("name", RawAttrValue::Str("a.rs".to_string()))]),
        entry(1, 20, "subprogram", vec![
            attr("low_pc", RawAttrValue::Addr(1000)),
            attr("high_pc", RawAttrValue::Udata(50)),
            attr("decl_file", RawAttrValue::FileIndex(1)),
        ]),
        entry(1, 30, "variable", vec![attr("external", RawAttrValue::Flag(true))]),
        entry(-1, 40, "base_type", vec![attr("encoding", RawAttrValue::Constant(Some("DW_ATE_signed".to_string())))]),
    ]);
    let mut sources = Vec::new();
    let forest = get_debug_scopes(&vec![u], &mut sources).ok().unwrap();
    assert_eq!(forest.len(), 1);
    let cu = &forest[0];
    assert_eq!(cu.tag, "compile_unit");
    assert!(matches!(get(cu, "uid"), Some(DebugAttrValue::UID(11))));
    assert_eq!(cu.children.len(), 2);
    let sub = &cu.children[0];
    assert_eq!(sub.tag, "subprogram");
    assert_eq!(int_attr(sub, "low_pc"), Some(1000));
    assert_eq!(int_attr(sub, "high_pc"), Some(1050));
    assert_eq!(int_attr(sub, "decl_file"), Some(0));
    assert_eq!(sources, vec!["/work/src/lib.rs".to_string()]);
    assert_eq!(sub.children.len(), 1);
    assert!(matches!(get(&sub.children[0], "external"), Some(DebugAttrValue::Bool(true))));
    let ty = &cu.children[1];
    assert_eq!(ty.tag, "base_type");
    match get(ty, "encoding") {
        Some(DebugAttrValue::String(s)) => assert_eq!(s, "signed"),
        _ => panic!("expected a constant name"),
    }
}

#[test]
fn attribute_forms() {
    let u = unit(vec![entry(0, 1, "compile_unit", vec![
        attr("a", RawAttrValue::Data1(7)),
        attr("b", RawAttrValue::Data2([1, 1])),
        attr("c", RawAttrValue::Sdata(-5)),
        attr("d", RawAttrValue::DebugInfoRef),
        attr("e", RawAttrValue::Other),
        attr("f", RawAttrValue::UnitRef(64, None, Some("main".to_string()))),
        attr("g", RawAttrValue::Exprloc(vec![0x91, 0x08])),
        attr("h", RawAttrValue::RangeList(vec![(10, 20)])),
        attr("i", RawAttrValue::FileIndex(0)),
    ])]);
    let mut sources = Vec::new();
    let forest = get_debug_scopes(&vec![u], &mut sources).ok().unwrap();
    let cu = &forest[0];
    assert_eq!(int_attr(cu, "a"), Some(7));
    assert_eq!(int_attr(cu, "b"), Some(257));
    assert_eq!(int_attr(cu, "c"), Some(-5));
    assert!(matches!(get(cu, "d"), Some(DebugAttrValue::Ignored)));
    assert!(matches!(get(cu, "e"), Some(DebugAttrValue::Unknown)));
    match get(cu, "f") {
        Some(DebugAttrValue::UIDRef(64, Some(n))) => assert_eq!(n, "main"),
        _ => panic!("expected a reference"),
    }
    assert!(matches!(get(cu, "g"), Some(DebugAttrValue::Expression(e)) if e == &vec![0x91, 0x08]));
    assert!(matches!(get(cu, "h"), Some(DebugAttrValue::Ranges(r)) if r == &vec![(10, 20)]));
    assert_eq!(int_attr(cu, "i"), Some(-1));
    assert!(sources.is_empty());
}

#[test]
fn missing_file_entry_fails() {
    let u = unit(vec![entry(0, 1, "compile_unit", vec![attr("decl_file", RawAttrValue::FileIndex(9))])]);
    let mut sources = Vec::new();
    assert_eq!(get_debug_scopes(&vec![u], &mut sources).err(), Some(dwarf_to_json::dwarf::Error::MissingDwarfEntry));
}

#[test]
fn dead_subprogram_is_removed() {
    let items = vec![
        node("subprogram", vec![("low_pc", DebugAttrValue::I64(1)), ("high_pc", DebugAttrValue::I64(300))]),
        node("subprogram", vec![("low_pc", DebugAttrValue::I64(100)), ("high_pc", DebugAttrValue::I64(110))]),
        node("variable", vec![("low_pc", DebugAttrValue::I64(1)), ("high_pc", DebugAttrValue::I64(300))]),
    ];
    let kept = remove_dead_functions(items);
    assert_eq!(kept.len(), 2);
    assert_eq!(int_attr(&kept[0], "low_pc"), Some(100));
    assert_eq!(kept[1].tag, "variable");
}

#[test]
fn dead_inlined_subprogram_loses_its_addresses() {
    let items = vec![node("subprogram", vec![
        ("low_pc", DebugAttrValue::I64(1)),
        ("high_pc", DebugAttrValue::I64(300)),
        ("inline", DebugAttrValue::String("inlined".to_string())),
    ])];
    let kept = remove_dead_functions(items);
    assert_eq!(kept.len(), 1);
    assert!(get(&kept[0], "low_pc").is_none());
    assert!(get(&kept[0], "high_pc").is_none());
    assert!(get(&kept[0], "inline").is_some());
}

#[test]
fn dead_ranges_are_filtered() {
    let mut parent = node("lexical_block", vec![]);
    parent.children.push(node("subprogram", vec![("ranges", DebugAttrValue::Ranges(vec![(1, 300), (500, 520)]))]));
    parent.children.push(node("subprogram", vec![("ranges", DebugAttrValue::Ranges(vec![(1, 300)]))]));
    let kept = remove_dead_functions(vec![parent]);
    assert_eq!(kept.len(), 1);
    assert_eq!(kept[0].children.len(), 1);
    assert!(matches!(get(&kept[0].children[0], "ranges"), Some(DebugAttrValue::Ranges(r)) if r == &vec![(500, 520)]));
}

#[test]
fn dead_subprogram_pruned_from_unit_tree() {
    let u = unit(vec![
        entry(0, 11, "compile_unit", Vec::new()),
        entry(1, 20, "subprogram", vec![attr("low_pc", RawAttrValue::Addr(1)), attr("high_pc", RawAttrValue::Udata(299))]),
        entry(0, 30, "subprogram", vec![attr("low_pc", RawAttrValue::Addr(500)), attr("high_pc", RawAttrValue::Udata(20))]),
    ]);
    let mut sources = Vec::new();
    let forest = get_debug_scopes(&vec![u], &mut sources).ok().unwrap();
    assert_eq!(forest.len(), 1);
    assert_eq!(forest[0].children.len(), 1);
    assert_eq!(int_attr(&forest[0].children[0], "low_pc"), Some(500));
}

#[test]
fn inlined_dead_subprogram_children_are_pruned() {
    let mut parent = node("subprogram", vec![
        ("low_pc", DebugAttrValue::I64(1)),
        ("high_pc", DebugAttrValue::I64(300)),
        ("inline", DebugAttrValue::String("inlined".to_string())),
    ]);
    parent.children.push(node("subprogram", vec![("low_pc", DebugAttrValue::I64(2)), ("high_pc", DebugAttrValue::I64(400))]));
    parent.children.push(node("variable", vec![]));
    let kept = remove_dead_functions(vec![parent]);
    assert_eq!(kept.len(), 1);
    assert!(get(&kept[0], "low_pc").is_none());
    assert_eq!(kept[0].children.len(), 1);
    assert_eq!(kept[0].children[0].tag, "variable");
}

#[test]
fn second_pass_changes_nothing() {
    let items = vec![
        node("subprogram", vec![("low_pc", DebugAttrValue::I64(1)), ("high_pc", DebugAttrValue::I64(300))]),
        node("subprogram", vec![("ranges", DebugAttrValue::Ranges(vec![(1, 300), (500, 520)]))]),
    ];
    let once = remove_dead_functions(items);
    assert_eq!(once.len(), 1);
    let tags: Vec<String> = once.iter().map(|o| o.tag.clone()).collect();
    let twice = remove_dead_functions(once);
    assert_eq!(twice.iter().map(|o| o.tag.clone()).collect::<Vec<String>>(), tags);
    assert!(matches!(get(&twice[0], "ranges"), Some(DebugAttrValue::Ranges(r)) if r == &vec![(500, 520)]));
}
