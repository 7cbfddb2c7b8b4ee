use dwarf_to_json::lines::finish_sequence;
use dwarf_to_json::liveness::{is_out_of_range, size_field_bytes};
use dwarf_to_json::{get_debug_loc, FileName, LineRow, LineUnit, LocationRecord};

fn row(address: u64, line: u64, column: u64, end_sequence: bool) -> LineRow {
    LineRow {
        address,
        file: Some(FileName { directory: Some("src".to_string()), path_name: "main.rs".to_string() }),
        line,
        column,
        end_sequence,
    }
}

fn required<'a>() -> Vec<(&'a str, &'a [u8])> {
    vec![(".debug_str", &[][..]), (".debug_abbrev", &[][..]), (".debug_info", &[][..]), (".debug_line", &[][..])]
}

fn rec(address: u64, line: u32) -> LocationRecord {
    LocationRecord { address, source_id: 0, line, column: 0 }
}

#[test]
fn size_field_lengths() {
    assert_eq!(size_field_bytes(0), 0);
    assert_eq!(size_field_bytes(10), 1);
    assert_eq!(size_field_bytes(127), 1);
    assert_eq!(size_field_bytes(128), 2);
    assert_eq!(size_field_bytes(16383), 2);
    assert_eq!(size_field_bytes(16384), 3);
    assert_eq!(size_field_bytes(0xffff_ffff), 5);
}

#[test]
fn live_function_far_from_size_field() {
    assert!(!is_out_of_range(100, 110));
}

#[test]
fn dead_function_inside_two_byte_size_field() {
    assert!(is_out_of_range(1, 1 + 200));
    assert!(is_out_of_range(2, 2 + 200));
    assert!(!is_out_of_range(3, 3 + 200));
}

#[test]
fn sequence_at_address_100_is_kept() {
    let mut locs = vec![rec(100, 1), rec(109, 2)];
    finish_sequence(&mut locs, 0);
    assert_eq!(locs.len(), 2);
}

#[test]
fn sequence_at_address_1_with_large_size_is_dropped() {
    let mut locs = vec![rec(50, 1), rec(1, 1), rec(300, 2)];
    finish_sequence(&mut locs, 1);
    assert_eq!(locs, vec![rec(50, 1)]);
}

#[test]
fn empty_sequence_is_left_alone() {
    let mut locs = vec![rec(1, 1)];
    finish_sequence(&mut locs, 1);
    assert_eq!(locs, vec![rec(1, 1)]);
}

#[test]
fn rows_become_sorted_records() {
    let units = vec![LineUnit {
        comp_dir: Some("/work".to_string()),
        rows: vec![row(10, 5, 3, false), row(20, 6, 1, false), row(21, 0, 0, true)],
    }];
    let info = get_debug_loc(&required(), &units).ok().unwrap();
    assert_eq!(info.sources, vec!["/work/src/main.rs".to_string()]);
    assert_eq!(
        info.locations,
        vec![
            LocationRecord { address: 10, source_id: 0, line: 5, column: 3 },
            LocationRecord { address: 20, source_id: 0, line: 6, column: 1 },
        ]
    );
}

#[test]
fn end_of_sequence_record_one_byte_back() {
    let units = vec![LineUnit { comp_dir: None, rows: vec![row(10, 5, 3, false), row(30, 7, 0, true)] }];
    let info = get_debug_loc(&required(), &units).ok().unwrap();
    assert_eq!(info.locations.len(), 2);
    assert_eq!(info.locations[1].address, 29);
    assert_eq!(info.locations[1].line, 7);
    assert_eq!(info.sources, vec!["src/main.rs".to_string()]);
}

#[test]
fn dead_sequence_is_removed_live_one_kept() {
    let units = vec![LineUnit {
        comp_dir: None,
        rows: vec![row(1, 1, 1, false), row(300, 2, 1, false), row(301, 0, 0, true), row(500, 3, 1, false), row(
            520, 0, 0, true,
        )],
    }];
    let info = get_debug_loc(&required(), &units).ok().unwrap();
    let addresses: Vec<u64> = info.locations.iter().map(|l| l.address).collect();
    assert_eq!(addresses, vec![500, 519]);
}

#[test]
fn records_sorted_across_units_and_sources_shared() {
    let units = vec![
        LineUnit { comp_dir: None, rows: vec![row(400, 1, 1, false), row(410, 0, 0, true)] },
        LineUnit { comp_dir: None, rows: vec![row(200, 2, 1, false), row(210, 0, 0, true)] },
    ];
    let info = get_debug_loc(&required(), &units).ok().unwrap();
    let addresses: Vec<u64> = info.locations.iter().map(|l| l.address).collect();
    assert_eq!(addresses, vec![200, 209, 400, 409]);
    assert_eq!(info.sources.len(), 1);
    for l in &info.locations {
        assert!((l.source_id as usize) < info.sources.len());
    }
}

#[test]
fn absolute_paths_stay() {
    let units = vec![LineUnit {
        comp_dir: Some("/c".to_string()),
        rows: vec![
            LineRow {
                address: 100,
                file: Some(FileName { directory: None, path_name: "y.c".to_string() }),
                line: 1,
                column: 0,
                end_sequence: false,
            },
            LineRow {
                address: 101,
                file: Some(FileName { directory: Some("/abs".to_string()), path_name: "x.c".to_string() }),
                line: 2,
                column: 0,
                end_sequence: false,
            },
        ],
    }];
    let info = get_debug_loc(&required(), &units).ok().unwrap();
    assert_eq!(info.sources, vec!["/c/y.c".to_string(), "/abs/x.c".to_string()]);
    assert_eq!(info.locations[1].source_id, 1);
}

#[test]
fn row_without_file_entry_is_missing_entry() {
    let units = vec![LineUnit {
        comp_dir: None,
        rows: vec![row(100, 1, 1, false), LineRow { address: 101, file: None, line: 1, column: 0, end_sequence: false }],
    }];
    assert_eq!(get_debug_loc(&required(), &units).err(), Some(dwarf_to_json::dwarf::Error::MissingDwarfEntry));
}

#[test]
fn missing_section_in_line_table() {
    let units = vec![LineUnit { comp_dir: None, rows: vec![row(100, 1, 1, false)] }];
    let sections: Vec<(&str, &[u8])> = vec![(".debug_str", &[][..])];
    assert_eq!(get_debug_loc(&sections, &units).err(), Some(dwarf_to_json::dwarf::Error::MissingSection));
}

#[test]
fn equal_addresses_keep_their_order() {
    let units = vec![
        LineUnit { comp_dir: None, rows: vec![row(300, 7, 1, false), row(200, 1, 1, false)] },
        LineUnit { comp_dir: None, rows: vec![row(200, 2, 1, false), row(200, 3, 1, false)] },
    ];
    let info = get_debug_loc(&required(), &units).ok().unwrap();
    let lines: Vec<u32> = info.locations.iter().map(|l| l.line).collect();
    assert_eq!(lines, vec![1, 2, 3, 7]);
}
