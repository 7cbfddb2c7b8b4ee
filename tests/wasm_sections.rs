use dwarf_to_json::convert::{is_debug_section_name, is_url_prefixes_name, required_sections, section_body};
use dwarf_to_json::{read_debug_sections, WasmDecoder, WasmFormatError};

fn module(sections: &[(u8, Vec<u8>)]) -> Vec<u8> {
    let mut m = vec![0x00, 0x61, 0x73, 0x6d, 0x01, 0x00, 0x00, 0x00];
    for (id, body) in sections {
        m.push(*id);
        assert!(body.len() < 128);
        m.push(body.len() as u8);
        m.extend_from_slice(body);
    }
    m
}

fn custom(name: &str, body: &[u8]) -> (u8, Vec<u8>) {
    let mut b = vec![name.len() as u8];
    b.extend_from_slice(name.as_bytes());
    b.extend_from_slice(body);
    (0, b)
}

#[test]
fn leb_single_byte() {
    let bytes = [0x2a, 0x01];
    let mut d = WasmDecoder::new(&bytes);
    assert_eq!(d.u32(), Ok(42));
    assert_eq!(d.len(), 1);
    assert!(!d.eof());
}

#[test]
fn leb_three_bytes() {
    let bytes = [0xe5, 0x8e, 0x26];
    let mut d = WasmDecoder::new(&bytes);
    assert_eq!(d.u32(), Ok(624485));
    assert!(d.eof());
}

#[test]
fn leb_five_bytes_drops_high_bits() {
    let bytes = [0xff, 0xff, 0xff, 0xff, 0x7f];
    let mut d = WasmDecoder::new(&bytes);
    assert_eq!(d.u32(), Ok(0xffff_ffff));
    assert_eq!(d.len(), 0);
}

#[test]
fn leb_stops_after_five_bytes() {
    let bytes = [0x80, 0x80, 0x80, 0x80, 0x80, 0x01];
    let mut d = WasmDecoder::new(&bytes);
    assert_eq!(d.u32(), Ok(0));
    assert_eq!(d.len(), 1);
}

#[test]
fn leb_truncated_is_error() {
    let bytes = [0x80, 0x80];
    let mut d = WasmDecoder::new(&bytes);
    assert_eq!(d.u32(), Err(WasmFormatError));
    assert_eq!(d.len(), 2);
}

#[test]
fn skip_takes_bytes() {
    let bytes = [1, 2, 3, 4];
    let mut d = WasmDecoder::new(&bytes);
    assert_eq!(d.skip(3), Ok(&bytes[0..3]));
    assert_eq!(d.len(), 1);
    assert_eq!(d.skip(2), Err(WasmFormatError));
    assert_eq!(d.len(), 1);
}

#[test]
fn str_reads_length_prefixed_text() {
    let bytes = [3, b'a', b'b', b'c', 9];
    let mut d = WasmDecoder::new(&bytes);
    assert_eq!(d.str(), Ok("abc"));
    assert_eq!(d.len(), 1);
}

#[test]
fn str_rejects_invalid_utf8() {
    let bytes = [2, 0xff, 0xfe];
    let mut d = WasmDecoder::new(&bytes);
    assert_eq!(d.str(), Err(WasmFormatError));
}

#[test]
fn str_rejects_truncated_text() {
    let bytes = [5, b'a', b'b'];
    let mut d = WasmDecoder::new(&bytes);
    assert_eq!(d.str(), Err(WasmFormatError));
}

#[test]
fn section_names() {
    assert!(is_debug_section_name(".debug_info"));
    assert!(is_debug_section_name(".debug_"));
    assert!(!is_debug_section_name(".debug"));
    assert!(!is_debug_section_name("name"));
    assert!(is_url_prefixes_name("sourceURLPrefixes"));
    assert!(!is_url_prefixes_name("sourceURLPrefixe"));
}

#[test]
fn bad_header_is_error() {
    let mut m = module(&[]);
    m[4] = 2;
    assert!(read_debug_sections(&m).is_err());
    assert!(read_debug_sections(&[0x00, 0x61]).is_err());
}

#[test]
fn empty_module_has_no_sections() {
    let m = module(&[]);
    let (sections, code) = read_debug_sections(&m).ok().unwrap();
    assert!(sections.is_empty());
    assert_eq!(code, None);
}

#[test]
fn keeps_debug_sections_and_code_offset() {
    let m = module(&[
        (1, vec![0, 0]),
        custom(".debug_info", &[7, 8]),
        custom("name", &[1]),
        (10, vec![0, 1, 2]),
        custom("sourceURLPrefixes", &[5]),
    ]);
    let (sections, code) = read_debug_sections(&m).ok().unwrap();
    assert_eq!(sections, vec![(".debug_info", &[7u8, 8][..]), ("sourceURLPrefixes", &[5u8][..])]);
    // header 8, type section 4, .debug_info 16, name 8, then id and size of the code section
    assert_eq!(code, Some(8 + 4 + 16 + 8 + 2));
}

#[test]
fn later_section_of_same_name_wins() {
    let m = module(&[custom(".debug_str", &[1]), custom(".debug_line", &[3]), custom(".debug_str", &[2])]);
    let (sections, _) = read_debug_sections(&m).ok().unwrap();
    assert_eq!(sections, vec![(".debug_str", &[2u8][..]), (".debug_line", &[3u8][..])]);
}

#[test]
fn truncated_custom_section_is_wasm_error() {
    let mut m = module(&[custom(".debug_info", &[1, 2, 3, 4])]);
    m.truncate(m.len() - 2);
    assert_eq!(read_debug_sections(&m).err(), Some(WasmFormatError));
}

#[test]
fn custom_section_shorter_than_its_name_is_error() {
    let mut m = module(&[]);
    m.extend_from_slice(&[0, 2, 5, b'a', b'b', b'c', b'd', b'e']);
    assert!(read_debug_sections(&m).is_err());
}

#[test]
fn section_lookup_by_name() {
    let sections: Vec<(&str, &[u8])> = vec![(".debug_str", &[1u8][..]), (".debug_line", &[2u8][..])];
    assert_eq!(section_body(&sections, ".debug_line"), Some(&[2u8][..]));
    assert_eq!(section_body(&sections, ".debug_info"), None);
    assert_eq!(required_sections(&sections), Err(dwarf_to_json::dwarf::Error::MissingSection));
    let all: Vec<(&str, &[u8])> =
        vec![(".debug_str", &[][..]), (".debug_abbrev", &[][..]), (".debug_info", &[][..]), (".debug_line", &[][..])];
    assert_eq!(required_sections(&all), Ok(()));
}
