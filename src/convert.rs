//! The conversion: the debug sections of a module, the rewriting of source
//! paths, and the pipeline that ends in a source map.

use vstd::prelude::*;
use vstd::string::*;
use crate::lines::{get_debug_loc, stably_sorted, units_fold, LineUnit, LocationInfo, LocationRecord};
use crate::sources::paths;
use vstd::utf8::{decode_utf8, valid_utf8};
use crate::scopes::{get_debug_scopes, scopes_from_to, settled_to, units_ok, DebugInfoObj, ScopeUnit};
use crate::to_json::{debug_info_document, holds_forest, mappings_of, render, source_map_root, JsonValue};
use crate::wasm::{leb_len, leb_value, lemma_leb_len_bound, str_field, WasmDecoder, WasmFormatError};

verus! {

pub const WASM_SECTION_CUSTOM: u32 = 0;

pub const WASM_SECTION_CODE: u32 = 10;

/// Section names with their bodies.
pub type SectionTable = Seq<(Seq<char>, Seq<u8>)>;

pub open spec fn wasm_header() -> Seq<u8> {
    seq![0x00u8, 0x61u8, 0x73u8, 0x6du8, 0x01u8, 0x00u8, 0x00u8, 0x00u8]
}

pub open spec fn debug_prefix() -> Seq<char> {
    seq!['.', 'd', 'e', 'b', 'u', 'g', '_']
}

pub open spec fn url_prefixes_name() -> Seq<char> {
    seq!['s', 'o', 'u', 'r', 'c', 'e', 'U', 'R', 'L', 'P', 'r', 'e', 'f', 'i', 'x', 'e', 's']
}

/// A custom section that the conversion keeps.
pub open spec fn is_kept_name(n: Seq<char>) -> bool {
    (n.len() >= 7 && n.subrange(0, 7) == debug_prefix()) || n == url_prefixes_name()
}

/// `t` with `name` bound to `body`: in place where `name` is there, last where not.
pub open spec fn table_set(t: SectionTable, name: Seq<char>, body: Seq<u8>) -> SectionTable {
    if exists|i: int| 0 <= i < t.len() && t[i].0 == name {
        let i = choose|i: int| 0 <= i < t.len() && t[i].0 == name;
        t.update(i, (name, body))
    } else {
        t.push((name, body))
    }
}

/// The section walk over the rest `s` of a module of `total` bytes, with the
/// table and the code section's offset found so far. `None` where the
/// sections are malformed.
pub open spec fn walk(s: Seq<u8>, total: nat, t: SectionTable, code: Option<nat>) -> Option<(SectionTable, Option<nat>)>
    decreases s.len(),
{
    if s.len() == 0 {
        Some((t, code))
    } else {
        match leb_len(s) {
            None => None,
            Some(n1) => {
                let id = leb_value(s, n1);
                let s1 = s.subrange(n1 as int, s.len() as int);
                match leb_len(s1) {
                    None => None,
                    Some(n2) => {
                        let size = leb_value(s1, n2) as nat;
                        if n1 + n2 > s.len() || n1 == 0 {
                            None
                        } else {
                            let s2 = s1.subrange(n2 as int, s1.len() as int);
                            if size > s2.len() {
                                None
                            } else if id != WASM_SECTION_CUSTOM {
                                let code2 = if id == WASM_SECTION_CODE {
                                    Some((total - s2.len()) as nat)
                                } else {
                                    code
                                };
                                walk(s2.subrange(size as int, s2.len() as int), total, t, code2)
                            } else {
                                match str_field(s2) {
                                    None => None,
                                    Some((name, k)) => if size < k {
                                        None
                                    } else {
                                        let body = s2.subrange(k as int, size as int);
                                        let t2 = if is_kept_name(name) {
                                            table_set(t, name, body)
                                        } else {
                                            t
                                        };
                                        walk(s2.subrange(size as int, s2.len() as int), total, t2, code)
                                    },
                                }
                            }
                        }
                    },
                }
            },
        }
    }
}

/// The debug sections of a module and the offset of its code section's body,
/// or `None` where the module is malformed.
pub open spec fn debug_sections_of(input: Seq<u8>) -> Option<(SectionTable, Option<nat>)> {
    if input.len() < 8 || input.subrange(0, 8) != wasm_header() {
        None
    } else {
        walk(input.subrange(8, input.len() as int), input.len(), Seq::empty(), None)
    }
}

pub open spec fn table_view<'a>(v: Seq<(&'a str, &'a [u8])>) -> SectionTable {
    v.map_values(|e: (&'a str, &'a [u8])| (e.0@, e.1@))
}

pub fn is_debug_section_name(section_name: &str) -> (r: bool)
    ensures
        r == (section_name@.len() >= 7 && section_name@.subrange(0, 7) == debug_prefix()),
{
    let n = section_name.unicode_len();
    if n < 7 {
        return false;
    }
    let head = String::from_str(section_name.substring_char(0, 7));
    proof {
        reveal_strlit(".debug_");
        assert(".debug_"@ =~= debug_prefix());
    }
    head == String::from_str(".debug_")
}

pub fn is_url_prefixes_name(section_name: &str) -> (r: bool)
    ensures
        r == (section_name@ == url_prefixes_name()),
{
    proof {
        reveal_strlit("sourceURLPrefixes");
        assert("sourceURLPrefixes"@ =~= url_prefixes_name());
    }
    String::from_str(section_name) == String::from_str("sourceURLPrefixes")
}

/// Binds `name` to `body` in the table.
fn set_section<'a>(sections: &mut Vec<(&'a str, &'a [u8])>, name: &'a str, body: &'a [u8])
    requires
        forall|i: int, j: int| 0 <= i < j < old(sections)@.len() ==> old(sections)@[i].0@ != old(sections)@[j].0@,
    ensures
        forall|i: int, j: int| 0 <= i < j < final(sections)@.len() ==> final(sections)@[i].0@ != final(sections)@[j].0@,
        table_view(final(sections)@) == table_set(table_view(old(sections)@), name@, body@),
{
    let ghost t = table_view(sections@);
    let key = String::from_str(name);
    let mut i: usize = 0;
    while i < sections.len()
        invariant
            i <= sections@.len(),
            sections@ == old(sections)@,
            t == table_view(old(sections)@),
            forall|a: int, b: int| 0 <= a < b < old(sections)@.len() ==> old(sections)@[a].0@ != old(sections)@[b].0@,
            key@ == name@,
            forall|k: int| 0 <= k < i ==> sections@[k].0@ != name@,
        decreases sections@.len() - i,
    {
        if String::from_str(sections[i].0) == key {
            proof {
                assert(t[i as int] == (old(sections)@[i as int].0@, old(sections)@[i as int].1@));
                assert(t[i as int].0 == name@);
                let j = choose|j: int| 0 <= j < t.len() && t[j].0 == name@;
                assert(j == i) by {
                    if j < i {
                        assert(old(sections)@[j].0@ != name@);
                    }
                    if j > i {
                        assert(old(sections)@[i as int].0@ != old(sections)@[j].0@);
                    }
                }
            }
            sections.set(i, (name, body));
            proof {
                assert(table_view(sections@) =~= t.update(i as int, (name@, body@)));
            }
            return;
        }
        i = i + 1;
    }
    sections.push((name, body));
    proof {
        assert(!(exists|j: int| 0 <= j < t.len() && t[j].0 == name@)) by {
            if exists|j: int| 0 <= j < t.len() && t[j].0 == name@ {
                let j = choose|j: int| 0 <= j < t.len() && t[j].0 == name@;
                assert(t[j] == (old(sections)@[j].0@, old(sections)@[j].1@));
                assert(old(sections)@[j].0@ == name@);
            }
        }
        assert(table_view(sections@) =~= t.push((name@, body@)));
        assert forall|a: int, b: int| 0 <= a < b < sections@.len() implies sections@[a].0@ != sections@[b].0@ by {
            if b == sections@.len() - 1 {
                assert(old(sections)@[a].0@ != name@);
            } else {
                assert(old(sections)@[a].0@ != old(sections)@[b].0@);
            }
        }
    }
}

/// Finds the custom sections of a module whose names start with `.debug_` or
/// are `sourceURLPrefixes`, and the offset of the code section's body.
#[verifier::rlimit(50)]
pub fn read_debug_sections<'a>(input: &'a [u8]) -> (r: Result<(Vec<(&'a str, &'a [u8])>, Option<usize>), WasmFormatError>)
    ensures
        match debug_sections_of(input@) {
            None => r is Err,
            Some((t, code)) => r matches Ok((v, c)) && table_view(v@) == t
                && (forall|i: int, j: int| 0 <= i < j < v@.len() ==> v@[i].0@ != v@[j].0@)
                && (match code {
                    Some(o) => c == Some(o as usize),
                    None => c is None,
                }),
        },
{
    if input.len() < 8 {
        return Err(WasmFormatError);
    }
    let header = vstd::slice::slice_subrange(input, 0, 8);
    if !(header[0] == 0 && header[1] == 0x61 && header[2] == 0x73 && header[3] == 0x6d
        && header[4] == 1 && header[5] == 0 && header[6] == 0 && header[7] == 0) {
        proof {
            assert(header@ != wasm_header()) by {
                if header@ == wasm_header() {
                    assert(header@[0] == wasm_header()[0]);
                }
            }
        }
        return Err(WasmFormatError);
    }
    proof {
        assert(header@ =~= wasm_header());
    }
    let mut decoder = WasmDecoder::new(vstd::slice::slice_subrange(input, 8, input.len()));
    let mut sections: Vec<(&'a str, &'a [u8])> = Vec::new();
    let mut code_section_start: Option<usize> = None;
    let ghost total = input@.len();
    proof {
        assert(input@.subrange(0, 8) =~= header@);
        assert(table_view(sections@) =~= Seq::empty());
    }
    while !decoder.eof()
        invariant
            total == input@.len(),
            decoder@.len() <= total,
            debug_sections_of(input@) == walk(decoder@, total, table_view(sections@), match code_section_start {
                Some(o) => Some(o as nat),
                None => None,
            }),
            forall|i: int, j: int| 0 <= i < j < sections@.len() ==> sections@[i].0@ != sections@[j].0@,
        decreases decoder@.len(),
    {
        let ghost s = decoder@;
        let ghost code = match code_section_start {
            Some(o) => Some(o as nat),
            None => None::<nat>,
        };
        proof {
            lemma_leb_len_bound(s);
        }
        let section_id = decoder.u32()?;
        let ghost n1 = choose|n: nat| leb_len(s) == Some(n) && section_id == leb_value(s, n)
            && decoder@ == s.subrange(n as int, s.len() as int);
        let ghost s1 = decoder@;
        proof {
            lemma_leb_len_bound(s1);
        }
        let section_len = decoder.u32()?;
        let ghost n2 = choose|n: nat| leb_len(s1) == Some(n) && section_len == leb_value(s1, n)
            && decoder@ == s1.subrange(n as int, s1.len() as int);
        let ghost s2 = decoder@;
        if section_id != WASM_SECTION_CUSTOM {
            if section_id == WASM_SECTION_CODE {
                code_section_start = Some(input.len() - decoder.len());
            }
            decoder.skip(section_len as usize)?;
            continue;
        }
        let pos = decoder.len();
        let section_name = decoder.str()?;
        let section_name_len = pos - decoder.len();
        if (section_len as usize) < section_name_len {
            return Err(WasmFormatError);
        }
        let body = decoder.skip(section_len as usize - section_name_len)?;
        proof {
            assert(decoder@ =~= s2.subrange(section_len as int, s2.len() as int));
        }
        if !is_debug_section_name(section_name) && !is_url_prefixes_name(section_name) {
            continue;
        }
        proof {
            assert(body@ =~= s2.subrange(section_name_len as int, section_len as int));
        }
        set_section(&mut sections, section_name, body);
    }
    Ok((sections, code_section_start))
}

/// What `serde_json::from_str` makes of a text as a list of lists of strings,
/// `None` where the text is no such JSON value.
pub uninterp spec fn json_string_lists(text: Seq<char>) -> Option<Seq<Seq<Seq<char>>>>;

pub open spec fn lists_view(v: Seq<Vec<String>>) -> Seq<Seq<Seq<char>>> {
    v.map_values(|l: Vec<String>| l@.map_values(|s: String| s@))
}

/// Relies on serde_json::from_str: it reads a JSON array of arrays of strings,
/// and fails on any other text.
#[verifier::external_body]
fn parse_string_lists(text: &str) -> (r: Option<Vec<Vec<String>>>)
    ensures
        match r {
            Some(v) => json_string_lists(text@) == Some(lists_view(v@)),
            None => json_string_lists(text@) is None,
        },
{
    serde_json::from_str::<Vec<Vec<String>>>(text).ok()
}

/// The rewrite table of a parsed prefix list: its pairs, or none at all when
/// the list is missing or one of its entries has fewer than two strings.
pub open spec fn prefix_table(lists: Option<Seq<Seq<Seq<char>>>>) -> Seq<(Seq<char>, Seq<char>)> {
    match lists {
        Some(l) => if forall|i: int| 0 <= i < l.len() ==> #[trigger] l[i].len() >= 2 {
            l.map_values(|p: Seq<Seq<char>>| (p[0], p[1]))
        } else {
            Seq::empty()
        },
        None => Seq::empty(),
    }
}

/// `url` with the first prefix of `table` that it starts with replaced.
pub open spec fn rewrite_url(url: Seq<char>, table: Seq<(Seq<char>, Seq<char>)>) -> Seq<char>
    decreases table.len(),
{
    if table.len() == 0 {
        url
    } else if table[0].0.is_prefix_of(url) {
        table[0].1 + url.subrange(table[0].0.len() as int, url.len() as int)
    } else {
        rewrite_url(url, table.drop_first())
    }
}

/// Whether `s` starts with `p`.
pub fn starts_with(s: &str, p: &str) -> (r: bool)
    ensures
        r == p@.is_prefix_of(s@),
{
    let n = s.unicode_len();
    let m = p.unicode_len();
    if m > n {
        return false;
    }
    let mut i: usize = 0;
    while i < m
        invariant
            m <= n,
            n == s@.len(),
            m == p@.len(),
            i <= m,
            forall|k: int| 0 <= k < i ==> s@[k] == p@[k],
        decreases m - i,
    {
        if s.get_char(i) != p.get_char(i) {
            return false;
        }
        i = i + 1;
    }
    proof {
        assert(p@ =~= s@.subrange(0, m as int));
    }
    true
}

/// The rewrite table as pairs of strings; empty where an entry has fewer
/// than two strings.
fn table_of(lists: Vec<Vec<String>>) -> (r: Vec<(String, String)>)
    ensures
        r@.map_values(|e: (String, String)| (e.0@, e.1@)) == prefix_table(Some(lists_view(lists@))),
{
    let ghost lv = lists_view(lists@);
    let mut out: Vec<(String, String)> = Vec::new();
    let mut i: usize = 0;
    while i < lists.len()
        invariant
            i <= lists@.len(),
            lv == lists_view(lists@),
            out@.len() == i,
            forall|k: int| 0 <= k < i ==> #[trigger] lv[k].len() >= 2 && out@[k].0@ == lv[k][0] && out@[k].1@ == lv[k][1],
        decreases lists@.len() - i,
    {
        let l = &lists[i];
        if l.len() < 2 {
            let empty: Vec<(String, String)> = Vec::new();
            proof {
                assert(lv[i as int].len() < 2);
                assert(prefix_table(Some(lv)) == Seq::<(Seq<char>, Seq<char>)>::empty());
                assert(empty@.map_values(|e: (String, String)| (e.0@, e.1@)) =~= Seq::empty());
            }
            return empty;
        }
        out.push((l[0].clone(), l[1].clone()));
        i = i + 1;
    }
    proof {
        let a = out@.map_values(|e: (String, String)| (e.0@, e.1@));
        let b = lv.map_values(|p: Seq<Seq<char>>| (p[0], p[1]));
        assert forall|k: int| 0 <= k < a.len() implies a[k] == b[k] by {
            assert(lv[k].len() >= 2);
        }
        assert(a =~= b);
        assert forall|k: int| 0 <= k < lv.len() implies #[trigger] lv[k].len() >= 2 by {
            assert(lv[k].len() >= 2);
        }
    }
    out
}

/// Rewrites one path by the first matching prefix of the table.
fn rewrite_one(url: &String, table: &Vec<(String, String)>) -> (r: String)
    ensures
        r@ == rewrite_url(url@, table@.map_values(|e: (String, String)| (e.0@, e.1@))),
{
    let ghost tv = table@.map_values(|e: (String, String)| (e.0@, e.1@));
    proof {
        assert(tv.subrange(0, tv.len() as int) =~= tv);
    }
    let mut i: usize = 0;
    while i < table.len()
        invariant
            i <= table@.len(),
            tv == table@.map_values(|e: (String, String)| (e.0@, e.1@)),
            rewrite_url(url@, tv) == rewrite_url(url@, tv.subrange(i as int, tv.len() as int)),
        decreases table@.len() - i,
    {
        let ghost rest = tv.subrange(i as int, tv.len() as int);
        proof {
            assert(rest[0] == tv[i as int]);
            assert(rest.drop_first() =~= tv.subrange(i + 1, tv.len() as int));
        }
        if starts_with(url.as_str(), table[i].0.as_str()) {
            let n = url.as_str().unicode_len();
            let m = table[i].0.as_str().unicode_len();
            let tail = url.as_str().substring_char(m, n);
            let mut r = table[i].1.clone();
            r.append(tail);
            return r;
        }
        i = i + 1;
    }
    proof {
        assert(tv.subrange(i as int, tv.len() as int).len() == 0);
    }
    url.clone()
}

/// Rewrites the source paths by the prefix table that the
/// `sourceURLPrefixes` section holds as a length-prefixed JSON text. Fails
/// only where the section is no length-prefixed string; a text that is no
/// list of pairs rewrites nothing.
pub fn fix_source_urls(info: &mut LocationInfo, prefixes_bytes: &[u8]) -> (r: Result<(), WasmFormatError>)
    ensures
        final(info).locations == old(info).locations,
        match str_field(prefixes_bytes@) {
            None => r is Err && final(info).sources == old(info).sources,
            Some((text, _)) => r is Ok && final(info).sources@.len() == old(info).sources@.len()
                && forall|i: int| 0 <= i < old(info).sources@.len() ==> #[trigger] final(info).sources@[i]@
                    == rewrite_url(old(info).sources@[i]@, prefix_table(json_string_lists(text))),
        },
{
    let mut prefixes_decoder = WasmDecoder::new(prefixes_bytes);
    let text = prefixes_decoder.str()?;
    let table = match parse_string_lists(text) {
        Some(lists) => table_of(lists),
        None => {
            let empty: Vec<(String, String)> = Vec::new();
            proof {
                assert(empty@.map_values(|e: (String, String)| (e.0@, e.1@)) =~= Seq::empty());
            }
            empty
        },
    };
    let ghost old_sources = info.sources@;
    let mut out: Vec<String> = Vec::new();
    let mut i: usize = 0;
    while i < info.sources.len()
        invariant
            i <= info.sources@.len(),
            info.sources@ == old_sources,
            info.locations == old(info).locations,
            old_sources == old(info).sources@,
            out@.len() == i,
            table@.map_values(|e: (String, String)| (e.0@, e.1@)) == prefix_table(json_string_lists(text@)),
            forall|k: int| 0 <= k < i ==> #[trigger] out@[k]@
                == rewrite_url(old_sources[k]@, prefix_table(json_string_lists(text@))),
        decreases info.sources@.len() - i,
    {
        let u = rewrite_one(&info.sources[i], &table);
        out.push(u);
        i = i + 1;
    }
    info.sources = out;
    Ok(())
}

/// Why a conversion failed.
#[derive(Debug, Clone, Copy, PartialEq, Eq, Structural)]
pub enum Error {
    /// The DWARF data is malformed or incomplete.
    DataFormat,
    /// The module is malformed.
    WasmError,
    /// The output could not be written.
    OutputError,
}

/// The failure of the conversion for a failure of the DWARF stages.
pub fn from_dwarf_error(e: crate::dwarf::Error) -> (r: Error)
    ensures
        r == Error::DataFormat,
{
    Error::DataFormat
}

/// What the DWARF reader found in the debug sections: the rows of each unit's
/// line-number program and the entries of each unit.
pub struct DwarfUnits {
    pub lines: Vec<LineUnit>,
    pub scopes: Vec<ScopeUnit>,
}

/// The body of the first section named `name`.
pub open spec fn lookup(t: SectionTable, name: Seq<char>) -> Option<Seq<u8>>
    decreases t.len(),
{
    if t.len() == 0 {
        None
    } else if t[0].0 == name {
        Some(t[0].1)
    } else {
        lookup(t.drop_first(), name)
    }
}

/// The body of the first section named `name`.
pub fn section_body<'a>(sections: &Vec<(&'a str, &'a [u8])>, name: &str) -> (r: Option<&'a [u8]>)
    ensures
        match lookup(table_view(sections@), name@) {
            Some(b) => r matches Some(x) && x@ == b,
            None => r is None,
        },
{
    let ghost t = table_view(sections@);
    let key = String::from_str(name);
    let mut i: usize = 0;
    proof {
        assert(t.subrange(0, t.len() as int) =~= t);
    }
    while i < sections.len()
        invariant
            i <= sections@.len(),
            t == table_view(sections@),
            key@ == name@,
            lookup(t, name@) == lookup(t.subrange(i as int, t.len() as int), name@),
        decreases sections@.len() - i,
    {
        let ghost rest = t.subrange(i as int, t.len() as int);
        proof {
            assert(rest[0] == t[i as int]);
            assert(rest.drop_first() =~= t.subrange(i + 1, t.len() as int));
        }
        if String::from_str(sections[i].0) == key {
            return Some(sections[i].1);
        }
        i = i + 1;
    }
    None
}

pub open spec fn debug_str_name() -> Seq<char> {
    seq!['.', 'd', 'e', 'b', 'u', 'g', '_', 's', 't', 'r']
}

pub open spec fn debug_abbrev_name() -> Seq<char> {
    seq!['.', 'd', 'e', 'b', 'u', 'g', '_', 'a', 'b', 'b', 'r', 'e', 'v']
}

pub open spec fn debug_info_name() -> Seq<char> {
    seq!['.', 'd', 'e', 'b', 'u', 'g', '_', 'i', 'n', 'f', 'o']
}

pub open spec fn debug_line_name() -> Seq<char> {
    seq!['.', 'd', 'e', 'b', 'u', 'g', '_', 'l', 'i', 'n', 'e']
}

/// The sections that the line table cannot do without are all there.
pub open spec fn has_required_sections(t: SectionTable) -> bool {
    &&& lookup(t, debug_str_name()) is Some
    &&& lookup(t, debug_abbrev_name()) is Some
    &&& lookup(t, debug_info_name()) is Some
    &&& lookup(t, debug_line_name()) is Some
}

/// Checks that `.debug_str`, `.debug_abbrev`, `.debug_info` and `.debug_line`
/// are all there.
pub fn required_sections(sections: &Vec<(&str, &[u8])>) -> (r: Result<(), crate::dwarf::Error>)
    ensures
        r is Ok <==> has_required_sections(table_view(sections@)),
        r is Err ==> r == Err::<(), crate::dwarf::Error>(crate::dwarf::Error::MissingSection),
{
    proof {
        reveal_strlit(".debug_str");
        reveal_strlit(".debug_abbrev");
        reveal_strlit(".debug_info");
        reveal_strlit(".debug_line");
        assert(".debug_str"@ =~= debug_str_name());
        assert(".debug_abbrev"@ =~= debug_abbrev_name());
        assert(".debug_info"@ =~= debug_info_name());
        assert(".debug_line"@ =~= debug_line_name());
    }
    if section_body(sections, ".debug_str").is_none() || section_body(sections, ".debug_abbrev").is_none()
        || section_body(sections, ".debug_info").is_none() || section_body(sections, ".debug_line").is_none() {
        return Err(crate::dwarf::Error::MissingSection);
    }
    Ok(())
}

/// The offset that addresses are moved by: the code section's, or zero.
pub open spec fn code_offset(code_section_start: Option<usize>) -> i64 {
    match code_section_start {
        Some(o) => #[verifier::truncate] (o as i64),
        None => 0i64,
    }
}

pub open spec fn as_usize(code: Option<nat>) -> Option<usize> {
    match code {
        Some(o) => Some(o as usize),
        None => None,
    }
}

/// A `sourceURLPrefixes` section, where there is one, holds a length-prefixed string.
pub open spec fn prefixes_ok(t: SectionTable) -> bool {
    match lookup(t, url_prefixes_name()) {
        Some(b) => str_field(b) is Some,
        None => true,
    }
}

/// The source paths after the rewriting by the `sourceURLPrefixes` section.
pub open spec fn rewritten(srcs: Seq<Seq<char>>, t: SectionTable) -> Seq<Seq<char>> {
    match lookup(t, url_prefixes_name()) {
        Some(b) => match str_field(b) {
            Some((text, _)) => srcs.map_values(|p: Seq<char>| rewrite_url(p, prefix_table(json_string_lists(text)))),
            None => srcs,
        },
        None => srcs,
    }
}

/// Every differences between neighbouring entries fits in 64 bits, in the
/// address order of the records.
pub open spec fn mappings_fit(locs: Seq<LocationRecord>, offset: i64) -> bool {
    forall|out: Seq<LocationRecord>| #[trigger] stably_sorted(out, locs) ==> mappings_of(out, offset as int) is Some
}

/// Success is owed: the required sections are there, no scope forest is
/// asked for, a prefix section holds a string, the line table can be built
/// and the mapping differences fit.
pub open spec fn owed_ok(t: SectionTable, lines: Seq<LineUnit>, x_scopes: bool, off: i64) -> bool {
    has_required_sections(t) && !x_scopes && prefixes_ok(t) && match units_fold(Seq::empty(), Seq::empty(), lines) {
        Ok((srcs, locs)) => mappings_fit(locs, off),
        Err(_) => false,
    }
}

/// `doc` is the source map of records `out` and sources `srcs` rewritten.
pub open spec fn doc_of(doc: JsonValue, out: Seq<LocationRecord>, srcs: Seq<Seq<char>>, t: SectionTable, off: i64) -> bool {
    match mappings_of(out, off as int) {
        Some(text) => valid_utf8(text) && source_map_root(doc, rewritten(srcs, t), decode_utf8(text), false, off),
        None => false,
    }
}

/// `doc` is the source map, without scopes, of the line table of `lines`:
/// its records in stable address order, its sources rewritten.
pub open spec fn line_document(doc: JsonValue, t: SectionTable, lines: Seq<LineUnit>, off: i64) -> bool {
    match units_fold(Seq::empty(), Seq::empty(), lines) {
        Ok((srcs, locs)) => exists|out: Seq<LocationRecord>| #[trigger] stably_sorted(out, locs) && doc_of(doc, out, srcs, t, off),
        Err(_) => false,
    }
}

/// `doc` is the source map with scopes of records `out`, of the source
/// registry `srcs2` (the line table's sources `srcs` and then those of the
/// scope forest) rewritten, and of `forest`: a forest that pruning has
/// settled, each node what pruning leaves of the node of an entry of `scopes`.
pub open spec fn scoped_doc_of(
    doc: JsonValue,
    t: SectionTable,
    srcs: Seq<Seq<char>>,
    srcs2: Seq<String>,
    out: Seq<LocationRecord>,
    forest: Seq<DebugInfoObj>,
    scopes: Seq<ScopeUnit>,
    off: i64,
) -> bool {
    &&& srcs.is_prefix_of(paths(srcs2))
    &&& match mappings_of(out, off as int) {
        Some(text) => valid_utf8(text) && source_map_root(doc, rewritten(paths(srcs2), t), decode_utf8(text), true, off)
            && holds_forest(doc, forest),
        None => false,
    }
    &&& forall|d: nat| #[trigger] settled_to(forest, d)
    &&& forall|d: nat| #[trigger] scopes_from_to(forest, d, scopes, srcs2)
}

/// `doc` is the source map with scopes of the line table of `lines` (its
/// records in stable address order) and of the scope units `scopes`.
pub open spec fn scoped_document(doc: JsonValue, t: SectionTable, lines: Seq<LineUnit>, scopes: Seq<ScopeUnit>, off: i64) -> bool {
    match units_fold(Seq::empty(), Seq::empty(), lines) {
        Ok((srcs, locs)) => exists|srcs2: Seq<String>, out: Seq<LocationRecord>, forest: Seq<DebugInfoObj>|
            #[trigger] stably_sorted(out, locs) && #[trigger] scoped_doc_of(doc, t, srcs, srcs2, out, forest, scopes, off),
        Err(_) => false,
    }
}

/// With scopes asked for, success is owed but where the source registry
/// outgrows 64-bit ids: the required sections are there, a prefix section
/// holds a string, the line table can be built, the mapping differences
/// fit, and every scope entry converts.
pub open spec fn scoped_owed(t: SectionTable, lines: Seq<LineUnit>, scopes: Seq<ScopeUnit>, off: i64) -> bool {
    has_required_sections(t) && prefixes_ok(t) && units_ok(scopes) && match units_fold(Seq::empty(), Seq::empty(), lines) {
        Ok((srcs, locs)) => mappings_fit(locs, off),
        Err(_) => false,
    }
}

/// The source-map document: the line table of `dwarf.lines`, the scope forest
/// of `dwarf.scopes` when `x_scopes` asks for it, source paths rewritten by a
/// `sourceURLPrefixes` section, addresses moved by the code section's offset.
pub fn convert_document(
    sections: &Vec<(&str, &[u8])>,
    code_section_start: Option<usize>,
    dwarf: &DwarfUnits,
    x_scopes: bool,
) -> (r: Result<JsonValue, Error>)
    ensures
        ({
            let t = table_view(sections@);
            let off = code_offset(code_section_start);
            &&& !has_required_sections(t) ==> r == Err::<JsonValue, Error>(Error::DataFormat)
            &&& has_required_sections(t) && units_fold(Seq::empty(), Seq::empty(), dwarf.lines@) is Err
                ==> r == Err::<JsonValue, Error>(Error::DataFormat)
            &&& r == Err::<JsonValue, Error>(Error::WasmError) ==> !prefixes_ok(t)
            &&& owed_ok(t, dwarf.lines@, x_scopes, off) ==> r is Ok
            &&& (!x_scopes && r is Ok) ==> line_document(r->Ok_0, t, dwarf.lines@, off)
            &&& (x_scopes && r is Ok) ==> scoped_document(r->Ok_0, t, dwarf.lines@, dwarf.scopes@, off)
            &&& (x_scopes && scoped_owed(t, dwarf.lines@, dwarf.scopes@, off)) ==> r is Ok || r == Err::<JsonValue, Error>(Error::DataFormat)
        }),
{
    let ghost t = table_view(sections@);
    let mut info = match get_debug_loc(sections, &dwarf.lines) {
        Ok(info) => info,
        Err(e) => return Err(from_dwarf_error(e)),
    };
    let ghost srcs0 = paths(info.sources@);
    let ghost raw0 = info.sources@;
    let scopes = if x_scopes {
        match get_debug_scopes(&dwarf.scopes, &mut info.sources) {
            Ok(forest) => Some(forest),
            Err(e) => return Err(from_dwarf_error(e)),
        }
    } else {
        None
    };
    let ghost srcs2 = info.sources@;
    proof {
        assert(raw0.is_prefix_of(srcs2));
        assert(srcs0.is_prefix_of(paths(srcs2))) by {
            assert forall|k: int| 0 <= k < srcs0.len() implies srcs0[k] == paths(srcs2)[k] by {
                assert(raw0[k] == srcs2[k]);
            }
        }
    }
    proof {
        reveal_strlit("sourceURLPrefixes");
        assert("sourceURLPrefixes"@ =~= url_prefixes_name());
    }
    let ghost before = info.sources@;
    match section_body(sections, "sourceURLPrefixes") {
        Some(prefixes) => {
            if fix_source_urls(&mut info, prefixes).is_err() {
                return Err(Error::WasmError);
            }
            proof {
                let (text, _) = str_field(prefixes@)->0;
                assert(paths(info.sources@) =~= paths(srcs2).map_values(
                    |p: Seq<char>| rewrite_url(p, prefix_table(json_string_lists(text))),
                ));
            }
        },
        None => {},
    }
    let offset: i64 = match code_section_start {
        Some(o) => #[verifier::truncate] (o as i64),
        None => 0,
    };
    proof {
        assert(offset == code_offset(code_section_start));
        assert(scopes is Some <==> x_scopes);
    }
    let doc = match &scopes {
        Some(forest) => debug_info_document(&info, Some(forest), offset),
        None => debug_info_document(&info, None, offset),
    };
    let doc = match doc {
        Some(d) => d,
        None => return Err(Error::OutputError),
    };
    proof {
        assert(paths(info.sources@) == rewritten(paths(srcs2), t));
        if x_scopes {
            let forest = scopes->Some_0@;
            let locs = units_fold(Seq::empty(), Seq::empty(), dwarf.lines@)->Ok_0.1;
            let srcs = units_fold(Seq::empty(), Seq::empty(), dwarf.lines@)->Ok_0.0;
            assert(stably_sorted(info.locations@, locs));
            assert(scoped_doc_of(doc, t, srcs, srcs2, info.locations@, forest, dwarf.scopes@, offset));
        }
    }
    Ok(doc)
}

/// Converts the debug information of a module into the text of a source map,
/// given what the DWARF reader found in the module's debug sections.
pub fn convert(input: &[u8], dwarf: &DwarfUnits, x_scopes: bool) -> (r: Result<Vec<u8>, Error>)
    ensures
        debug_sections_of(input@) is None ==> r == Err::<Vec<u8>, Error>(Error::WasmError),
        debug_sections_of(input@) matches Some((t, code)) ==> ({
            let off = code_offset(as_usize(code));
            &&& !has_required_sections(t) ==> r == Err::<Vec<u8>, Error>(Error::DataFormat)
            &&& has_required_sections(t) && units_fold(Seq::empty(), Seq::empty(), dwarf.lines@) is Err
                ==> r == Err::<Vec<u8>, Error>(Error::DataFormat)
            &&& owed_ok(t, dwarf.lines@, x_scopes, off) ==> r is Ok
            &&& (x_scopes && scoped_owed(t, dwarf.lines@, dwarf.scopes@, off)) ==> r is Ok || r == Err::<Vec<u8>, Error>(Error::DataFormat)
            &&& r == Err::<Vec<u8>, Error>(Error::WasmError) ==> !prefixes_ok(t)
        }),
{
    let (sections, code_section_start) = match read_debug_sections(input) {
        Ok(found) => found,
        Err(_) => return Err(Error::WasmError),
    };
    let doc = convert_document(&sections, code_section_start, dwarf, x_scopes)?;
    match render(&doc) {
        Some(json) => Ok(json),
        None => Err(Error::OutputError),
    }
}

/// A module whose first section is a custom section that claims more bytes
/// than the module has left is malformed: reading its sections fails.
pub proof fn lemma_truncated_custom_section(input: Seq<u8>, n1: nat, n2: nat)
    requires
        input.len() > 8,
        input.subrange(0, 8) == wasm_header(),
        leb_len(input.subrange(8, input.len() as int)) == Some(n1),
        leb_value(input.subrange(8, input.len() as int), n1) == WASM_SECTION_CUSTOM,
        leb_len(input.subrange(8 + n1 as int, input.len() as int)) == Some(n2),
        8 + n1 + n2 + leb_value(input.subrange(8 + n1 as int, input.len() as int), n2) > input.len(),
    ensures
        debug_sections_of(input) is None,
{
    let s = input.subrange(8, input.len() as int);
    lemma_leb_len_bound(s);
    assert(s.subrange(n1 as int, s.len() as int) =~= input.subrange(8 + n1 as int, input.len() as int));
}

} // verus!
