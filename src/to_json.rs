//! The source map: the mappings string, the JSON document, and its text.

use vstd::prelude::*;
use vstd::string::*;
use vstd::std_specs::vec::axiom_vec_decreases_to_view;
use vstd::utf8::{decode_utf8, leading_bits_width_1, pop_first_scalar, valid_first_scalar, valid_utf8};
use crate::lines::{LocationInfo, LocationRecord};
use crate::wasm::utf8_str;
use crate::scopes::{DebugAttrValue, DebugInfoObj};
use crate::sources::paths;

verus! {

/// A JSON value; objects keep their keys in order.
pub enum JsonValue {
    Int(i64),
    Bool(bool),
    Str(String),
    Array(Vec<JsonValue>),
    Object(Vec<(String, JsonValue)>),
}

/// A base64 digit of the value `d` (below 64).
pub open spec fn base64_digit(d: nat) -> u8 {
    if d < 26 {
        (65 + d) as u8
    } else if d < 52 {
        (97 + d - 26) as u8
    } else if d < 62 {
        (48 + d - 52) as u8
    } else if d == 62 {
        43u8
    } else {
        47u8
    }
}

/// The unsigned number that stands for `v`: its magnitude doubled, with the
/// sign in the low bit (`i64::MIN`, whose doubled magnitude does not fit,
/// stands as `2^63 + 1`).
pub open spec fn vlq_number(v: i64) -> nat {
    if v == i64::MIN {
        0x8000_0000_0000_0001
    } else if v < 0 {
        (2 * (-(v as int)) + 1) as nat
    } else {
        (2 * v) as nat
    }
}

/// Five-bit groups of `n`, least significant first, each with 32 added
/// where more groups follow, as base64 digits.
pub open spec fn vlq_groups(n: nat) -> Seq<u8>
    decreases n,
{
    if n < 32 {
        seq![base64_digit(n)]
    } else {
        seq![base64_digit(n % 32 + 32)] + vlq_groups(n / 32)
    }
}

/// The digits that `vlq::encode` writes for a number.
pub open spec fn vlq_digits(value: i64) -> Seq<u8> {
    vlq_groups(vlq_number(value))
}

/// The bytes are ASCII and none is a comma.
pub open spec fn ascii_no_comma(b: Seq<u8>) -> bool {
    forall|i: int| 0 <= i < b.len() ==> b[i] < 128 && b[i] != 44
}

proof fn lemma_vlq_groups_ascii(n: nat)
    ensures
        ascii_no_comma(vlq_groups(n)),
    decreases n,
{
    if n >= 32 {
        lemma_vlq_groups_ascii(n / 32);
        let g = vlq_groups(n);
        assert forall|i: int| 0 <= i < g.len() implies g[i] < 128 && g[i] != 44 by {
            if i > 0 {
                assert(g[i] == vlq_groups(n / 32)[i - 1]);
            }
        }
    }
}

/// The mappings text is ASCII; commas stand only between entries.
proof fn lemma_mappings_ascii(locs: Seq<LocationRecord>, offset: int, last: (int, int, int, int), first: bool)
    ensures
        mappings_from(locs, offset, last, first) matches Some(t) ==> forall|i: int| 0 <= i < t.len() ==> #[trigger] t[i] < 128,
    decreases locs.len(),
{
    if locs.len() > 0 {
        if locs[0].line == 0 {
            lemma_mappings_ascii(locs.drop_first(), offset, last, first);
        } else {
            let m = mapped(locs[0], offset);
            lemma_mappings_ascii(locs.drop_first(), offset, m, false);
            let d = (m.0 - last.0, m.1 - last.1, m.2 - last.2, m.3 - last.3);
            if fits_i64(d.0) && fits_i64(d.1) && fits_i64(d.2) && fits_i64(d.3) {
                lemma_vlq_groups_ascii(vlq_number(d.0 as i64));
                lemma_vlq_groups_ascii(vlq_number(d.1 as i64));
                lemma_vlq_groups_ascii(vlq_number(d.2 as i64));
                lemma_vlq_groups_ascii(vlq_number(d.3 as i64));
                match mappings_from(locs.drop_first(), offset, m, false) {
                    Some(rest) => {
                        let sep = if first { Seq::<u8>::empty() } else { seq![44u8] };
                        let e = vlq_digits(d.0 as i64) + vlq_digits(d.1 as i64) + vlq_digits(d.2 as i64) + vlq_digits(d.3 as i64);
                        let t = sep + e + rest;
                        assert forall|i: int| 0 <= i < t.len() implies #[trigger] t[i] < 128 by {
                            if i < sep.len() {
                            } else if i < sep.len() + e.len() {
                                let j = i - sep.len();
                                assert(t[i] == e[j]);
                                let a = vlq_digits(d.0 as i64);
                                let b = vlq_digits(d.1 as i64);
                                let c = vlq_digits(d.2 as i64);
                                let f = vlq_digits(d.3 as i64);
                                if j < a.len() {
                                    assert(e[j] == a[j]);
                                } else if j < a.len() + b.len() {
                                    assert(e[j] == b[j - a.len()]);
                                } else if j < a.len() + b.len() + c.len() {
                                    assert(e[j] == c[j - a.len() - b.len()]);
                                } else {
                                    assert(e[j] == f[j - a.len() - b.len() - c.len()]);
                                }
                            } else {
                                assert(t[i] == rest[i - sep.len() - e.len()]);
                            }
                        }
                    },
                    None => {},
                }
            }
        }
    }
}

/// ASCII bytes are valid UTF-8.
proof fn lemma_ascii_utf8(b: Seq<u8>)
    requires
        forall|i: int| 0 <= i < b.len() ==> #[trigger] b[i] < 128,
    ensures
        valid_utf8(b),
    decreases b.len(),
{
    if b.len() > 0 {
        let r = pop_first_scalar(b);
        assert(r =~= b.subrange(1, b.len() as int));
        assert forall|i: int| 0 <= i < r.len() implies #[trigger] r[i] < 128 by {
            assert(r[i] == b[i + 1]);
        }
        lemma_ascii_utf8(r);
        let b0 = b[0];
        assert(leading_bits_width_1(b0) == b0 as u32) by (bit_vector)
            requires b0 < 128u8;
        assert(valid_first_scalar(b));
    }
}

/// Relies on vlq::encode: it appends the base64 VLQ digits of the number to
/// what the vector holds; writing to a vector does not fail.
#[verifier::external_body]
fn push_vlq(value: i64, buf: &mut Vec<u8>)
    ensures
        final(buf)@ == old(buf)@ + vlq_digits(value),
{
    vlq::encode(value, buf).unwrap()
}

pub open spec fn fits_i64(x: int) -> bool {
    i64::MIN <= x <= i64::MAX
}

/// The four numbers of a record in the mapping: its address in the module,
/// its source, its zero-based line and its zero-based column.
pub open spec fn mapped(loc: LocationRecord, offset: int) -> (int, int, int, int) {
    (
        loc.address as int + offset,
        loc.source_id as int,
        loc.line as int - 1,
        if loc.column == 0 { 0 } else { loc.column as int - 1 },
    )
}

/// The mapping text of the records from the previous entry `last` on:
/// one entry of four VLQ numbers per record with a line, each the difference
/// from the entry before, entries separated by commas. `None` where a
/// difference does not fit in 64 bits.
pub open spec fn mappings_from(locs: Seq<LocationRecord>, offset: int, last: (int, int, int, int), first: bool) -> Option<Seq<u8>>
    decreases locs.len(),
{
    if locs.len() == 0 {
        Some(Seq::empty())
    } else if locs[0].line == 0 {
        mappings_from(locs.drop_first(), offset, last, first)
    } else {
        let m = mapped(locs[0], offset);
        let d = (m.0 - last.0, m.1 - last.1, m.2 - last.2, m.3 - last.3);
        if !fits_i64(d.0) || !fits_i64(d.1) || !fits_i64(d.2) || !fits_i64(d.3) {
            None
        } else {
            let entry = vlq_digits(d.0 as i64) + vlq_digits(d.1 as i64) + vlq_digits(d.2 as i64) + vlq_digits(
                d.3 as i64,
            );
            let sep = if first { Seq::<u8>::empty() } else { seq![44u8] };
            match mappings_from(locs.drop_first(), offset, m, false) {
                Some(rest) => Some(sep + entry + rest),
                None => None,
            }
        }
    }
}

/// The mapping text of all records, from the origin.
pub open spec fn mappings_of(locs: Seq<LocationRecord>, offset: int) -> Option<Seq<u8>> {
    mappings_from(locs, offset, (0, 0, 0, 0), true)
}

pub open spec fn prepend(pre: Seq<u8>, rest: Option<Seq<u8>>) -> Option<Seq<u8>> {
    match rest {
        Some(r) => Some(pre + r),
        None => None,
    }
}

/// Encodes the records that have a line as the mappings string.
pub fn encode_mappings(locs: &Vec<LocationRecord>, code_section_offset: i64) -> (r: Option<Vec<u8>>)
    ensures
        match mappings_of(locs@, code_section_offset as int) {
            Some(text) => r matches Some(b) && b@ == text,
            None => r is None,
        },
{
    let mut buffer: Vec<u8> = Vec::new();
    let mut last: (i128, i128, i128, i128) = (0, 0, 0, 0);
    let mut first = true;
    let mut i: usize = 0;
    proof {
        assert(locs@.subrange(0, locs@.len() as int) =~= locs@);
    }
    while i < locs.len()
        invariant
            i <= locs@.len(),
            -0x2_0000_0000_0000_0000 <= last.0 <= 0x2_0000_0000_0000_0000,
            0 <= last.1 <= 0xffff_ffff,
            -1 <= last.2 <= 0xffff_ffff,
            0 <= last.3 <= 0xffff_ffff,
            mappings_of(locs@, code_section_offset as int) == prepend(buffer@, mappings_from(
                locs@.subrange(i as int, locs@.len() as int),
                code_section_offset as int,
                (last.0 as int, last.1 as int, last.2 as int, last.3 as int),
                first,
            )),
        decreases locs@.len() - i,
    {
        let ghost rest = locs@.subrange(i as int, locs@.len() as int);
        proof {
            assert(rest.drop_first() =~= locs@.subrange(i + 1, locs@.len() as int));
            assert(rest[0] == locs@[i as int]);
        }
        let loc = locs[i];
        if loc.line != 0 {
            let address: i128 = loc.address as i128 + code_section_offset as i128;
            let source_id: i128 = loc.source_id as i128;
            let line: i128 = loc.line as i128 - 1;
            let column: i128 = if loc.column == 0 { 0 } else { loc.column as i128 - 1 };
            let d0 = address - last.0;
            let d1 = source_id - last.1;
            let d2 = line - last.2;
            let d3 = column - last.3;
            if d0 < i64::MIN as i128 || d0 > i64::MAX as i128 || d1 < i64::MIN as i128 || d1 > i64::MAX as i128
                || d2 < i64::MIN as i128 || d2 > i64::MAX as i128 || d3 < i64::MIN as i128 || d3 > i64::MAX as i128 {
                return None;
            }
            let ghost before = buffer@;
            if !first {
                buffer.push(44u8);
            }
            push_vlq(d0 as i64, &mut buffer);
            push_vlq(d1 as i64, &mut buffer);
            push_vlq(d2 as i64, &mut buffer);
            push_vlq(d3 as i64, &mut buffer);
            proof {
                let sep = if first { Seq::<u8>::empty() } else { seq![44u8] };
                let entry = vlq_digits(d0 as i64) + vlq_digits(d1 as i64) + vlq_digits(d2 as i64) + vlq_digits(d3 as i64);
                assert(buffer@ =~= before + sep + entry);
                let tail = mappings_from(
                    locs@.subrange(i + 1, locs@.len() as int),
                    code_section_offset as int,
                    (address as int, source_id as int, line as int, column as int),
                    false,
                );
                match tail {
                    Some(t) => {
                        assert(before + (sep + entry + t) =~= buffer@ + t);
                    },
                    None => {},
                }
            }
            last = (address, source_id, line, column);
            first = false;
        }
        i = i + 1;
    }
    proof {
        assert(buffer@ + Seq::<u8>::empty() =~= buffer@);
    }
    Some(buffer)
}

pub open spec fn hex_digit(d: nat) -> char {
    if d < 10 {
        ((d + 48) as u8) as char
    } else {
        ((d + 55) as u8) as char
    }
}

/// Two upper-case hexadecimal digits for each byte.
pub open spec fn hex_upper(b: Seq<u8>) -> Seq<char>
    decreases b.len(),
{
    if b.len() == 0 {
        Seq::empty()
    } else {
        hex_upper(b.drop_last()) + seq![hex_digit(b.last() as nat / 16), hex_digit(b.last() as nat % 16)]
    }
}

fn digit_str(d: u8) -> (r: &'static str)
    requires
        d < 16,
    ensures
        r@ == seq![hex_digit(d as nat)],
{
    proof {
        reveal_strlit("0");
        reveal_strlit("1");
        reveal_strlit("2");
        reveal_strlit("3");
        reveal_strlit("4");
        reveal_strlit("5");
        reveal_strlit("6");
        reveal_strlit("7");
        reveal_strlit("8");
        reveal_strlit("9");
        reveal_strlit("A");
        reveal_strlit("B");
        reveal_strlit("C");
        reveal_strlit("D");
        reveal_strlit("E");
        reveal_strlit("F");
    }
    let r = match d {
        0 => "0",
        1 => "1",
        2 => "2",
        3 => "3",
        4 => "4",
        5 => "5",
        6 => "6",
        7 => "7",
        8 => "8",
        9 => "9",
        10 => "A",
        11 => "B",
        12 => "C",
        13 => "D",
        14 => "E",
        _ => "F",
    };
    assert(r@ =~= seq![hex_digit(d as nat)]);
    r
}

/// A DWARF expression as upper-case hexadecimal text.
pub fn convert_expr(a: &Vec<u8>) -> (r: String)
    ensures
        r@ == hex_upper(a@),
{
    let mut result = String::new();
    let mut i: usize = 0;
    while i < a.len()
        invariant
            i <= a@.len(),
            result@ == hex_upper(a@.subrange(0, i as int)),
        decreases a@.len() - i,
    {
        let b = a[i];
        result.append(digit_str(b / 16));
        result.append(digit_str(b % 16));
        proof {
            assert(a@.subrange(0, i + 1).drop_last() =~= a@.subrange(0, i as int));
        }
        i = i + 1;
    }
    proof {
        assert(a@.subrange(0, a@.len() as int) =~= a@);
    }
    result
}

fn key(s: &'static str) -> (r: String)
    ensures
        r@ == s@,
{
    String::from_str(s)
}

/// `j` is the pair `[a, b]`.
pub open spec fn pair_is(j: JsonValue, a: i64, b: i64) -> bool {
    j is Array && j->Array_0@.len() == 2 && j->Array_0@[0] == JsonValue::Int(a) && j->Array_0@[1] == JsonValue::Int(b)
}

pub open spec fn is_str(j: JsonValue, s: Seq<char>) -> bool {
    j is Str && j->Str_0@ == s
}

/// `j` is `{"range": [b, e], "expr": hex}` for a location-list entry.
pub open spec fn location_is(j: JsonValue, e: (i64, i64, Vec<u8>)) -> bool {
    &&& j is Object
    &&& j->Object_0@.len() == 2
    &&& j->Object_0@[0].0@ == seq!['r', 'a', 'n', 'g', 'e'] && pair_is(j->Object_0@[0].1, e.0, e.1)
    &&& j->Object_0@[1].0@ == seq!['e', 'x', 'p', 'r'] && is_str(j->Object_0@[1].1, hex_upper(e.2@))
}

/// `j` is the JSON form of the attribute value `v`.
pub open spec fn attr_json_of(j: JsonValue, v: DebugAttrValue) -> bool {
    match v {
        DebugAttrValue::I64(i) => j == JsonValue::Int(i),
        DebugAttrValue::Bool(b) => j == JsonValue::Bool(b),
        DebugAttrValue::String(s) => is_str(j, s@),
        DebugAttrValue::Ranges(rs) => j is Array && j->Array_0@.len() == rs@.len() && forall|k: int|
            0 <= k < rs@.len() ==> pair_is(#[trigger] j->Array_0@[k], rs@[k].0, rs@[k].1),
        DebugAttrValue::LocationList(l) => j is Array && j->Array_0@.len() == l@.len() && forall|k: int|
            0 <= k < l@.len() ==> location_is(#[trigger] j->Array_0@[k], l@[k]),
        DebugAttrValue::Expression(e) => is_str(j, hex_upper(e@)),
        DebugAttrValue::UID(u) => j == JsonValue::Int(u as i64),
        DebugAttrValue::UIDRef(u, name) => {
            &&& j is Object
            &&& j->Object_0@.len() == (if name is Some { 2int } else { 1int })
            &&& j->Object_0@[0].0@ == seq!['u', 'i', 'd'] && j->Object_0@[0].1 == JsonValue::Int(u as i64)
            &&& name is Some ==> j->Object_0@[1].0@ == seq!['n', 'a', 'm', 'e'] && is_str(j->Object_0@[1].1, name->0@)
        },
        DebugAttrValue::Ignored => is_str(j, seq!['<', 'i', 'g', 'n', 'o', 'r', 'e', 'd', '>']),
        DebugAttrValue::Unknown => is_str(j, seq!['?', '?', '?']),
    }
}

fn pair_json(a: i64, b: i64) -> (r: JsonValue)
    ensures
        pair_is(r, a, b),
{
    let mut v: Vec<JsonValue> = Vec::new();
    v.push(JsonValue::Int(a));
    v.push(JsonValue::Int(b));
    JsonValue::Array(v)
}

fn str_json(s: &str) -> (r: JsonValue)
    ensures
        r matches JsonValue::Str(t) && t@ == s@,
{
    JsonValue::Str(String::from_str(s))
}

/// The JSON form of an attribute value.
pub fn attr_json(v: &DebugAttrValue) -> (r: JsonValue)
    ensures
        attr_json_of(r, *v),
{
    match v {
        DebugAttrValue::I64(i) => JsonValue::Int(*i),
        DebugAttrValue::Bool(b) => JsonValue::Bool(*b),
        DebugAttrValue::String(s) => JsonValue::Str(s.clone()),
        DebugAttrValue::Ranges(rs) => {
            let mut items: Vec<JsonValue> = Vec::new();
            let mut i: usize = 0;
            while i < rs.len()
                invariant
                    i <= rs@.len(),
                    items@.len() == i,
                    forall|k: int| 0 <= k < i ==> pair_is(#[trigger] items@[k], rs@[k].0, rs@[k].1),
                decreases rs@.len() - i,
            {
                items.push(pair_json(rs[i].0, rs[i].1));
                i = i + 1;
            }
            JsonValue::Array(items)
        },
        DebugAttrValue::LocationList(l) => {
            let mut items: Vec<JsonValue> = Vec::new();
            let mut i: usize = 0;
            while i < l.len()
                invariant
                    i <= l@.len(),
                    items@.len() == i,
                    forall|k: int| 0 <= k < i ==> location_is(#[trigger] items@[k], l@[k]),
                decreases l@.len() - i,
            {
                proof {
                    reveal_strlit("range");
                    reveal_strlit("expr");
                }
                let mut dict: Vec<(String, JsonValue)> = Vec::new();
                let kr = key("range");
                let ke = key("expr");
                assert(kr@ =~= seq!['r', 'a', 'n', 'g', 'e']);
                assert(ke@ =~= seq!['e', 'x', 'p', 'r']);
                dict.push((kr, pair_json(l[i].0, l[i].1)));
                dict.push((ke, JsonValue::Str(convert_expr(&l[i].2))));
                items.push(JsonValue::Object(dict));
                i = i + 1;
            }
            JsonValue::Array(items)
        },
        DebugAttrValue::Expression(e) => JsonValue::Str(convert_expr(e)),
        DebugAttrValue::UID(u) => JsonValue::Int(*u as i64),
        DebugAttrValue::UIDRef(u, name) => {
            let mut dict: Vec<(String, JsonValue)> = Vec::new();
            proof {
                reveal_strlit("uid");
            }
            let k = key("uid");
            assert(k@ =~= seq!['u', 'i', 'd']);
            dict.push((k, JsonValue::Int(*u as i64)));
            match name {
                Some(s) => {
                    proof {
                        reveal_strlit("name");
                    }
                    let kn = key("name");
                    assert(kn@ =~= seq!['n', 'a', 'm', 'e']);
                    dict.push((kn, JsonValue::Str(s.clone())));
                },
                None => {},
            }
            JsonValue::Object(dict)
        },
        DebugAttrValue::Ignored => {
            proof {
                reveal_strlit("<ignored>");
            }
            let r = str_json("<ignored>");
            assert(r->Str_0@ =~= seq!['<', 'i', 'g', 'n', 'o', 'r', 'e', 'd', '>']);
            r
        },
        DebugAttrValue::Unknown => {
            proof {
                reveal_strlit("???");
            }
            let r = str_json("???");
            assert(r->Str_0@ =~= seq!['?', '?', '?']);
            r
        },
    }
}

pub open spec fn tag_key() -> Seq<char> {
    seq!['t', 'a', 'g']
}

/// `j` is the object of node `o`: `tag`, the attribute names in order, and
/// `children` last where the node has any.
pub open spec fn node_json(j: JsonValue, o: DebugInfoObj) -> bool {
    match j {
        JsonValue::Object(fields) => {
            &&& fields@.len() == 1 + o.attrs@.len() + (if o.children@.len() > 0 { 1int } else { 0int })
            &&& fields@[0].0@ == tag_key()
            &&& (fields@[0].1 matches JsonValue::Str(t) && t@ == o.tag@)
            &&& forall|m: int| 0 <= m < o.attrs@.len() ==> #[trigger] fields@[1 + m].0@ == o.attrs@[m].0@
        },
        _ => false,
    }
}

pub open spec fn children_key() -> Seq<char> {
    seq!['c', 'h', 'i', 'l', 'd', 'r', 'e', 'n']
}

/// `j` is the object of node `o` down to depth `d`: `tag`, each attribute
/// with its JSON value, and `children` last, holding the children's objects.
pub open spec fn node_json_to(j: JsonValue, o: DebugInfoObj, d: nat) -> bool
    decreases d, 0nat,
{
    &&& node_json(j, o)
    &&& forall|m: int| 0 <= m < o.attrs@.len() ==> attr_json_of(#[trigger] j->Object_0@[1 + m].1, o.attrs@[m].1)
    &&& o.children@.len() > 0 ==> j->Object_0@[j->Object_0@.len() - 1].0@ == children_key() && (d > 0
        ==> forest_json_to(j->Object_0@[j->Object_0@.len() - 1].1, o.children@, (d - 1) as nat))
}

/// `j` is the array of the objects of `forest`, down to depth `d`.
pub open spec fn forest_json_to(j: JsonValue, forest: Seq<DebugInfoObj>, d: nat) -> bool
    decreases d, 1nat,
{
    j is Array && j->Array_0@.len() == forest.len() && forall|k: int| 0 <= k < forest.len() ==> node_json_to(
        #[trigger] j->Array_0@[k],
        forest[k],
        d,
    )
}

/// The JSON form of a scope forest: one object per node, with `tag`, then its
/// attributes in order, then `children` where it has any.
pub fn convert_scopes(infos: &Vec<DebugInfoObj>) -> (r: JsonValue)
    ensures
        r matches JsonValue::Array(items) && items@.len() == infos@.len()
            && forall|k: int| 0 <= k < infos@.len() ==> node_json(#[trigger] items@[k], infos@[k]),
        forall|d: nat| #[trigger] forest_json_to(r, infos@, d),
    decreases infos@,
{
    let mut result: Vec<JsonValue> = Vec::new();
    let mut i: usize = 0;
    proof {
        reveal_strlit("tag");
    }
    while i < infos.len()
        invariant
            i <= infos@.len(),
            result@.len() == i,
            forall|k: int| 0 <= k < i ==> node_json(#[trigger] result@[k], infos@[k]),
            forall|k: int, d: nat| 0 <= k < i ==> #[trigger] node_json_to(result@[k], infos@[k], d),
        decreases infos@.len() - i,
    {
        let entry = &infos[i];
        let mut dict: Vec<(String, JsonValue)> = Vec::new();
        proof {
            reveal_strlit("tag");
        }
        let tk = key("tag");
        assert(tk@ =~= tag_key());
        dict.push((tk, JsonValue::Str(entry.tag.clone())));
        let mut j: usize = 0;
        while j < entry.attrs.len()
            invariant
                j <= entry.attrs@.len(),
                dict@.len() == 1 + j,
                dict@[0].0@ == tag_key(),
                dict@[0].1 matches JsonValue::Str(t) && t@ == entry.tag@,
                forall|m: int| 0 <= m < j ==> #[trigger] dict@[1 + m].0@ == entry.attrs@[m].0@,
                forall|m: int| 0 <= m < j ==> attr_json_of(#[trigger] dict@[1 + m].1, entry.attrs@[m].1),
            decreases entry.attrs@.len() - j,
        {
            dict.push((entry.attrs[j].0.clone(), attr_json(&entry.attrs[j].1)));
            j = j + 1;
        }
        let ghost mut kid_json = JsonValue::Int(0);
        if entry.children.len() > 0 {
            proof {
                axiom_vec_decreases_to_view(entry.children);
                assert(decreases_to!(infos@ => infos@[i as int]));
                assert(decreases_to!(infos@[i as int] => entry.children@));
            }
            let kids = convert_scopes(&entry.children);
            proof {
                reveal_strlit("children");
            }
            let kc = key("children");
            assert(kc@ =~= children_key());
            proof {
                kid_json = kids;
            }
            dict.push((kc, kids));
            assert(dict@[dict@.len() - 1].1 == kid_json && dict@[dict@.len() - 1].0@ == children_key());
        }
        let obj = JsonValue::Object(dict);
        proof {
            assert(node_json(obj, infos@[i as int]));
            assert forall|d: nat| node_json_to(obj, infos@[i as int], d) by {
                if entry.children@.len() > 0 && d > 0 {
                    assert(forest_json_to(kid_json, entry.children@, (d - 1) as nat));
                }
                assert forall|m: int| 0 <= m < entry.attrs@.len() implies attr_json_of(#[trigger] obj->Object_0@[1 + m].1, entry.attrs@[m].1) by {
                    assert(obj->Object_0@[1 + m] == dict@[1 + m]);
                }
            }
        }
        result.push(obj);
        i = i + 1;
    }
    let r = JsonValue::Array(result);
    proof {
        assert forall|d: nat| #[trigger] forest_json_to(r, infos@, d) by {
            assert forall|k: int| 0 <= k < infos@.len() implies node_json_to(#[trigger] r->Array_0@[k], infos@[k], d) by {}
        }
    }
    r
}

pub open spec fn version_key() -> Seq<char> {
    seq!['v', 'e', 'r', 's', 'i', 'o', 'n']
}

pub open spec fn sources_key() -> Seq<char> {
    seq!['s', 'o', 'u', 'r', 'c', 'e', 's']
}

pub open spec fn names_key() -> Seq<char> {
    seq!['n', 'a', 'm', 'e', 's']
}

pub open spec fn mappings_key() -> Seq<char> {
    seq!['m', 'a', 'p', 'p', 'i', 'n', 'g', 's']
}

pub open spec fn x_scopes_key() -> Seq<char> {
    seq!['x', '-', 's', 'c', 'o', 'p', 'e', 's']
}

pub open spec fn debug_info_key() -> Seq<char> {
    seq!['d', 'e', 'b', 'u', 'g', '_', 'i', 'n', 'f', 'o']
}

pub open spec fn code_section_offset_key() -> Seq<char> {
    seq!['c', 'o', 'd', 'e', '_', 's', 'e', 'c', 't', 'i', 'o', 'n', '_', 'o', 'f', 'f', 's', 'e', 't']
}

/// `j` is the list of the source paths `sources`, as strings.
pub open spec fn string_list(j: JsonValue, sources: Seq<Seq<char>>) -> bool {
    j matches JsonValue::Array(items) && items@.len() == sources.len()
        && forall|k: int| 0 <= k < sources.len() ==> (#[trigger] items@[k] matches JsonValue::Str(t) && t@ == sources[k])
}

/// The root object of a source map: `version` 3, `sources`, an empty
/// `names`, `mappings`, then `x-scopes` exactly where a scope forest is given,
/// holding `debug_info` and `code_section_offset`.
pub open spec fn source_map_root(j: JsonValue, sources: Seq<Seq<char>>, mappings: Seq<char>, with_scopes: bool, offset: i64) -> bool {
    match j {
        JsonValue::Object(f) => {
            &&& f@.len() == if with_scopes { 5int } else { 4int }
            &&& f@[0].0@ == version_key() && f@[0].1 == JsonValue::Int(3)
            &&& f@[1].0@ == sources_key() && string_list(f@[1].1, sources)
            &&& f@[2].0@ == names_key() && (f@[2].1 matches JsonValue::Array(n) && n@.len() == 0)
            &&& f@[3].0@ == mappings_key() && (f@[3].1 matches JsonValue::Str(m) && m@ == mappings)
            &&& with_scopes ==> f@[4].0@ == x_scopes_key() && (f@[4].1 matches JsonValue::Object(x) && x@.len() == 2
                && x@[0].0@ == debug_info_key() && x@[1].0@ == code_section_offset_key()
                && x@[1].1 == JsonValue::Int(offset))
        },
        _ => false,
    }
}

/// The `x-scopes` part of the root object holds the nodes of `forest`.
pub open spec fn holds_forest(r: JsonValue, forest: Seq<DebugInfoObj>) -> bool {
    match r {
        JsonValue::Object(f) => f@.len() == 5 && match f@[4].1 {
            JsonValue::Object(x) => x@.len() == 2 && match x@[0].1 {
                JsonValue::Array(items) => items@.len() == forest.len()
                    && (forall|k: int| 0 <= k < forest.len() ==> node_json(#[trigger] items@[k], forest[k]))
                    && forall|d: nat| #[trigger] forest_json_to(x@[0].1, forest, d),
                _ => false,
            },
            _ => false,
        },
        _ => false,
    }
}

/// The root object of the source map.
pub fn source_map_value(
    di: &LocationInfo,
    infos: Option<&Vec<DebugInfoObj>>,
    code_section_offset: i64,
    mappings: String,
) -> (r: JsonValue)
    ensures
        source_map_root(r, paths(di.sources@), mappings@, infos is Some, code_section_offset),
        infos matches Some(forest) ==> holds_forest(r, forest@),
{
    proof {
        reveal_strlit("version");
        reveal_strlit("sources");
        reveal_strlit("names");
        reveal_strlit("mappings");
        reveal_strlit("x-scopes");
        reveal_strlit("debug_info");
        reveal_strlit("code_section_offset");
    }
    let mut sources: Vec<JsonValue> = Vec::new();
    let mut i: usize = 0;
    while i < di.sources.len()
        invariant
            i <= di.sources@.len(),
            sources@.len() == i,
            forall|k: int| 0 <= k < i ==> (#[trigger] sources@[k] matches JsonValue::Str(t) && t@ == di.sources@[k]@),
        decreases di.sources@.len() - i,
    {
        sources.push(JsonValue::Str(di.sources[i].clone()));
        i = i + 1;
    }
    let mut root: Vec<(String, JsonValue)> = Vec::new();
    let k0 = key("version");
    let k1 = key("sources");
    let k2 = key("names");
    let k3 = key("mappings");
    assert(k0@ =~= version_key());
    assert(k1@ =~= sources_key());
    assert(k2@ =~= names_key());
    assert(k3@ =~= mappings_key());
    root.push((k0, JsonValue::Int(3)));
    root.push((k1, JsonValue::Array(sources)));
    root.push((k2, JsonValue::Array(Vec::new())));
    root.push((k3, JsonValue::Str(mappings)));
    match infos {
        Some(forest) => {
            let mut x_scopes: Vec<(String, JsonValue)> = Vec::new();
            let d = key("debug_info");
            let c = key("code_section_offset");
            let x = key("x-scopes");
            assert(d@ =~= debug_info_key());
            assert(c@ =~= code_section_offset_key());
            assert(x@ =~= x_scopes_key());
            x_scopes.push((d, convert_scopes(forest)));
            x_scopes.push((c, JsonValue::Int(code_section_offset)));
            root.push((x, JsonValue::Object(x_scopes)));
        },
        None => {},
    }
    JsonValue::Object(root)
}

#[verifier::external_type_specification]
#[verifier::external_body]
pub struct ExSerdeValue(serde_json::Value);

#[verifier::external_type_specification]
#[verifier::external_body]
#[verifier::reject_recursive_types(K)]
#[verifier::reject_recursive_types(V)]
pub struct ExSerdeMap<K, V>(serde_json::Map<K, V>);

/// Relies on serde_json's `From<i64>` for `Value`: a JSON number.
#[verifier::external_body]
fn serde_int(i: i64) -> serde_json::Value {
    serde_json::Value::from(i)
}

/// Relies on serde_json's `Value::Bool`.
#[verifier::external_body]
fn serde_bool(b: bool) -> serde_json::Value {
    serde_json::Value::Bool(b)
}

/// Relies on serde_json's `Value::String`.
#[verifier::external_body]
fn serde_string(s: String) -> serde_json::Value {
    serde_json::Value::String(s)
}

/// Relies on serde_json's `Value::Array`.
#[verifier::external_body]
fn serde_array(items: Vec<serde_json::Value>) -> serde_json::Value {
    serde_json::Value::Array(items)
}

/// Relies on serde_json's `Map::new`: an empty object that keeps keys in
/// insertion order (the `preserve_order` feature).
#[verifier::external_body]
fn serde_map_new() -> serde_json::Map<String, serde_json::Value> {
    serde_json::Map::new()
}

/// Relies on serde_json's `Map::insert`.
#[verifier::external_body]
fn serde_map_insert(map: &mut serde_json::Map<String, serde_json::Value>, k: String, v: serde_json::Value) {
    map.insert(k, v);
}

/// Relies on serde_json's `Value::Object`.
#[verifier::external_body]
fn serde_object(map: serde_json::Map<String, serde_json::Value>) -> serde_json::Value {
    serde_json::Value::Object(map)
}

/// Relies on serde_json::to_vec_pretty: the indented JSON text of a value.
/// It fails only for a `Serialize` impl that fails or a map key that is no
/// string, and a `Value` has neither.
#[verifier::external_body]
fn serde_to_vec_pretty(v: &serde_json::Value) -> (r: Option<Vec<u8>>)
    ensures
        r is Some,
{
    serde_json::to_vec_pretty(v).ok()
}

/// The serde_json value of a JSON value.
fn to_serde(v: &JsonValue) -> serde_json::Value
    decreases v,
{
    match v {
        JsonValue::Int(i) => serde_int(*i),
        JsonValue::Bool(b) => serde_bool(*b),
        JsonValue::Str(s) => serde_string(s.clone()),
        JsonValue::Array(items) => {
            let mut out: Vec<serde_json::Value> = Vec::new();
            let mut i: usize = 0;
            while i < items.len()
                invariant
                    i <= items@.len(),
                    *v == JsonValue::Array(*items),
                decreases items@.len() - i,
            {
                proof {
                    let w = (*v)->Array_0;
                    axiom_vec_decreases_to_view(w);
                    assert(decreases_to!(*v => (*v)->Array_0));
                    assert(decreases_to!(w => w@));
                    assert(decreases_to!(w@ => w@[i as int]));
                    assert(decreases_to!(*v => items@[i as int]));
                }
                out.push(to_serde(&items[i]));
                i = i + 1;
            }
            serde_array(out)
        },
        JsonValue::Object(fields) => {
            let mut map = serde_map_new();
            let mut i: usize = 0;
            while i < fields.len()
                invariant
                    i <= fields@.len(),
                    *v == JsonValue::Object(*fields),
                decreases fields@.len() - i,
            {
                proof {
                    let w = (*v)->Object_0;
                    axiom_vec_decreases_to_view(w);
                    assert(decreases_to!(*v => (*v)->Object_0));
                    assert(decreases_to!(w => w@));
                    assert(decreases_to!(w@ => w@[i as int]));
                    assert(decreases_to!(w@[i as int] => w@[i as int].1));
                    assert(decreases_to!(*v => fields@[i as int].1));
                }
                let value = to_serde(&fields[i].1);
                serde_map_insert(&mut map, fields[i].0.clone(), value);
                i = i + 1;
            }
            serde_object(map)
        },
    }
}

/// The indented JSON text of a value.
pub fn render(v: &JsonValue) -> (r: Option<Vec<u8>>)
    ensures
        r is Some,
{
    serde_to_vec_pretty(&to_serde(v))
}

/// The records that have a line, in order.
pub open spec fn with_lines(locs: Seq<LocationRecord>) -> Seq<LocationRecord>
    decreases locs.len(),
{
    if locs.len() == 0 {
        Seq::empty()
    } else if locs[0].line == 0 {
        with_lines(locs.drop_first())
    } else {
        seq![locs[0]] + with_lines(locs.drop_first())
    }
}

proof fn lemma_mappings_from_with_lines(locs: Seq<LocationRecord>, offset: int, last: (int, int, int, int), first: bool)
    ensures
        mappings_from(locs, offset, last, first) == mappings_from(with_lines(locs), offset, last, first),
        forall|k: int| 0 <= k < with_lines(locs).len() ==> (#[trigger] with_lines(locs)[k]).line != 0,
    decreases locs.len(),
{
    if locs.len() > 0 {
        lemma_mappings_from_with_lines(locs.drop_first(), offset, mapped(locs[0], offset), false);
        lemma_mappings_from_with_lines(locs.drop_first(), offset, last, first);
        if locs[0].line != 0 {
            let w = seq![locs[0]] + with_lines(locs.drop_first());
            assert(w[0] == locs[0]);
            assert(w.drop_first() =~= with_lines(locs.drop_first()));
            assert forall|k: int| 0 <= k < w.len() implies (#[trigger] w[k]).line != 0 by {
                if k > 0 {
                    assert(w[k] == with_lines(locs.drop_first())[k - 1]);
                }
            }
        }
    }
}

/// Records without a line leave the mappings text as it is: the text of the
/// records is that of the records that have a line, and none of those has
/// line zero.
pub proof fn lemma_zero_lines_skipped(locs: Seq<LocationRecord>, offset: int)
    ensures
        mappings_of(locs, offset) == mappings_of(with_lines(locs), offset),
        forall|k: int| 0 <= k < with_lines(locs).len() ==> (#[trigger] with_lines(locs)[k]).line != 0,
{
    lemma_mappings_from_with_lines(locs, offset, (0, 0, 0, 0), true);
}

/// A source map built without a scope forest has no `x-scopes` key.
pub proof fn lemma_no_scopes_key(j: JsonValue, sources: Seq<Seq<char>>, mappings: Seq<char>, offset: i64)
    requires
        source_map_root(j, sources, mappings, false, offset),
    ensures
        j matches JsonValue::Object(f) && forall|k: int| 0 <= k < f@.len() ==> (#[trigger] f@[k]).0@ != x_scopes_key(),
{
    let f = j->Object_0;
    assert(version_key()[0] != x_scopes_key()[0]);
    assert(sources_key()[0] != x_scopes_key()[0]);
    assert(names_key()[0] != x_scopes_key()[0]);
    assert(mappings_key()[0] != x_scopes_key()[0]);
    assert forall|k: int| 0 <= k < f@.len() implies (#[trigger] f@[k]).0@ != x_scopes_key() by {
        if k == 0 {
            assert(f@[k].0@[0] != x_scopes_key()[0]);
        } else if k == 1 {
            assert(f@[k].0@[0] != x_scopes_key()[0]);
        } else if k == 2 {
            assert(f@[k].0@[0] != x_scopes_key()[0]);
        } else {
            assert(f@[k].0@[0] != x_scopes_key()[0]);
        }
    }
}

/// The source-map document of a line table and an optional scope forest,
/// addresses moved by `code_section_offset`; `None` where the mappings text
/// cannot be formed.
pub fn debug_info_document(di: &LocationInfo, infos: Option<&Vec<DebugInfoObj>>, code_section_offset: i64) -> (r: Option<JsonValue>)
    ensures
        mappings_of(di.locations@, code_section_offset as int) is None ==> r is None,
        mappings_of(di.locations@, code_section_offset as int) matches Some(text) ==> (r matches Some(doc)
            && valid_utf8(text) && source_map_root(doc, paths(di.sources@), decode_utf8(text), infos is Some, code_section_offset)
            && (infos matches Some(forest) ==> holds_forest(doc, forest@))),
{
    let bytes = match encode_mappings(&di.locations, code_section_offset) {
        Some(b) => b,
        None => return None,
    };
    proof {
        lemma_mappings_ascii(di.locations@, code_section_offset as int, (0, 0, 0, 0), true);
        lemma_ascii_utf8(bytes@);
    }
    let text = match utf8_str(bytes.as_slice()) {
        Some(t) => String::from_str(t),
        None => return None,
    };
    Some(source_map_value(di, infos, code_section_offset, text))
}

/// The text of the source map of a line table and an optional scope forest.
pub fn convert_debug_info_to_json(
    di: &LocationInfo,
    infos: Option<&Vec<DebugInfoObj>>,
    code_section_offset: i64,
) -> (r: Result<Vec<u8>, crate::convert::Error>)
    ensures
        mappings_of(di.locations@, code_section_offset as int) is None ==> r == Err::<Vec<u8>, crate::convert::Error>(
            crate::convert::Error::OutputError,
        ),
        mappings_of(di.locations@, code_section_offset as int) is Some ==> r is Ok,
        r is Err ==> r == Err::<Vec<u8>, crate::convert::Error>(crate::convert::Error::OutputError),
{
    let doc = match debug_info_document(di, infos, code_section_offset) {
        Some(d) => d,
        None => return Err(crate::convert::Error::OutputError),
    };
    match render(&doc) {
        Some(json) => Ok(json),
        None => Err(crate::convert::Error::OutputError),
    }
}

/// Number of commas in `t`.
pub open spec fn commas(t: Seq<u8>) -> nat
    decreases t.len(),
{
    if t.len() == 0 {
        0
    } else {
        commas(t.drop_last()) + if t.last() == 44u8 { 1nat } else { 0nat }
    }
}

proof fn lemma_commas_append(a: Seq<u8>, b: Seq<u8>)
    ensures
        commas(a + b) == commas(a) + commas(b),
    decreases b.len(),
{
    if b.len() > 0 {
        lemma_commas_append(a, b.drop_last());
        assert((a + b).drop_last() =~= a + b.drop_last());
    } else {
        assert(a + b =~= a);
    }
}

proof fn lemma_no_commas(t: Seq<u8>)
    requires
        ascii_no_comma(t),
    ensures
        commas(t) == 0,
    decreases t.len(),
{
    if t.len() > 0 {
        lemma_no_commas(t.drop_last());
    }
}

proof fn lemma_mappings_commas(locs: Seq<LocationRecord>, offset: int, last: (int, int, int, int), first: bool)
    ensures
        mappings_from(locs, offset, last, first) matches Some(t) ==> commas(t) + (if first && with_lines(locs).len() > 0 { 1nat } else { 0nat })
            == with_lines(locs).len(),
    decreases locs.len(),
{
    if locs.len() > 0 {
        if locs[0].line == 0 {
            lemma_mappings_commas(locs.drop_first(), offset, last, first);
        } else {
            let m = mapped(locs[0], offset);
            lemma_mappings_commas(locs.drop_first(), offset, m, false);
            let d = (m.0 - last.0, m.1 - last.1, m.2 - last.2, m.3 - last.3);
            assert(with_lines(locs).len() == 1 + with_lines(locs.drop_first()).len());
            if fits_i64(d.0) && fits_i64(d.1) && fits_i64(d.2) && fits_i64(d.3) {
                match mappings_from(locs.drop_first(), offset, m, false) {
                    Some(rest) => {
                        let a = vlq_digits(d.0 as i64);
                        let b = vlq_digits(d.1 as i64);
                        let c = vlq_digits(d.2 as i64);
                        let f = vlq_digits(d.3 as i64);
                        lemma_vlq_groups_ascii(vlq_number(d.0 as i64));
                        lemma_vlq_groups_ascii(vlq_number(d.1 as i64));
                        lemma_vlq_groups_ascii(vlq_number(d.2 as i64));
                        lemma_vlq_groups_ascii(vlq_number(d.3 as i64));
                        lemma_no_commas(a);
                        lemma_no_commas(b);
                        lemma_no_commas(c);
                        lemma_no_commas(f);
                        lemma_commas_append(a, b);
                        lemma_commas_append(a + b, c);
                        lemma_commas_append(a + b + c, f);
                        let e = a + b + c + f;
                        let sep = if first { Seq::<u8>::empty() } else { seq![44u8] };
                        assert(commas(seq![44u8]) == 1) by {
                            let one = seq![44u8];
                            assert(one.drop_last() =~= Seq::<u8>::empty());
                            assert(one.last() == 44u8);
                            assert(commas(Seq::<u8>::empty()) == 0);
                            assert(commas(one) == commas(one.drop_last()) + 1);
                        }
                        lemma_commas_append(sep, e);
                        lemma_commas_append(sep + e, rest);
                    },
                    None => {},
                }
            }
        }
    }
}

/// The mappings text holds one entry per record that has a line: its commas
/// are one fewer than those records (none where there is none).
pub proof fn lemma_entry_count(locs: Seq<LocationRecord>, offset: int)
    ensures
        mappings_of(locs, offset) matches Some(t) ==> (with_lines(locs).len() == 0 ==> t.len() == 0)
            && (with_lines(locs).len() > 0 ==> commas(t) + 1 == with_lines(locs).len()),
{
    lemma_mappings_commas(locs, offset, (0, 0, 0, 0), true);
    lemma_empty_mappings(locs, offset, (0, 0, 0, 0), true);
}

proof fn lemma_empty_mappings(locs: Seq<LocationRecord>, offset: int, last: (int, int, int, int), first: bool)
    ensures
        with_lines(locs).len() == 0 ==> mappings_from(locs, offset, last, first) == Some(Seq::<u8>::empty()),
    decreases locs.len(),
{
    if locs.len() > 0 {
        lemma_empty_mappings(locs.drop_first(), offset, last, first);
        if locs[0].line != 0 {
            assert(with_lines(locs).len() == 1 + with_lines(locs.drop_first()).len());
        }
    }
}

} // verus!
