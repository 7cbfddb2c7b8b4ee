//! The scope tree: debugging-information entries as a forest of tagged nodes
//! with their attributes, with the functions that the linker dropped pruned.

use vstd::prelude::*;
use vstd::string::*;
use crate::dwarf::Error;
use crate::lines::FileName;
use crate::liveness::{is_out_of_range, out_of_range};
use vstd::std_specs::vec::axiom_vec_decreases_to_view;
use crate::sources::{distinct, is_slash_rooted, join, join_path, lemma_position_registered, paths, position, registered, source_id, starts_with_slash};

verus! {

/// The value of an attribute of a scope node.
pub enum DebugAttrValue {
    I64(i64),
    Bool(bool),
    String(String),
    Ranges(Vec<(i64, i64)>),
    Expression(Vec<u8>),
    LocationList(Vec<(i64, i64, Vec<u8>)>),
    /// The entry's own id: its offset in the unit.
    UID(usize),
    /// Another entry, by id, with its name where it has one.
    UIDRef(usize, Option<String>),
    /// Recognised and left out on purpose.
    Ignored,
    /// An encoding that is not recognised.
    Unknown,
}

/// A node of the scope tree.
pub struct DebugInfoObj {
    pub tag: String,
    /// Attribute names are distinct; they keep the order of the entry.
    pub attrs: Vec<(String, DebugAttrValue)>,
    pub children: Vec<DebugInfoObj>,
}

/// An attribute value as the DWARF reader decodes it, by form.
pub enum RawAttrValue {
    Addr(u64),
    Udata(u64),
    Data1(u8),
    Data2([u8; 2]),
    Data4([u8; 4]),
    Sdata(i64),
    DebugLineRef(usize),
    Flag(bool),
    FileIndex(u64),
    /// A string, read from the string section.
    Str(String),
    RangeList(Vec<(u64, u64)>),
    LocationList(Vec<(u64, u64, Vec<u8>)>),
    Exprloc(Vec<u8>),
    /// An encoded constant, by the full name of the constant where it has one.
    Constant(Option<String>),
    /// A reference into the same unit, with the target's linkage name and name.
    UnitRef(usize, Option<String>, Option<String>),
    /// A reference to an entry of another unit.
    DebugInfoRef,
    Other,
}

/// An attribute, by the full name of its constant where it has one.
pub struct RawAttr {
    pub name: Option<String>,
    pub value: RawAttrValue,
}

/// An entry as a depth-first walk reaches it: its depth relative to the entry
/// before it, its offset, the full name of its tag and its attributes.
pub struct RawEntry {
    pub depth_delta: i64,
    pub offset: usize,
    pub tag: Option<String>,
    pub attrs: Vec<RawAttr>,
}

/// The entries of one unit, with what resolves its file indices: the
/// compilation directory and the file table of its line-number program
/// (by file index, `None` where the table has no file), if it has one.
pub struct ScopeUnit {
    pub comp_dir: Option<String>,
    pub files: Option<Vec<Option<FileName>>>,
    pub entries: Vec<RawEntry>,
}

/// Reads a little-endian 16-bit number.
pub fn decode_data2(d: &[u8]) -> (r: i64)
    requires
        d@.len() >= 2,
    ensures
        r == d@[0] as int + 256 * d@[1] as int,
{
    d[0] as i64 + 256 * (d[1] as i64)
}

/// Reads a little-endian 32-bit number.
pub fn decode_data4(d: &[u8]) -> (r: i64)
    requires
        d@.len() >= 4,
    ensures
        r == d@[0] as int + 0x100 * d@[1] as int + 0x1_0000 * d@[2] as int + 0x100_0000 * d@[3] as int,
{
    d[0] as i64 + 0x100 * (d[1] as i64) + 0x1_0000 * (d[2] as i64) + 0x100_0000 * (d[3] as i64)
}

/// No `_` among the first `n` characters.
pub open spec fn no_underscore_before(s: Seq<char>, n: int) -> bool {
    forall|k: int| 0 <= k < n ==> s[k] != '_'
}

/// What follows the first `_`, if there is one.
pub open spec fn after_underscore(s: Seq<char>) -> Option<Seq<char>> {
    if exists|i: int| 0 <= i < s.len() && s[i] == '_' && no_underscore_before(s, i) {
        let i = choose|i: int| 0 <= i < s.len() && s[i] == '_' && no_underscore_before(s, i);
        Some(s.subrange(i + 1, s.len() as int))
    } else {
        None
    }
}

/// The short name of a constant: what follows its second `_`
/// (`DW_ATE_signed` gives `signed`).
pub open spec fn short_constant_name(s: Seq<char>) -> Option<Seq<char>> {
    match after_underscore(s) {
        Some(t) => after_underscore(t),
        None => None,
    }
}

fn skip_underscore(s: &str) -> (r: Option<&str>)
    ensures
        match r {
            Some(t) => after_underscore(s@) == Some(t@),
            None => after_underscore(s@) is None,
        },
{
    let n = s.unicode_len();
    let mut i: usize = 0;
    while i < n
        invariant
            n == s@.len(),
            i <= n,
            no_underscore_before(s@, i as int),
        decreases n - i,
    {
        if s.get_char(i) == '_' {
            proof {
                let j = choose|j: int| 0 <= j < s@.len() && s@[j] == '_' && no_underscore_before(s@, j);
                assert(j == i as int) by {
                    if j < i {
                        assert(s@[j] != '_');
                    }
                    if j > i {
                        assert(s@[i as int] != '_');
                    }
                }
            }
            return Some(s.substring_char(i + 1, n));
        }
        i = i + 1;
    }
    None
}

/// The short name of an encoded constant.
pub fn enum_to_str(s: &Option<String>) -> (r: Result<DebugAttrValue, Error>)
    ensures
        match s {
            Some(full) => match short_constant_name(full@) {
                Some(short) => r matches Ok(DebugAttrValue::String(t)) && t@ == short,
                None => r == Err::<DebugAttrValue, Error>(Error::DataFormat),
            },
            None => r == Err::<DebugAttrValue, Error>(Error::DataFormat),
        },
{
    match s {
        None => Err(Error::DataFormat),
        Some(full) => match skip_underscore(full.as_str()) {
            None => Err(Error::DataFormat),
            Some(s2) => match skip_underscore(s2) {
                None => Err(Error::DataFormat),
                Some(s3) => Ok(DebugAttrValue::String(String::from_str(s3))),
            },
        },
    }
}

/// The path of a file that an attribute names: `directory/name`, under the
/// compilation directory when the directory is not rooted at `/`.
pub open spec fn entry_file_path(comp_dir: Option<String>, f: FileName) -> Seq<char> {
    match f.directory {
        None => f.path_name@,
        Some(d) => {
            let full = join_path(d@, f.path_name@);
            match comp_dir {
                Some(c) => if is_slash_rooted(d@) {
                    full
                } else {
                    c@ + seq!['/'] + full
                },
                None => full,
            }
        },
    }
}

pub open spec fn file_entry(unit: ScopeUnit, file_index: u64) -> Option<FileName> {
    match unit.files {
        Some(files) => if file_index < files@.len() {
            files@[file_index as int]
        } else {
            None
        },
        None => None,
    }
}

/// The sources register `path` (unchanged where it is there), and the
/// result is its position, or `DataFormat` where that does not fit in `i64`.
pub open spec fn source_id_result(r: Result<Option<i64>, Error>, before: Seq<Seq<char>>, after: Seq<Seq<char>>, path: Seq<char>) -> bool {
    &&& after == registered(before, path)
    &&& if position(after, path) <= i64::MAX {
        r == Ok::<Option<i64>, Error>(Some(position(after, path) as i64))
    } else {
        r == Err::<Option<i64>, Error>(Error::DataFormat)
    }
}

/// The value of a file-index attribute: -1 for index zero, the id of the
/// file's path otherwise; `MissingDwarfEntry` where the file table lacks it.
pub open spec fn file_attr_result(r: Result<DebugAttrValue, Error>, i: u64, unit: ScopeUnit, before: Seq<Seq<char>>, after: Seq<Seq<char>>) -> bool {
    if i == 0 {
        r == Ok::<DebugAttrValue, Error>(DebugAttrValue::I64(-1i64)) && after == before
    } else {
        match file_entry(unit, i) {
            None => r == Err::<DebugAttrValue, Error>(Error::MissingDwarfEntry) && after == before,
            Some(f) => {
                let path = entry_file_path(unit.comp_dir, f);
                &&& after == registered(before, path)
                &&& if position(after, path) <= i64::MAX {
                    r == Ok::<DebugAttrValue, Error>(DebugAttrValue::I64(position(after, path) as i64))
                } else {
                    r == Err::<DebugAttrValue, Error>(Error::DataFormat)
                }
            },
        }
    }
}

/// The source id of a file index: none for index zero, the id of the file's
/// path otherwise. Fails when the unit has no line-number program or its
/// file table lacks the index.
pub fn get_source_id(sources: &mut Vec<String>, unit: &ScopeUnit, file_index: u64) -> (r: Result<Option<i64>, Error>)
    requires
        distinct(paths(old(sources)@)),
    ensures
        distinct(paths(final(sources)@)),
        old(sources)@.is_prefix_of(final(sources)@),
        file_index == 0 ==> r == Ok::<Option<i64>, Error>(None) && final(sources)@ == old(sources)@,
        file_index != 0 && file_entry(*unit, file_index) is None ==> r == Err::<Option<i64>, Error>(Error::MissingDwarfEntry)
            && final(sources)@ == old(sources)@,
        file_index != 0 && file_entry(*unit, file_index) is Some ==> source_id_result(
            r,
            paths(old(sources)@),
            paths(final(sources)@),
            entry_file_path(unit.comp_dir, file_entry(*unit, file_index)->0),
        ),
{
    if file_index == 0 {
        return Ok(None);
    }
    let files = match &unit.files {
        Some(files) => files,
        None => return Err(Error::MissingDwarfEntry),
    };
    if file_index >= files.len() as u64 {
        return Err(Error::MissingDwarfEntry);
    }
    let file = match &files[file_index as usize] {
        Some(f) => f,
        None => return Err(Error::MissingDwarfEntry),
    };
    let path = match &file.directory {
        None => file.path_name.clone(),
        Some(d) => {
            let full = join(d.as_str(), file.path_name.as_str());
            match &unit.comp_dir {
                Some(c) => if starts_with_slash(d.as_str()) {
                    full
                } else {
                    join(c.as_str(), full.as_str())
                },
                None => full,
            }
        },
    };
    proof {
        assert(join_path(unit.comp_dir->0@, join_path(file.directory->0@, file.path_name@))
            =~= unit.comp_dir->0@ + seq!['/'] + join_path(file.directory->0@, file.path_name@));
    }
    let id = source_id(sources, path);
    proof {
        assert(old(sources)@.is_prefix_of(sources@));
    }
    if id as u64 > 0x7fff_ffff_ffff_ffff {
        return Err(Error::DataFormat);
    }
    Ok(Some(id as i64))
}

/// `x`, for a sum of two 64-bit numbers, wrapped into 64 bits.
pub open spec fn wrap_i64(x: int) -> i64 {
    if x > i64::MAX {
        (x - 0x1_0000_0000_0000_0000) as i64
    } else if x < i64::MIN {
        (x + 0x1_0000_0000_0000_0000) as i64
    } else {
        x as i64
    }
}

/// An attribute that converts: a name of the `DW_AT_` family, a constant
/// with a short name, a file index that the file table resolves, ranges
/// that do not end before they begin.
pub open spec fn attr_ok(a: RawAttr, unit: ScopeUnit) -> bool {
    &&& a.name is Some && a.name->0@.len() >= 6
    &&& value_ok(a.value, unit)
}

/// A value that converts.
pub open spec fn value_ok(v: RawAttrValue, unit: ScopeUnit) -> bool {
    match v {
        RawAttrValue::Constant(c) => c is Some && short_constant_name(c->0@) is Some,
        RawAttrValue::FileIndex(i) => i == 0 || file_entry(unit, i) is Some,
        RawAttrValue::RangeList(rs) => forall|k: int| 0 <= k < rs@.len() ==> rs@[k].0 <= rs@[k].1,
        _ => true,
    }
}

/// An entry that converts: a tag of the `DW_TAG_` family and attributes that convert.
pub open spec fn entry_ok(e: RawEntry, unit: ScopeUnit) -> bool {
    &&& e.tag is Some && e.tag->0@.len() >= 7
    &&& forall|j: int| 0 <= j < e.attrs@.len() ==> attr_ok(#[trigger] e.attrs@[j], unit)
}

/// Every entry of every unit converts.
pub open spec fn units_ok(units: Seq<ScopeUnit>) -> bool {
    forall|k: int, j: int| 0 <= k < units.len() && 0 <= j < units[k].entries@.len() ==> entry_ok(
        #[trigger] units[k].entries@[j],
        units[k],
    )
}

pub open spec fn high_pc_name() -> Seq<char> {
    seq!['h', 'i', 'g', 'h', '_', 'p', 'c']
}

pub open spec fn low_pc_name() -> Seq<char> {
    seq!['l', 'o', 'w', '_', 'p', 'c']
}

/// The value that `name` has among `attrs`, if it is there.
pub open spec fn attr_of(attrs: Seq<(String, DebugAttrValue)>, name: Seq<char>) -> Option<DebugAttrValue> {
    if exists|i: int| 0 <= i < attrs.len() && attrs[i].0@ == name {
        let i = choose|i: int| 0 <= i < attrs.len() && attrs[i].0@ == name;
        Some(attrs[i].1)
    } else {
        None
    }
}

/// Attribute names are distinct.
pub open spec fn attr_names_distinct(attrs: Seq<(String, DebugAttrValue)>) -> bool {
    forall|i: int, j: int| 0 <= i < j < attrs.len() ==> attrs[i].0@ != attrs[j].0@
}

/// Position of `name` among `attrs`.
fn find_attr(attrs: &Vec<(String, DebugAttrValue)>, name: &str) -> (r: Option<usize>)
    requires
        attr_names_distinct(attrs@),
    ensures
        match r {
            Some(i) => i < attrs@.len() && attrs@[i as int].0@ == name@ && attr_of(attrs@, name@) == Some(attrs@[i as int].1),
            None => forall|k: int| 0 <= k < attrs@.len() ==> attrs@[k].0@ != name@,
        },
        r is None <==> attr_of(attrs@, name@) is None,
{
    let wanted = String::from_str(name);
    let mut i: usize = 0;
    while i < attrs.len()
        invariant
            i <= attrs@.len(),
            wanted@ == name@,
            attr_names_distinct(attrs@),
            forall|k: int| 0 <= k < i ==> attrs@[k].0@ != name@,
        decreases attrs@.len() - i,
    {
        if attrs[i].0 == wanted {
            proof {
                let j = choose|j: int| 0 <= j < attrs@.len() && attrs@[j].0@ == name@;
                assert(j == i) by {
                    if j < i {
                        assert(attrs@[j].0@ != name@);
                    }
                    if j > i {
                        assert(attrs@[i as int].0@ != attrs@[j].0@);
                    }
                }
            }
            return Some(i);
        }
        i = i + 1;
    }
    None
}

/// The value of `low_pc` when it is an integer.
fn low_pc_of(attrs: &Vec<(String, DebugAttrValue)>) -> (r: Option<i64>)
    requires
        attr_names_distinct(attrs@),
    ensures
        r == (match attr_of(attrs@, low_pc_name()) {
            Some(DebugAttrValue::I64(v)) => Some(v),
            _ => None,
        }),
{
    proof {
        reveal_strlit("low_pc");
        assert("low_pc"@ =~= low_pc_name());
    }
    match find_attr(attrs, "low_pc") {
        Some(i) => match &attrs[i].1 {
            DebugAttrValue::I64(v) => Some(*v),
            _ => None,
        },
        None => None,
    }
}

/// Gives `name` the value `value`: in place where it is there, last where not.
fn set_attr(attrs: &mut Vec<(String, DebugAttrValue)>, name: String, value: DebugAttrValue)
    requires
        attr_names_distinct(old(attrs)@),
    ensures
        attr_names_distinct(final(attrs)@),
        attr_of(final(attrs)@, name@) == Some(value),
        forall|n: Seq<char>| n != name@ ==> attr_of(final(attrs)@, n) == attr_of(old(attrs)@, n),
{
    let ghost nm = name@;
    match find_attr(attrs, name.as_str()) {
        Some(i) => {
            attrs.set(i, (name, value));
            proof {
                assert forall|n: Seq<char>| n != nm implies attr_of(attrs@, n) == attr_of(old(attrs)@, n) by {
                    if exists|k: int| 0 <= k < attrs@.len() && attrs@[k].0@ == n {
                        let k = choose|k: int| 0 <= k < attrs@.len() && attrs@[k].0@ == n;
                        assert(old(attrs)@[k].0@ == n);
                    }
                    if exists|k: int| 0 <= k < old(attrs)@.len() && old(attrs)@[k].0@ == n {
                        let k = choose|k: int| 0 <= k < old(attrs)@.len() && old(attrs)@[k].0@ == n;
                        assert(attrs@[k].0@ == n);
                    }
                }
                assert(attrs@[i as int].0@ == nm);
            }
        },
        None => {
            attrs.push((name, value));
            proof {
                let last = attrs@.len() - 1;
                assert(attrs@[last].0@ == nm);
                assert forall|n: Seq<char>| n != nm implies attr_of(attrs@, n) == attr_of(old(attrs)@, n) by {
                    if exists|k: int| 0 <= k < attrs@.len() && attrs@[k].0@ == n {
                        let k = choose|k: int| 0 <= k < attrs@.len() && attrs@[k].0@ == n;
                        assert(old(attrs)@[k].0@ == n);
                    }
                    if exists|k: int| 0 <= k < old(attrs)@.len() && old(attrs)@[k].0@ == n {
                        let k = choose|k: int| 0 <= k < old(attrs)@.len() && old(attrs)@[k].0@ == n;
                        assert(attrs@[k].0@ == n);
                    }
                }
            }
        },
    }
}

/// The name that follows a constant's family prefix of `n` characters
/// (`DW_TAG_subprogram` gives `subprogram` for `n == 7`).
fn strip_family(full: &Option<String>, n: usize) -> (r: Result<String, Error>)
    ensures
        match full {
            Some(f) => if n <= f@.len() {
                r matches Ok(t) && t@ == f@.subrange(n as int, f@.len() as int)
            } else {
                r == Err::<String, Error>(Error::DataFormat)
            },
            None => r == Err::<String, Error>(Error::DataFormat),
        },
{
    match full {
        None => Err(Error::DataFormat),
        Some(f) => {
            let len = f.as_str().unicode_len();
            if n > len {
                Err(Error::DataFormat)
            } else {
                Ok(String::from_str(f.as_str().substring_char(n, len)))
            }
        },
    }
}

/// Copies address ranges as signed numbers; fails on a range that ends before it begins.
fn convert_ranges(v: &Vec<(u64, u64)>) -> (r: Result<Vec<(i64, i64)>, Error>)
    ensures
        match r {
            Ok(out) => out@.len() == v@.len() && forall|i: int| 0 <= i < v@.len() ==>
                out@[i] == (#[verifier::truncate] (v@[i].0 as i64), #[verifier::truncate] (v@[i].1 as i64)),
            Err(e) => e == Error::DataFormat && exists|i: int| 0 <= i < v@.len() && v@[i].0 > v@[i].1,
        },
{
    let mut out: Vec<(i64, i64)> = Vec::new();
    let mut i: usize = 0;
    while i < v.len()
        invariant
            i <= v@.len(),
            out@.len() == i,
            forall|k: int| 0 <= k < i ==> out@[k] == (#[verifier::truncate] (v@[k].0 as i64), #[verifier::truncate] (v@[k].1 as i64)),
        decreases v@.len() - i,
    {
        let (b, e) = v[i];
        if b > e {
            return Err(Error::DataFormat);
        }
        out.push((#[verifier::truncate] (b as i64), #[verifier::truncate] (e as i64)));
        i = i + 1;
    }
    Ok(out)
}

fn copy_bytes(v: &Vec<u8>) -> (r: Vec<u8>)
    ensures
        r@ == v@,
{
    let mut out: Vec<u8> = Vec::new();
    let mut i: usize = 0;
    while i < v.len()
        invariant
            i <= v@.len(),
            out@ == v@.subrange(0, i as int),
        decreases v@.len() - i,
    {
        out.push(v[i]);
        i = i + 1;
    }
    out
}

/// Copies a location list with its ranges as signed numbers.
fn convert_locations(v: &Vec<(u64, u64, Vec<u8>)>) -> (r: Vec<(i64, i64, Vec<u8>)>)
    ensures
        r@.len() == v@.len(),
        forall|i: int| 0 <= i < v@.len() ==> r@[i].0 == (#[verifier::truncate] (v@[i].0 as i64)) && r@[i].1 == (#[verifier::truncate] (v@[i].1 as i64))
            && r@[i].2@ == v@[i].2@,
{
    let mut out: Vec<(i64, i64, Vec<u8>)> = Vec::new();
    let mut i: usize = 0;
    while i < v.len()
        invariant
            i <= v@.len(),
            out@.len() == i,
            forall|k: int| 0 <= k < i ==> out@[k].0 == (#[verifier::truncate] (v@[k].0 as i64)) && out@[k].1 == (#[verifier::truncate] (v@[k].1 as i64))
                && out@[k].2@ == v@[k].2@,
        decreases v@.len() - i,
    {
        let b = v[i].0;
        let e = v[i].1;
        let bytes = copy_bytes(&v[i].2);
        out.push((#[verifier::truncate] (b as i64), #[verifier::truncate] (e as i64), bytes));
        i = i + 1;
    }
    out
}

/// The name that a reference shows: the target's linkage name, else its name.
pub open spec fn ref_name(linkage: Option<String>, name: Option<String>) -> Option<Seq<char>> {
    match linkage {
        Some(l) => Some(l@),
        None => match name {
            Some(n) => Some(n@),
            None => None,
        },
    }
}

fn copy_name(s: &Option<String>) -> (r: Option<String>)
    ensures
        r is Some <==> s is Some,
        r is Some ==> r->0@ == s->0@,
{
    match s {
        Some(t) => Some(t.clone()),
        None => None,
    }
}

/// The scope-tree value of an attribute. `low_pc` is the entry's `low_pc`
/// so far, which an offset `high_pc` is relative to.
fn convert_attr(
    name: &str,
    raw: &RawAttrValue,
    low_pc: Option<i64>,
    sources: &mut Vec<String>,
    unit: &ScopeUnit,
) -> (r: Result<DebugAttrValue, Error>)
    requires
        distinct(paths(old(sources)@)),
    ensures
        distinct(paths(final(sources)@)),
        old(sources)@.is_prefix_of(final(sources)@),
        (value_ok(*raw, *unit) && final(sources)@.len() <= i64::MAX) ==> r is Ok,
        *raw matches RawAttrValue::Addr(u) ==> r == Ok::<DebugAttrValue, Error>(
            DebugAttrValue::I64(#[verifier::truncate] (u as i64)),
        ),
        *raw matches RawAttrValue::Udata(u) ==> if name@ == high_pc_name() {
            let base: int = match low_pc { Some(l) => l as int, None => 0 };
            let sum = (#[verifier::truncate] (u as i64)) as int + base;
            r == Ok::<DebugAttrValue, Error>(DebugAttrValue::I64(wrap_i64(sum)))
        } else {
            r == Ok::<DebugAttrValue, Error>(DebugAttrValue::I64(#[verifier::truncate] (u as i64)))
        },
        *raw matches RawAttrValue::Data1(b) ==> r == Ok::<DebugAttrValue, Error>(DebugAttrValue::I64(b as i64)),
        *raw matches RawAttrValue::Data2(d) ==> r == Ok::<DebugAttrValue, Error>(
            DebugAttrValue::I64((d@[0] as int + 256 * d@[1] as int) as i64),
        ),
        *raw matches RawAttrValue::Data4(d) ==> r == Ok::<DebugAttrValue, Error>(DebugAttrValue::I64(
            (d@[0] as int + 0x100 * d@[1] as int + 0x1_0000 * d@[2] as int + 0x100_0000 * d@[3] as int) as i64,
        )),
        *raw matches RawAttrValue::Sdata(i) ==> r == Ok::<DebugAttrValue, Error>(DebugAttrValue::I64(i)),
        *raw matches RawAttrValue::DebugLineRef(o) ==> r == Ok::<DebugAttrValue, Error>(
            DebugAttrValue::I64(#[verifier::truncate] (o as i64)),
        ),
        *raw matches RawAttrValue::Flag(f) ==> r == Ok::<DebugAttrValue, Error>(DebugAttrValue::Bool(f)),
        *raw matches RawAttrValue::FileIndex(i) ==> file_attr_result(r, i, *unit, paths(old(sources)@), paths(final(sources)@)),
        *raw matches RawAttrValue::Str(s) ==> r matches Ok(DebugAttrValue::String(t)) && t@ == s@,
        *raw matches RawAttrValue::RangeList(v) ==> match r {
            Ok(DebugAttrValue::Ranges(out)) => out@.len() == v@.len() && forall|k: int| 0 <= k < v@.len() ==>
                out@[k] == (#[verifier::truncate] (v@[k].0 as i64), #[verifier::truncate] (v@[k].1 as i64)),
            Ok(_) => false,
            Err(e) => e == Error::DataFormat && exists|k: int| 0 <= k < v@.len() && v@[k].0 > v@[k].1,
        },
        *raw matches RawAttrValue::LocationList(v) ==> r matches Ok(DebugAttrValue::LocationList(out))
            && out@.len() == v@.len(),
        *raw matches RawAttrValue::Exprloc(b) ==> r matches Ok(DebugAttrValue::Expression(out)) && out@ == b@,
        *raw matches RawAttrValue::Constant(c) ==> match c {
            Some(full) => match short_constant_name(full@) {
                Some(short) => r matches Ok(DebugAttrValue::String(t)) && t@ == short,
                None => r == Err::<DebugAttrValue, Error>(Error::DataFormat),
            },
            None => r == Err::<DebugAttrValue, Error>(Error::DataFormat),
        },
        *raw matches RawAttrValue::UnitRef(o, l, n) ==> match r {
            Ok(DebugAttrValue::UIDRef(id, shown)) => id == o && (match ref_name(l, n) {
                Some(t) => shown matches Some(s) && s@ == t,
                None => shown is None,
            }),
            _ => false,
        },
        *raw matches RawAttrValue::DebugInfoRef ==> r == Ok::<DebugAttrValue, Error>(DebugAttrValue::Ignored),
        *raw matches RawAttrValue::Other ==> r == Ok::<DebugAttrValue, Error>(DebugAttrValue::Unknown),
{
    match raw {
        RawAttrValue::Addr(u) => Ok(DebugAttrValue::I64(#[verifier::truncate] (*u as i64))),
        RawAttrValue::Udata(u) => {
            proof {
                reveal_strlit("high_pc");
                assert("high_pc"@ =~= high_pc_name());
            }
            if String::from_str(name) == String::from_str("high_pc") {
                let base: i64 = match low_pc {
                    Some(l) => l,
                    None => 0,
                };
                let sum: i128 = (#[verifier::truncate] (*u as i64)) as i128 + base as i128;
                let wrapped: i128 = if sum > i64::MAX as i128 {
                    sum - 0x1_0000_0000_0000_0000
                } else if sum < i64::MIN as i128 {
                    sum + 0x1_0000_0000_0000_0000
                } else {
                    sum
                };
                Ok(DebugAttrValue::I64(wrapped as i64))
            } else {
                Ok(DebugAttrValue::I64(#[verifier::truncate] (*u as i64)))
            }
        },
        RawAttrValue::Data1(b) => Ok(DebugAttrValue::I64(*b as i64)),
        RawAttrValue::Data2(d) => Ok(DebugAttrValue::I64(decode_data2(d))),
        RawAttrValue::Data4(d) => Ok(DebugAttrValue::I64(decode_data4(d))),
        RawAttrValue::Sdata(i) => Ok(DebugAttrValue::I64(*i)),
        RawAttrValue::DebugLineRef(o) => Ok(DebugAttrValue::I64(#[verifier::truncate] (*o as i64))),
        RawAttrValue::Flag(f) => Ok(DebugAttrValue::Bool(*f)),
        RawAttrValue::FileIndex(i) => match get_source_id(sources, unit, *i) {
            Ok(Some(id)) => Ok(DebugAttrValue::I64(id)),
            Err(e) => {
                proof {
                    if *i != 0 && file_entry(*unit, *i) is Some {
                        lemma_position_registered(
                            paths(old(sources)@),
                            entry_file_path(unit.comp_dir, file_entry(*unit, *i)->0),
                        );
                        assert(paths(sources@).len() == sources@.len());
                    }
                }
                Err(e)
            },
            Ok(None) => Ok(DebugAttrValue::I64(-1)),
        },
        RawAttrValue::Str(s) => Ok(DebugAttrValue::String(s.clone())),
        RawAttrValue::RangeList(v) => match convert_ranges(v) {
            Ok(out) => Ok(DebugAttrValue::Ranges(out)),
            Err(e) => Err(e),
        },
        RawAttrValue::LocationList(v) => Ok(DebugAttrValue::LocationList(convert_locations(v))),
        RawAttrValue::Exprloc(b) => Ok(DebugAttrValue::Expression(copy_bytes(b))),
        RawAttrValue::Constant(c) => enum_to_str(c),
        RawAttrValue::UnitRef(o, l, n) => {
            let shown = match l {
                Some(_) => copy_name(l),
                None => copy_name(n),
            };
            Ok(DebugAttrValue::UIDRef(*o, shown))
        },
        RawAttrValue::DebugInfoRef => Ok(DebugAttrValue::Ignored),
        RawAttrValue::Other => Ok(DebugAttrValue::Unknown),
    }
}

/// An attribute's name without the `DW_AT_` family.
pub open spec fn name_of(a: RawAttr) -> Seq<char> {
    a.name->0@.subrange(6, a.name->0@.len() as int)
}

/// Attribute `m` is the last among the first `i` attributes of `e` with its name.
pub open spec fn last_named(e: RawEntry, m: int, i: int) -> bool {
    0 <= m < i && forall|m2: int| m < m2 < i ==> name_of(#[trigger] e.attrs@[m2]) != name_of(e.attrs@[m])
}

/// The `low_pc` that an offset `high_pc` at attribute `i` of `e` is relative
/// to, where it is an address (zero where there is none); `None` where it
/// has another form.
pub open spec fn base_before(e: RawEntry, i: int) -> Option<i64>
    decreases i,
{
    if i <= 0 {
        Some(0i64)
    } else if name_of(e.attrs@[i - 1]) == low_pc_name() {
        match e.attrs@[i - 1].value {
            RawAttrValue::Addr(a) => Some(#[verifier::truncate] (a as i64)),
            _ => None,
        }
    } else {
        base_before(e, i - 1)
    }
}

/// The node value `v` of attribute `m` of entry `e`: an address as it is,
/// an offset `high_pc` made absolute by the `low_pc` before it, a file index
/// as -1 for index zero or else as the position in `sources` of the file's
/// path.
pub open spec fn entry_value_ok(v: Option<DebugAttrValue>, e: RawEntry, m: int, unit: ScopeUnit, sources: Seq<String>) -> bool {
    match e.attrs@[m].value {
        RawAttrValue::Addr(a) => v == Some(DebugAttrValue::I64(#[verifier::truncate] (a as i64))),
        RawAttrValue::Udata(u) => name_of(e.attrs@[m]) == high_pc_name() ==> match base_before(e, m) {
            Some(b) => v == Some(DebugAttrValue::I64(wrap_i64((#[verifier::truncate] (u as i64)) as int + b as int))),
            None => true,
        },
        RawAttrValue::FileIndex(i) => if i == 0 {
            v == Some(DebugAttrValue::I64(-1i64))
        } else {
            &&& file_entry(unit, i) is Some
            &&& v is Some && v->Some_0 is I64
            &&& 0 <= v->Some_0->I64_0 < sources.len()
            &&& sources[v->Some_0->I64_0 as int]@ == entry_file_path(unit.comp_dir, file_entry(unit, i)->0)
        },
        _ => true,
    }
}

/// `low_pc` as the base of an offset `high_pc`: its value where it is an
/// integer, zero where it is not.
pub open spec fn low_base(attrs: Seq<(String, DebugAttrValue)>) -> i64 {
    match attr_of(attrs, low_pc_name()) {
        Some(DebugAttrValue::I64(l)) => l,
        _ => 0i64,
    }
}

/// `o` is the node of entry `e`: its tag, distinct attribute names, and for
/// the last attribute of each name the value that `entry_value_ok` gives.
pub open spec fn node_of_entry(o: DebugInfoObj, e: RawEntry, unit: ScopeUnit, sources: Seq<String>) -> bool {
    &&& attr_names_distinct(o.attrs@)
    &&& o.tag@ == first_entry_tag(e)
    &&& forall|m: int| #[trigger] last_named(e, m, e.attrs@.len() as int) ==> entry_value_ok(
        attr_of(o.attrs@, name_of(e.attrs@[m])),
        e,
        m,
        unit,
        sources,
    )
}

proof fn lemma_entry_value_grow(v: Option<DebugAttrValue>, e: RawEntry, m: int, unit: ScopeUnit, s1: Seq<String>, s2: Seq<String>)
    requires
        entry_value_ok(v, e, m, unit, s1),
        s1.is_prefix_of(s2),
    ensures
        entry_value_ok(v, e, m, unit, s2),
{
    match e.attrs@[m].value {
        RawAttrValue::FileIndex(i) => {
            if i != 0 {
                assert(s2[v->Some_0->I64_0 as int] == s1[v->Some_0->I64_0 as int]);
            }
        },
        _ => {},
    }
}

proof fn lemma_node_grow(o: DebugInfoObj, e: RawEntry, unit: ScopeUnit, s1: Seq<String>, s2: Seq<String>)
    requires
        node_of_entry(o, e, unit, s1),
        s1.is_prefix_of(s2),
    ensures
        node_of_entry(o, e, unit, s2),
{
    assert forall|m: int| #[trigger] last_named(e, m, e.attrs@.len() as int) implies entry_value_ok(
        attr_of(o.attrs@, name_of(e.attrs@[m])),
        e,
        m,
        unit,
        s2,
    ) by {
        lemma_entry_value_grow(attr_of(o.attrs@, name_of(e.attrs@[m])), e, m, unit, s1, s2);
    }
}

/// The scope node of one entry: its tag without the `DW_TAG_` family, a
/// `uid` from its offset, then its attributes without the `DW_AT_` family.
fn convert_entry(entry: &RawEntry, sources: &mut Vec<String>, unit: &ScopeUnit) -> (r: Result<DebugInfoObj, Error>)
    requires
        distinct(paths(old(sources)@)),
    ensures
        distinct(paths(final(sources)@)),
        old(sources)@.is_prefix_of(final(sources)@),
        r matches Ok(o) ==> attr_names_distinct(o.attrs@) && o.children@.len() == 0
            && entry.tag is Some && o.tag@ == first_entry_tag(*entry),
        r matches Ok(o) ==> node_of_entry(o, *entry, *unit, final(sources)@),
        entry_ok(*entry, *unit) ==> r is Ok || final(sources)@.len() > i64::MAX,
{
    let tag = strip_family(&entry.tag, 7)?;
    let mut attrs: Vec<(String, DebugAttrValue)> = Vec::new();
    attrs.push((String::from_str("uid"), DebugAttrValue::UID(entry.offset)));
    proof {
        reveal_strlit("uid");
        assert(attrs@[0].0@ =~= seq!['u', 'i', 'd']);
        assert(seq!['u', 'i', 'd'][0] != low_pc_name()[0]);
        assert(attr_of(attrs@, low_pc_name()) is None);
    }
    let mut i: usize = 0;
    while i < entry.attrs.len()
        invariant
            distinct(paths(sources@)),
            old(sources)@.is_prefix_of(sources@),
            attr_names_distinct(attrs@),
            i <= entry.attrs@.len(),
            base_before(*entry, i as int) matches Some(b) ==> low_base(attrs@) == b,
            forall|m: int| #[trigger] last_named(*entry, m, i as int) ==> entry_value_ok(
                attr_of(attrs@, name_of(entry.attrs@[m])),
                *entry,
                m,
                *unit,
                sources@,
            ),
        decreases entry.attrs@.len() - i,
    {
        proof {
            if entry_ok(*entry, *unit) {
                assert(attr_ok(entry.attrs@[i as int], *unit));
            }
        }
        let name = strip_family(&entry.attrs[i].name, 6)?;
        let low_pc = low_pc_of(&attrs);
        let ghost before = sources@;
        let value = match convert_attr(name.as_str(), &entry.attrs[i].value, low_pc, sources, unit) {
            Ok(v) => v,
            Err(e) => {
                proof {
                    assert(old(sources)@.len() <= sources@.len());
                }
                return Err(e);
            },
        };
        let ghost a0 = attrs@;
        let ghost nm = name@;
        let ghost v = value;
        proof {
            assert(before.is_prefix_of(sources@));
            assert(nm == name_of(entry.attrs@[i as int]));
            assert(low_pc == (match attr_of(a0, low_pc_name()) {
                Some(DebugAttrValue::I64(l)) => Some(l),
                _ => None::<i64>,
            }));
            match entry.attrs@[i as int].value {
                RawAttrValue::FileIndex(fi) => {
                    if fi != 0 {
                        lemma_position_registered(
                            paths(before),
                            entry_file_path(unit.comp_dir, file_entry(*unit, fi)->0),
                        );
                        let p = position(paths(sources@), entry_file_path(unit.comp_dir, file_entry(*unit, fi)->0));
                        assert(paths(sources@)[p] == sources@[p]@);
                    }
                },
                _ => {},
            }
            assert(entry_value_ok(Some(v), *entry, i as int, *unit, sources@));
        }
        set_attr(&mut attrs, name, value);
        proof {
            assert forall|m: int| #[trigger] last_named(*entry, m, i + 1) implies entry_value_ok(
                attr_of(attrs@, name_of(entry.attrs@[m])),
                *entry,
                m,
                *unit,
                sources@,
            ) by {
                if m < i {
                    assert(name_of(entry.attrs@[i as int]) != name_of(entry.attrs@[m]));
                    assert(last_named(*entry, m, i as int));
                    lemma_entry_value_grow(attr_of(a0, name_of(entry.attrs@[m])), *entry, m, *unit, before, sources@);
                }
            }
            if nm == low_pc_name() {
                assert(base_before(*entry, i + 1) == (match entry.attrs@[i as int].value {
                    RawAttrValue::Addr(a) => Some(#[verifier::truncate] (a as i64)),
                    _ => None::<i64>,
                }));
            } else {
                assert(base_before(*entry, i + 1) == base_before(*entry, i as int));
                assert(attr_of(attrs@, low_pc_name()) == attr_of(a0, low_pc_name()));
            }
        }
        i = i + 1;
    }
    let o = DebugInfoObj { tag, attrs, children: Vec::new() };
    proof {
        assert(node_of_entry(o, *entry, *unit, sources@));
    }
    Ok(o)
}

/// The tag that the node of an entry gets: its name without the `DW_TAG_` family.
pub open spec fn first_entry_tag(e: RawEntry) -> Seq<char> {
    e.tag->0@.subrange(7, e.tag->0@.len() as int)
}

/// `o` is the node of one of the unit's entries.
pub open spec fn from_unit(o: DebugInfoObj, unit: ScopeUnit, sources: Seq<String>) -> bool {
    exists|j: int| 0 <= j < unit.entries@.len() && #[trigger] node_of_entry(o, unit.entries@[j], unit, sources)
}

/// Every node of the forest, down to depth `d`, is the node of one of the
/// unit's entries.
pub open spec fn tree_from_to(items: Seq<DebugInfoObj>, d: nat, unit: ScopeUnit, sources: Seq<String>) -> bool
    decreases d,
{
    forall|k: int| 0 <= k < items.len() ==> from_unit(#[trigger] items[k], unit, sources) && (d > 0 ==> tree_from_to(
        items[k].children@,
        (d - 1) as nat,
        unit,
        sources,
    ))
}

proof fn lemma_tree_push(items: Seq<DebugInfoObj>, o: DebugInfoObj, d: nat, unit: ScopeUnit, src: Seq<String>)
    requires
        tree_from_to(items, d, unit, src),
        from_unit(o, unit, src),
        d > 0 ==> tree_from_to(o.children@, (d - 1) as nat, unit, src),
    ensures
        tree_from_to(items.push(o), d, unit, src),
{
    let s = items.push(o);
    assert forall|k: int| 0 <= k < s.len() implies from_unit(#[trigger] s[k], unit, src) && (d > 0 ==> tree_from_to(
        s[k].children@,
        (d - 1) as nat,
        unit,
        src,
    )) by {
        if k < items.len() {
            assert(s[k] == items[k]);
        }
    }
}

proof fn lemma_from_unit_grow(o: DebugInfoObj, unit: ScopeUnit, s1: Seq<String>, s2: Seq<String>)
    requires
        from_unit(o, unit, s1),
        s1.is_prefix_of(s2),
    ensures
        from_unit(o, unit, s2),
{
    let j = choose|j: int| 0 <= j < unit.entries@.len() && #[trigger] node_of_entry(o, unit.entries@[j], unit, s1);
    lemma_node_grow(o, unit.entries@[j], unit, s1, s2);
}

proof fn lemma_tree_grow(items: Seq<DebugInfoObj>, d: nat, unit: ScopeUnit, s1: Seq<String>, s2: Seq<String>)
    requires
        tree_from_to(items, d, unit, s1),
        s1.is_prefix_of(s2),
    ensures
        tree_from_to(items, d, unit, s2),
    decreases d,
{
    assert forall|k: int| 0 <= k < items.len() implies from_unit(#[trigger] items[k], unit, s2) && (d > 0 ==> tree_from_to(
        items[k].children@,
        (d - 1) as nat,
        unit,
        s2,
    )) by {
        lemma_from_unit_grow(items[k], unit, s1, s2);
        if d > 0 {
            lemma_tree_grow(items[k].children@, (d - 1) as nat, unit, s1, s2);
        }
    }
}

/// The stack of nodes being built: below the root, nodes of the unit's
/// entries; under each, a forest of such nodes.
pub open spec fn stack_from(stack: Seq<DebugInfoObj>, unit: ScopeUnit, src: Seq<String>) -> bool {
    &&& forall|t: int| 1 <= t < stack.len() ==> from_unit(#[trigger] stack[t], unit, src)
    &&& forall|t: int, d: nat| 0 <= t < stack.len() ==> #[trigger] tree_from_to(stack[t].children@, d, unit, src)
}

proof fn lemma_stack_grow(stack: Seq<DebugInfoObj>, unit: ScopeUnit, s1: Seq<String>, s2: Seq<String>)
    requires
        stack_from(stack, unit, s1),
        s1.is_prefix_of(s2),
    ensures
        stack_from(stack, unit, s2),
{
    assert forall|t: int| 1 <= t < stack.len() implies from_unit(#[trigger] stack[t], unit, s2) by {
        lemma_from_unit_grow(stack[t], unit, s1, s2);
    }
    assert forall|t: int, d: nat| 0 <= t < stack.len() implies #[trigger] tree_from_to(stack[t].children@, d, unit, s2) by {
        lemma_tree_grow(stack[t].children@, d, unit, s1, s2);
    }
}

/// Makes the top node of `stack` the last child of the node below it.
fn attach_top(stack: &mut Vec<DebugInfoObj>)
    requires
        old(stack)@.len() >= 2,
    ensures
        final(stack)@.len() == old(stack)@.len() - 1,
        forall|k: int| 0 <= k < final(stack)@.len() - 1 ==> #[trigger] final(stack)@[k] == old(stack)@[k],
        ({
            let p = final(stack)@[final(stack)@.len() - 1];
            let q = old(stack)@[old(stack)@.len() - 2];
            p.tag == q.tag && p.attrs == q.attrs && p.children@ == q.children@.push(old(stack)@[old(stack)@.len() - 1])
        }),
{
    let child = stack.pop().unwrap();
    let mut parent = stack.pop().unwrap();
    parent.children.push(child);
    stack.push(parent);
}

proof fn lemma_attach_keeps(s0: Seq<DebugInfoObj>, s1: Seq<DebugInfoObj>, unit: ScopeUnit, src: Seq<String>)
    requires
        s0.len() >= 2,
        stack_from(s0, unit, src),
        s1.len() == s0.len() - 1,
        forall|k: int| 0 <= k < s1.len() - 1 ==> #[trigger] s1[k] == s0[k],
        ({
            let p = s1[s1.len() - 1];
            let q = s0[s0.len() - 2];
            p.tag == q.tag && p.attrs == q.attrs && p.children@ == q.children@.push(s0[s0.len() - 1])
        }),
    ensures
        stack_from(s1, unit, src),
{
    let last = s1.len() - 1;
    let p = s1[last];
    let q = s0[last];
    let c = s0[s0.len() - 1];
    assert forall|t: int| 1 <= t < s1.len() implies from_unit(#[trigger] s1[t], unit, src) by {
        if t < last {
            assert(s1[t] == s0[t]);
        } else {
            assert(from_unit(q, unit, src));
            let j = choose|j: int| 0 <= j < unit.entries@.len() && #[trigger] node_of_entry(q, unit.entries@[j], unit, src);
            assert(node_of_entry(p, unit.entries@[j], unit, src));
        }
    }
    assert forall|t: int, d: nat| 0 <= t < s1.len() implies #[trigger] tree_from_to(s1[t].children@, d, unit, src) by {
        if t < last {
            assert(s1[t] == s0[t]);
        } else {
            assert(tree_from_to(q.children@, d, unit, src));
            assert(from_unit(c, unit, src));
            if d > 0 {
                assert(tree_from_to(c.children@, (d - 1) as nat, unit, src));
            }
            lemma_tree_push(q.children@, c, d, unit, src);
        }
    }
}

/// The forest of one unit's entries: each entry becomes a child of the
/// nearest entry before it that is one level higher.
fn unit_scopes(unit: &ScopeUnit, sources: &mut Vec<String>) -> (r: Result<Vec<DebugInfoObj>, Error>)
    requires
        distinct(paths(old(sources)@)),
    ensures
        distinct(paths(final(sources)@)),
        old(sources)@.is_prefix_of(final(sources)@),
        r matches Ok(forest) ==> (unit.entries@.len() > 0 ==> forest@.len() > 0
            && first_entry_tag(unit.entries@[0]) == forest@[0].tag@),
        (forall|j: int| 0 <= j < unit.entries@.len() ==> entry_ok(#[trigger] unit.entries@[j], *unit))
            ==> r is Ok || final(sources)@.len() > i64::MAX,
        r matches Ok(forest) ==> forall|d: nat| #[trigger] tree_from_to(forest@, d, *unit, final(sources)@),
{
    let mut stack: Vec<DebugInfoObj> = Vec::new();
    stack.push(DebugInfoObj { tag: String::new(), attrs: Vec::new(), children: Vec::new() });
    let mut i: usize = 0;
    while i < unit.entries.len()
        invariant
            distinct(paths(sources@)),
            old(sources)@.is_prefix_of(sources@),
            stack@.len() >= 1,
            i <= unit.entries@.len(),
            i == 0 ==> stack@.len() == 1 && stack@[0].children@.len() == 0,
            i > 0 ==> (stack@[0].children@.len() > 0 && stack@[0].children@[0].tag@ == first_entry_tag(unit.entries@[0]))
                || (stack@[0].children@.len() == 0 && stack@.len() >= 2
                    && stack@[1].tag@ == first_entry_tag(unit.entries@[0])),
            stack_from(stack@, *unit, sources@),
        decreases unit.entries@.len() - i,
    {
        let entry = &unit.entries[i];
        let ghost before = sources@;
        let obj = match convert_entry(entry, sources, unit) {
            Ok(o) => o,
            Err(e) => {
                proof {
                    assert(before.is_prefix_of(sources@));
                    assert(old(sources)@.len() <= sources@.len());
                    if forall|j: int| 0 <= j < unit.entries@.len() ==> entry_ok(#[trigger] unit.entries@[j], *unit) {
                        assert(entry_ok(unit.entries@[i as int], *unit));
                    }
                }
                return Err(e);
            },
        };
        proof {
            assert(before.is_prefix_of(sources@));
            lemma_stack_grow(stack@, *unit, before, sources@);
        }
        if entry.depth_delta <= 0 && i > 0 {
            // Climb one level for the sibling, and one more for each level up.
            let levels: i128 = 1 - entry.depth_delta as i128;
            let mut k: i128 = 0;
            while k < levels && stack.len() > 1
                invariant
                    stack@.len() >= 1,
                    0 <= k <= levels,
                    i > 0,
                    stack_from(stack@, *unit, sources@),
                    (stack@[0].children@.len() > 0 && stack@[0].children@[0].tag@ == first_entry_tag(unit.entries@[0]))
                        || (stack@[0].children@.len() == 0 && stack@.len() >= 2
                            && stack@[1].tag@ == first_entry_tag(unit.entries@[0])),
                decreases levels - k,
            {
                let ghost s0 = stack@;
                attach_top(&mut stack);
                proof {
                    lemma_attach_keeps(s0, stack@, *unit, sources@);
                }
                k = k + 1;
            }
        }
        let ghost s0 = stack@;
        stack.push(obj);
        proof {
            assert(node_of_entry(obj, unit.entries@[i as int], *unit, sources@));
            assert(from_unit(obj, *unit, sources@));
            assert forall|t: int| 1 <= t < stack@.len() implies from_unit(#[trigger] stack@[t], *unit, sources@) by {
                if t < s0.len() {
                    assert(stack@[t] == s0[t]);
                }
            }
            assert forall|t: int, d: nat| 0 <= t < stack@.len() implies #[trigger] tree_from_to(stack@[t].children@, d, *unit, sources@) by {
                if t < s0.len() {
                    assert(stack@[t] == s0[t]);
                } else {
                    assert(stack@[t] == obj);
                }
            }
        }
        i = i + 1;
    }
    while stack.len() > 1
        invariant
            stack@.len() >= 1,
            unit.entries@.len() > 0 ==> (stack@[0].children@.len() > 0
                && stack@[0].children@[0].tag@ == first_entry_tag(unit.entries@[0]))
                || (stack@[0].children@.len() == 0 && stack@.len() >= 2
                    && stack@[1].tag@ == first_entry_tag(unit.entries@[0])),
            stack_from(stack@, *unit, sources@),
        decreases stack@.len(),
    {
        let ghost s0 = stack@;
        attach_top(&mut stack);
        proof {
            lemma_attach_keeps(s0, stack@, *unit, sources@);
        }
    }
    let ghost s0 = stack@;
    let root = stack.pop().unwrap();
    proof {
        assert(root == s0[0]);
        assert forall|d: nat| #[trigger] tree_from_to(root.children@, d, *unit, sources@) by {
            assert(tree_from_to(s0[0].children@, d, *unit, sources@));
        }
    }
    Ok(root.children)
}

/// `o` is the node of one entry of one of the units.
pub open spec fn from_units(o: DebugInfoObj, units: Seq<ScopeUnit>, sources: Seq<String>) -> bool {
    exists|u: int, j: int| 0 <= u < units.len() && 0 <= j < units[u].entries@.len() && #[trigger] node_of_entry(
        o,
        units[u].entries@[j],
        units[u],
        sources,
    )
}

/// Every node of the forest, down to depth `d`, is the node of an entry of one of the units.
pub open spec fn built_from_to(items: Seq<DebugInfoObj>, d: nat, units: Seq<ScopeUnit>, sources: Seq<String>) -> bool
    decreases d,
{
    forall|k: int| 0 <= k < items.len() ==> from_units(#[trigger] items[k], units, sources) && (d > 0 ==> built_from_to(
        items[k].children@,
        (d - 1) as nat,
        units,
        sources,
    ))
}

/// What pruning leaves of the node of entry `e`: its tag, and for the last
/// attribute of each name the value that `entry_value_ok` gives, but that
/// `low_pc` and `high_pc` may be gone and `ranges` may be filtered.
pub open spec fn kept_node_of_entry(o: DebugInfoObj, e: RawEntry, unit: ScopeUnit, sources: Seq<String>) -> bool {
    &&& o.tag@ == first_entry_tag(e)
    &&& forall|m: int| #[trigger] last_named(e, m, e.attrs@.len() as int) ==> {
        let n = name_of(e.attrs@[m]);
        &&& (n == low_pc_name() || n == high_pc_name()) ==> attr_of(o.attrs@, n) is None || entry_value_ok(
            attr_of(o.attrs@, n),
            e,
            m,
            unit,
            sources,
        )
        &&& (n != low_pc_name() && n != high_pc_name() && n != ranges_name()) ==> entry_value_ok(
            attr_of(o.attrs@, n),
            e,
            m,
            unit,
            sources,
        )
    }
}

/// `o` is what pruning leaves of the node of an entry of one of the units.
pub open spec fn kept_from_units(o: DebugInfoObj, units: Seq<ScopeUnit>, sources: Seq<String>) -> bool {
    exists|u: int, j: int| 0 <= u < units.len() && 0 <= j < units[u].entries@.len() && #[trigger] kept_node_of_entry(
        o,
        units[u].entries@[j],
        units[u],
        sources,
    )
}

/// Every node of the forest, down to depth `d`, is what pruning leaves of
/// the node of an entry of one of the units.
pub open spec fn scopes_from_to(items: Seq<DebugInfoObj>, d: nat, units: Seq<ScopeUnit>, sources: Seq<String>) -> bool
    decreases d,
{
    forall|k: int| 0 <= k < items.len() ==> kept_from_units(#[trigger] items[k], units, sources) && (d > 0
        ==> scopes_from_to(items[k].children@, (d - 1) as nat, units, sources))
}

proof fn lemma_tree_to_built(items: Seq<DebugInfoObj>, d: nat, units: Seq<ScopeUnit>, u: int, src: Seq<String>)
    requires
        0 <= u < units.len(),
        tree_from_to(items, d, units[u], src),
    ensures
        built_from_to(items, d, units, src),
    decreases d,
{
    assert forall|k: int| 0 <= k < items.len() implies from_units(#[trigger] items[k], units, src) && (d > 0 ==> built_from_to(
        items[k].children@,
        (d - 1) as nat,
        units,
        src,
    )) by {
        assert(from_unit(items[k], units[u], src));
        let j = choose|j: int| 0 <= j < units[u].entries@.len() && #[trigger] node_of_entry(items[k], units[u].entries@[j], units[u], src);
        assert(node_of_entry(items[k], units[u].entries@[j], units[u], src));
        if d > 0 {
            lemma_tree_to_built(items[k].children@, (d - 1) as nat, units, u, src);
        }
    }
}

proof fn lemma_built_grow(items: Seq<DebugInfoObj>, d: nat, units: Seq<ScopeUnit>, s1: Seq<String>, s2: Seq<String>)
    requires
        built_from_to(items, d, units, s1),
        s1.is_prefix_of(s2),
    ensures
        built_from_to(items, d, units, s2),
    decreases d,
{
    assert forall|k: int| 0 <= k < items.len() implies from_units(#[trigger] items[k], units, s2) && (d > 0 ==> built_from_to(
        items[k].children@,
        (d - 1) as nat,
        units,
        s2,
    )) by {
        let (u, j) = choose|u: int, j: int| 0 <= u < units.len() && 0 <= j < units[u].entries@.len() && #[trigger] node_of_entry(
            items[k],
            units[u].entries@[j],
            units[u],
            s1,
        );
        lemma_node_grow(items[k], units[u].entries@[j], units[u], s1, s2);
        if d > 0 {
            lemma_built_grow(items[k].children@, (d - 1) as nat, units, s1, s2);
        }
    }
}

proof fn lemma_built_append(a: Seq<DebugInfoObj>, b: Seq<DebugInfoObj>, d: nat, units: Seq<ScopeUnit>, src: Seq<String>)
    requires
        built_from_to(a, d, units, src),
        built_from_to(b, d, units, src),
    ensures
        built_from_to(a + b, d, units, src),
{
    let s = a + b;
    assert forall|k: int| 0 <= k < s.len() implies from_units(#[trigger] s[k], units, src) && (d > 0 ==> built_from_to(
        s[k].children@,
        (d - 1) as nat,
        units,
        src,
    )) by {
        if k < a.len() {
            assert(s[k] == a[k]);
        } else {
            assert(s[k] == b[k - a.len()]);
        }
    }
}

proof fn lemma_pruned_from(items: Seq<DebugInfoObj>, r: Seq<DebugInfoObj>, idx: Seq<int>, d: nat, units: Seq<ScopeUnit>, src: Seq<String>)
    requires
        built_from_to(items, d, units, src),
        survivors_to(r, items, idx, d),
    ensures
        scopes_from_to(r, d, units, src),
    decreases d,
{
    assert forall|k: int| 0 <= k < r.len() implies kept_from_units(#[trigger] r[k], units, src) && (d > 0
        ==> scopes_from_to(r[k].children@, (d - 1) as nat, units, src)) by {
        let x = items[idx[k]];
        assert(pruned_node_to(r[k], x, d));
        assert(from_units(x, units, src));
        let (u, j) = choose|u: int, j: int| 0 <= u < units.len() && 0 <= j < units[u].entries@.len() && #[trigger] node_of_entry(
            x,
            units[u].entries@[j],
            units[u],
            src,
        );
        let e = units[u].entries@[j];
        assert(attrs_after(r[k].attrs@, x));
        assert forall|m: int| #[trigger] last_named(e, m, e.attrs@.len() as int) implies {
            let n = name_of(e.attrs@[m]);
            &&& (n == low_pc_name() || n == high_pc_name()) ==> attr_of(r[k].attrs@, n) is None || entry_value_ok(
                attr_of(r[k].attrs@, n),
                e,
                m,
                units[u],
                src,
            )
            &&& (n != low_pc_name() && n != high_pc_name() && n != ranges_name()) ==> entry_value_ok(
                attr_of(r[k].attrs@, n),
                e,
                m,
                units[u],
                src,
            )
        } by {
            let n = name_of(e.attrs@[m]);
            assert(entry_value_ok(attr_of(x.attrs@, n), e, m, units[u], src));
        }
        assert(kept_node_of_entry(r[k], e, units[u], src));
        if d > 0 {
            assert(built_from_to(x.children@, (d - 1) as nat, units, src));
            lemma_pruned_from(x.children@, r[k].children@, kept_positions(x.children@), (d - 1) as nat, units, src);
        }
    }
}

/// The scope forest of all units, with the functions that the linker dropped
/// pruned. File indices resolve into `sources`, which grows by the paths that
/// are new.
pub fn get_debug_scopes(units: &Vec<ScopeUnit>, sources: &mut Vec<String>) -> (r: Result<Vec<DebugInfoObj>, Error>)
    requires
        distinct(paths(old(sources)@)),
    ensures
        distinct(paths(final(sources)@)),
        old(sources)@.is_prefix_of(final(sources)@),
        r matches Ok(forest) ==> forall|d: nat| #[trigger] settled_to(forest@, d),
        r matches Ok(forest) ==> forall|d: nat| #[trigger] scopes_from_to(forest@, d, units@, final(sources)@),
        units_ok(units@) ==> r is Ok || final(sources)@.len() > i64::MAX,
{
    let mut info: Vec<DebugInfoObj> = Vec::new();
    let mut u: usize = 0;
    while u < units.len()
        invariant
            distinct(paths(sources@)),
            old(sources)@.is_prefix_of(sources@),
            u <= units@.len(),
            forall|d: nat| #[trigger] built_from_to(info@, d, units@, sources@),
        decreases units@.len() - u,
    {
        let ghost before = sources@;
        proof {
            if units_ok(units@) {
                assert forall|j: int| 0 <= j < units@[u as int].entries@.len() implies entry_ok(
                    #[trigger] units@[u as int].entries@[j],
                    units@[u as int],
                ) by {
                    assert(entry_ok(units@[u as int].entries@[j], units@[u as int]));
                }
            }
        }
        let mut forest = match unit_scopes(&units[u], sources) {
            Ok(f) => f,
            Err(e) => {
                proof {
                    assert(before.is_prefix_of(sources@));
                    assert(old(sources)@.len() <= sources@.len());
                }
                return Err(e);
            },
        };
        let ghost i0 = info@;
        proof {
            assert(before.is_prefix_of(sources@));
            assert forall|d: nat| #[trigger] built_from_to(i0 + forest@, d, units@, sources@) by {
                lemma_built_grow(i0, d, units@, before, sources@);
                assert(tree_from_to(forest@, d, units@[u as int], sources@));
                lemma_tree_to_built(forest@, d, units@, u as int, sources@);
                lemma_built_append(i0, forest@, d, units@, sources@);
            }
        }
        info.append(&mut forest);
        u = u + 1;
    }
    let ghost roots = info@;
    let pruned_forest = remove_dead_functions(info);
    proof {
        assert forall|d: nat| #[trigger] scopes_from_to(pruned_forest@, d, units@, sources@) by {
            assert(survivors_to(pruned_forest@, roots, kept_positions(roots), d));
            lemma_pruned_from(roots, pruned_forest@, kept_positions(roots), d, units@, sources@);
        }
    }
    Ok(pruned_forest)
}

pub open spec fn subprogram_name() -> Seq<char> {
    seq!['s', 'u', 'b', 'p', 'r', 'o', 'g', 'r', 'a', 'm']
}

pub open spec fn inline_name() -> Seq<char> {
    seq!['i', 'n', 'l', 'i', 'n', 'e']
}

pub open spec fn ranges_name() -> Seq<char> {
    seq!['r', 'a', 'n', 'g', 'e', 's']
}

pub open spec fn is_subprogram_spec(o: DebugInfoObj) -> bool {
    o.tag@ == subprogram_name()
}

pub open spec fn is_inlined_spec(o: DebugInfoObj) -> bool {
    attr_of(o.attrs@, inline_name()) is Some
}

/// `low_pc` and `high_pc`, where both are integers.
pub open spec fn pc_range(o: DebugInfoObj) -> Option<(i64, i64)> {
    match (attr_of(o.attrs@, low_pc_name()), attr_of(o.attrs@, high_pc_name())) {
        (Some(DebugAttrValue::I64(l)), Some(DebugAttrValue::I64(h))) => Some((l, h)),
        _ => None,
    }
}

pub open spec fn pc_range_dead(o: DebugInfoObj) -> bool {
    pc_range(o) matches Some((l, h)) && out_of_range(l as int, h as int)
}

/// The node has a `ranges` list and every range in it is dead.
pub open spec fn ranges_all_dead(o: DebugInfoObj) -> bool {
    attr_of(o.attrs@, ranges_name()) matches Some(DebugAttrValue::Ranges(v))
        && forall|k: int| 0 <= k < v@.len() ==> out_of_range(v@[k].0 as int, v@[k].1 as int)
}

/// A subprogram, not inlined, whose code the linker dropped.
pub open spec fn removed(o: DebugInfoObj) -> bool {
    is_subprogram_spec(o) && !is_inlined_spec(o) && (pc_range_dead(o) || ranges_all_dead(o))
}

/// What the pruning removes with its subtree: a dropped subprogram whose
/// attribute names are distinct (as those of every node built here are).
pub open spec fn pruned(o: DebugInfoObj) -> bool {
    attr_names_distinct(o.attrs@) && removed(o)
}

/// Whether no attribute name occurs twice.
fn attrs_distinct(attrs: &Vec<(String, DebugAttrValue)>) -> (r: bool)
    ensures
        r == attr_names_distinct(attrs@),
{
    let mut i: usize = 0;
    while i < attrs.len()
        invariant
            i <= attrs@.len(),
            forall|a: int, b: int| 0 <= a < i && a < b < attrs@.len() ==> attrs@[a].0@ != attrs@[b].0@,
        decreases attrs@.len() - i,
    {
        let mut j: usize = i + 1;
        while j < attrs.len()
            invariant
                i < attrs@.len(),
                i + 1 <= j <= attrs@.len(),
                forall|a: int, b: int| 0 <= a < i && a < b < attrs@.len() ==> attrs@[a].0@ != attrs@[b].0@,
                forall|b: int| i < b < j ==> attrs@[i as int].0@ != attrs@[b].0@,
            decreases attrs@.len() - j,
        {
            if attrs[i].0 == attrs[j].0 {
                return false;
            }
            j = j + 1;
        }
        i = i + 1;
    }
    true
}

proof fn lemma_attr_of_at(attrs: Seq<(String, DebugAttrValue)>, i: int)
    requires
        attr_names_distinct(attrs),
        0 <= i < attrs.len(),
    ensures
        attr_of(attrs, attrs[i].0@) == Some(attrs[i].1),
{
    let n = attrs[i].0@;
    let j = choose|j: int| 0 <= j < attrs.len() && attrs[j].0@ == n;
    if j != i {
        if j < i {
            assert(attrs[j].0@ != attrs[i].0@);
        } else {
            assert(attrs[i].0@ != attrs[j].0@);
        }
    }
}

/// Removes `name` from `attrs`.
fn remove_attr(attrs: &mut Vec<(String, DebugAttrValue)>, name: &str)
    requires
        attr_names_distinct(old(attrs)@),
    ensures
        attr_names_distinct(final(attrs)@),
        attr_of(final(attrs)@, name@) is None,
        forall|n: Seq<char>| n != name@ ==> attr_of(final(attrs)@, n) == attr_of(old(attrs)@, n),
{
    match find_attr(attrs, name) {
        None => {},
        Some(i) => {
            attrs.remove(i);
            let ghost o = old(attrs)@;
            proof {
                assert forall|a: int, b: int| 0 <= a < b < attrs@.len() implies attrs@[a].0@ != attrs@[b].0@ by {
                    let a2 = if a < i { a } else { a + 1 };
                    let b2 = if b < i { b } else { b + 1 };
                    assert(o[a2].0@ != o[b2].0@);
                }
                assert forall|k: int| 0 <= k < attrs@.len() implies attrs@[k].0@ != name@ by {
                    let k2 = if k < i { k } else { k + 1 };
                    if k < i {
                        assert(o[k2].0@ != o[i as int].0@);
                    } else {
                        assert(o[i as int].0@ != o[k2].0@);
                    }
                }
                assert forall|n: Seq<char>| n != name@ implies attr_of(attrs@, n) == attr_of(o, n) by {
                    if exists|j: int| 0 <= j < o.len() && o[j].0@ == n {
                        let j = choose|j: int| 0 <= j < o.len() && o[j].0@ == n;
                        assert(j != i);
                        let j2 = if j < i { j } else { j - 1 };
                        assert(attrs@[j2] == o[j]);
                        lemma_attr_of_at(o, j);
                        lemma_attr_of_at(attrs@, j2);
                    } else {
                        assert forall|k: int| 0 <= k < attrs@.len() implies attrs@[k].0@ != n by {
                            let k2 = if k < i { k } else { k + 1 };
                            assert(attrs@[k] == o[k2]);
                        }
                    }
                }
            }
        },
    }
}

fn is_subprogram(tag: &String) -> (r: bool)
    ensures
        r == (tag@ == subprogram_name()),
{
    proof {
        reveal_strlit("subprogram");
        assert("subprogram"@ =~= subprogram_name());
    }
    *tag == String::from_str("subprogram")
}

fn is_inlined_subprogram(attrs: &Vec<(String, DebugAttrValue)>) -> (r: bool)
    requires
        attr_names_distinct(attrs@),
    ensures
        r == (attr_of(attrs@, inline_name()) is Some),
{
    proof {
        reveal_strlit("inline");
        assert("inline"@ =~= inline_name());
    }
    find_attr(attrs, "inline").is_some()
}

fn pc_pair(attrs: &Vec<(String, DebugAttrValue)>) -> (r: Option<(i64, i64)>)
    requires
        attr_names_distinct(attrs@),
    ensures
        r == (match (attr_of(attrs@, low_pc_name()), attr_of(attrs@, high_pc_name())) {
            (Some(DebugAttrValue::I64(l)), Some(DebugAttrValue::I64(h))) => Some((l, h)),
            _ => None::<(i64, i64)>,
        }),
{
    proof {
        reveal_strlit("high_pc");
        assert("high_pc"@ =~= high_pc_name());
    }
    let low = low_pc_of(attrs);
    match low {
        None => None,
        Some(l) => match find_attr(attrs, "high_pc") {
            Some(i) => match &attrs[i].1 {
                DebugAttrValue::I64(h) => Some((l, *h)),
                _ => None,
            },
            None => None,
        },
    }
}

/// The live ranges of `v`, in order.
pub open spec fn live_ranges(v: Seq<(i64, i64)>) -> Seq<(i64, i64)>
    decreases v.len(),
{
    if v.len() == 0 {
        Seq::empty()
    } else {
        live_ranges(v.drop_last()) + if !out_of_range(v.last().0 as int, v.last().1 as int) {
            seq![v.last()]
        } else {
            Seq::empty()
        }
    }
}

/// Drops the dead ranges of a `ranges` list; tells whether none is left.
fn filter_ranges(attrs: &mut Vec<(String, DebugAttrValue)>) -> (r: bool)
    requires
        attr_names_distinct(old(attrs)@),
    ensures
        attr_names_distinct(final(attrs)@),
        forall|n: Seq<char>| n != ranges_name() ==> attr_of(final(attrs)@, n) == attr_of(old(attrs)@, n),
        match attr_of(old(attrs)@, ranges_name()) {
            Some(DebugAttrValue::Ranges(v)) => (r <==> forall|k: int| 0 <= k < v@.len()
                ==> out_of_range(v@[k].0 as int, v@[k].1 as int)) && (match attr_of(final(attrs)@, ranges_name()) {
                Some(DebugAttrValue::Ranges(w)) => (w@.len() == 0 <==> r) && w@ == live_ranges(v@) && forall|k: int|
                    0 <= k < w@.len() ==> !out_of_range(w@[k].0 as int, w@[k].1 as int),
                _ => false,
            }),
            _ => !r && final(attrs)@ == old(attrs)@,
        },
{
    proof {
        reveal_strlit("ranges");
        assert("ranges"@ =~= ranges_name());
    }
    let i = match find_attr(attrs, "ranges") {
        Some(i) => i,
        None => return false,
    };
    let mut live: Vec<(i64, i64)> = Vec::new();
    match &attrs[i].1 {
        DebugAttrValue::Ranges(v) => {
            let mut k: usize = 0;
            while k < v.len()
                invariant
                    k <= v@.len(),
                    live@ == live_ranges(v@.subrange(0, k as int)),
                    forall|j: int| 0 <= j < live@.len() ==> !out_of_range(live@[j].0 as int, live@[j].1 as int),
                    live@.len() == 0 <==> forall|j: int| 0 <= j < k ==> out_of_range(v@[j].0 as int, v@[j].1 as int),
                decreases v@.len() - k,
            {
                let (b, e) = v[k];
                proof {
                    assert(v@.subrange(0, k + 1).drop_last() =~= v@.subrange(0, k as int));
                }
                if !is_out_of_range(b as i128, e as i128) {
                    live.push((b, e));
                }
                k = k + 1;
            }
            proof {
                assert(v@.subrange(0, v@.len() as int) =~= v@);
            }
        },
        _ => return false,
    }
    let empty = live.len() == 0;
    let name = attrs[i].0.clone();
    set_attr(attrs, name, DebugAttrValue::Ranges(live));
    empty
}

/// A node that pruning leaves as it is: not removed, and, where its
/// attribute names are distinct, only live ranges, no dead code addresses
/// and, for a subprogram, no `ranges` list with nothing live.
pub open spec fn settled(o: DebugInfoObj) -> bool {
    &&& !pruned(o)
    &&& attr_names_distinct(o.attrs@) ==> ranges_live(o) && !(is_subprogram_spec(o) && (pc_range_dead(o)
        || ranges_all_dead(o)))
}

/// Every node of the forest, down to depth `d`, is settled.
pub open spec fn settled_to(items: Seq<DebugInfoObj>, d: nat) -> bool
    decreases d,
{
    forall|k: int| 0 <= k < items.len() ==> settled(#[trigger] items[k]) && (d > 0 ==> settled_to(
        items[k].children@,
        (d - 1) as nat,
    ))
}

proof fn lemma_settled_to_push(items: Seq<DebugInfoObj>, o: DebugInfoObj, d: nat)
    requires
        settled_to(items, d),
        settled(o),
        d > 0 ==> settled_to(o.children@, (d - 1) as nat),
    ensures
        settled_to(items.push(o), d),
{
    let s = items.push(o);
    assert forall|k: int| 0 <= k < s.len() implies settled(#[trigger] s[k]) && (d > 0 ==> settled_to(
        s[k].children@,
        (d - 1) as nat,
    )) by {
        if k < items.len() {
            assert(s[k] == items[k]);
        }
    }
}

/// Every range left in `ranges` is live.
pub open spec fn ranges_live(o: DebugInfoObj) -> bool {
    match attr_of(o.attrs@, ranges_name()) {
        Some(DebugAttrValue::Ranges(w)) => forall|k: int| 0 <= k < w@.len() ==> !out_of_range(w@[k].0 as int, w@[k].1 as int),
        _ => true,
    }
}

/// The attributes `o` that pruning leaves of node `x`: a dead subprogram
/// (it is inlined, or it would be gone) without `low_pc` and `high_pc`;
/// `ranges` holding the live ranges of `x` in order, or gone from a
/// subprogram with none live; every other attribute as it was.
pub open spec fn attrs_after(o: Seq<(String, DebugAttrValue)>, x: DebugInfoObj) -> bool {
    let pc_dead = is_subprogram_spec(x) && pc_range_dead(x);
    &&& forall|n: Seq<char>| n != low_pc_name() && n != high_pc_name() && n != ranges_name()
        ==> #[trigger] attr_of(o, n) == attr_of(x.attrs@, n)
    &&& pc_dead ==> attr_of(o, low_pc_name()) is None && attr_of(o, high_pc_name()) is None
    &&& !pc_dead ==> attr_of(o, low_pc_name()) == attr_of(x.attrs@, low_pc_name()) && attr_of(o, high_pc_name())
        == attr_of(x.attrs@, high_pc_name())
    &&& match attr_of(x.attrs@, ranges_name()) {
        Some(DebugAttrValue::Ranges(v)) => if is_subprogram_spec(x) && live_ranges(v@).len() == 0 {
            attr_of(o, ranges_name()) is None
        } else {
            attr_of(o, ranges_name()) is Some && attr_of(o, ranges_name())->Some_0 is Ranges
                && attr_of(o, ranges_name())->Some_0->Ranges_0@ == live_ranges(v@)
        },
        other => attr_of(o, ranges_name()) == other,
    }
}

/// What pruning makes of node `x`, down to depth `d`: the same tag, a
/// settled node, the attributes that `attrs_after` gives (all of them
/// unchanged where names repeat), and as children the survivors of `x`'s
/// children.
pub open spec fn pruned_node_to(o: DebugInfoObj, x: DebugInfoObj, d: nat) -> bool
    decreases d, 0nat,
{
    &&& o.tag == x.tag
    &&& settled(o)
    &&& attr_names_distinct(x.attrs@) ==> attr_names_distinct(o.attrs@) && attrs_after(o.attrs@, x)
    &&& !attr_names_distinct(x.attrs@) ==> o.attrs == x.attrs
    &&& d > 0 ==> survivors_to(o.children@, x.children@, kept_positions(x.children@), (d - 1) as nat)
}

/// The positions of the nodes of `items` that pruning keeps, in order.
pub open spec fn kept_positions(items: Seq<DebugInfoObj>) -> Seq<int>
    decreases items.len(),
{
    if items.len() == 0 {
        Seq::empty()
    } else {
        kept_positions(items.drop_last()) + if pruned(items.last()) {
            Seq::empty()
        } else {
            seq![items.len() - 1]
        }
    }
}

/// The nodes of `r` are, in order, what pruning makes of those nodes of
/// `items` that it keeps (the nodes at positions `idx`), down to depth `d`.
pub open spec fn survivors_to(r: Seq<DebugInfoObj>, items: Seq<DebugInfoObj>, idx: Seq<int>, d: nat) -> bool
    decreases d, 1nat,
{
    &&& idx.len() == r.len()
    &&& forall|k: int| 0 <= k < idx.len() ==> 0 <= #[trigger] idx[k] < items.len() && !pruned(items[idx[k]])
    &&& forall|k: int| 0 <= k < idx.len() ==> pruned_node_to(#[trigger] r[k], items[idx[k]], d)
    &&& forall|k: int, m: int| 0 <= k < m < idx.len() ==> idx[k] < idx[m]
    &&& forall|j: int| 0 <= j < items.len() && !pruned(#[trigger] items[j]) ==> exists|k: int| 0 <= k < idx.len() && idx[k] == j
}

/// One node after pruning, or `None` where it is removed with its subtree.
/// A dead subprogram that is inlined keeps its node without its code
/// addresses; the children of every node kept are pruned in turn.
fn prune_item(item: DebugInfoObj) -> (r: Option<DebugInfoObj>)
    ensures
        r is None <==> pruned(item),
        r matches Some(o) ==> forall|d: nat| #[trigger] pruned_node_to(o, item, d),
        r matches Some(o) ==> forall|d: nat| #[trigger] settled_to(o.children@, d),
    decreases item,
{
    let ghost orig = item;
    proof {
        axiom_vec_decreases_to_view(orig.children);
        assert(decreases_to!(orig => orig.children@));
    }
    if !attrs_distinct(&item.attrs) {
        let DebugInfoObj { tag, attrs, children } = item;
        let kids = remove_dead_functions(children);
        let o = DebugInfoObj { tag, attrs, children: kids };
        proof {
            let idx = kept_positions(orig.children@);
            assert forall|d: nat| #[trigger] pruned_node_to(o, orig, d) by {
                if d > 0 {
                    assert(survivors_to(kids@, orig.children@, idx, (d - 1) as nat));
                }
            }
        }
        return Some(o);
    }
    let DebugInfoObj { tag, mut attrs, children } = item;
    proof {
        lemma_names_differ();
        reveal_strlit("ranges");
        assert("ranges"@ =~= ranges_name());
        reveal_strlit("low_pc");
        reveal_strlit("high_pc");
        assert("low_pc"@ =~= low_pc_name());
        assert("high_pc"@ =~= high_pc_name());
    }
    let sub = is_subprogram(&tag);
    let inlined = is_inlined_subprogram(&attrs);
    let mut pc_dead = false;
    if sub {
        if let Some((l, h)) = pc_pair(&attrs) {
            pc_dead = is_out_of_range(l as i128, h as i128);
        }
    }
    assert(pc_dead == (is_subprogram_spec(orig) && pc_range_dead(orig)));
    if pc_dead {
        if inlined {
            remove_attr(&mut attrs, "low_pc");
            remove_attr(&mut attrs, "high_pc");
        } else {
            return None;
        }
    }
    let ghost before = attrs@;
    let none_left = filter_ranges(&mut attrs);
    let ghost filtered = attrs@;
    proof {
        assert(attr_of(attrs@, inline_name()) == attr_of(orig.attrs@, inline_name()));
        assert(attr_of(before, ranges_name()) == attr_of(orig.attrs@, ranges_name()));
    }
    if none_left && sub {
        if inlined {
            remove_attr(&mut attrs, "ranges");
        } else {
            return None;
        }
    }
    let kids = remove_dead_functions(children);
    let o = DebugInfoObj { tag, attrs, children: kids };
    proof {
        assert(attr_of(o.attrs@, inline_name()) == attr_of(orig.attrs@, inline_name()));
        if !pc_dead {
            assert(attr_of(o.attrs@, low_pc_name()) == attr_of(orig.attrs@, low_pc_name()));
            assert(attr_of(o.attrs@, high_pc_name()) == attr_of(orig.attrs@, high_pc_name()));
            assert(pc_range(o) == pc_range(orig));
        } else {
            assert(attr_of(o.attrs@, low_pc_name()) is None);
            assert(pc_range(o) is None);
        }
        match attr_of(orig.attrs@, ranges_name()) {
            Some(DebugAttrValue::Ranges(v)) => {
                let w = attr_of(filtered, ranges_name())->Some_0->Ranges_0;
                assert(w@ == live_ranges(v@));
                if !(sub && none_left) {
                    assert(attr_of(o.attrs@, ranges_name()) == attr_of(filtered, ranges_name()));
                    if sub {
                        assert(w@.len() > 0);
                        assert(!out_of_range(w@[0].0 as int, w@[0].1 as int));
                    }
                }
            },
            _ => {
                assert(attr_of(o.attrs@, ranges_name()) == attr_of(orig.attrs@, ranges_name()));
            },
        }
        assert forall|n: Seq<char>| n != low_pc_name() && n != high_pc_name() && n != ranges_name()
            implies #[trigger] attr_of(o.attrs@, n) == attr_of(orig.attrs@, n) by {}
        assert(attrs_after(o.attrs@, orig));
        assert(settled(o));
        let idx = kept_positions(orig.children@);
        assert forall|d: nat| #[trigger] pruned_node_to(o, orig, d) by {
            if d > 0 {
                assert(survivors_to(kids@, orig.children@, idx, (d - 1) as nat));
            }
        }
    }
    Some(o)
}

/// The nodes of `r` are, in order, what pruning makes of the nodes of
/// `items` that it keeps, at every depth.
pub open spec fn survivors(r: Seq<DebugInfoObj>, items: Seq<DebugInfoObj>, idx: Seq<int>) -> bool {
    forall|d: nat| #[trigger] survivors_to(r, items, idx, d)
}

/// Prunes the functions that the linker dropped from a forest, at every depth.
pub fn remove_dead_functions(items: Vec<DebugInfoObj>) -> (r: Vec<DebugInfoObj>)
    ensures
        survivors(r@, items@, kept_positions(items@)),
        forall|d: nat| #[trigger] settled_to(r@, d),
        r@.len() == kept_count(items@),
    decreases items@,
{
    let ghost orig = items;
    let n = items.len();
    let mut rest = items;
    let mut rev: Vec<DebugInfoObj> = Vec::new();
    while rest.len() > 0
        invariant
            rest@.len() + rev@.len() == n,
            n == orig@.len(),
            rest@ == orig@.subrange(0, rest@.len() as int),
            forall|j: int| 0 <= j < rev@.len() ==> rev@[j] == orig@[n - 1 - j],
        decreases rest@.len(),
    {
        let x = rest.pop().unwrap();
        rev.push(x);
    }
    let mut out: Vec<DebugInfoObj> = Vec::new();
    let ghost mut idx: Seq<int> = Seq::empty();
    while rev.len() > 0
        invariant
            rev@.len() <= n,
            n == orig@.len(),
            orig == items,
            forall|j: int| 0 <= j < rev@.len() ==> rev@[j] == orig@[n - 1 - j],
            forall|d: nat| #[trigger] settled_to(out@, d),
            out@.len() == kept_count(orig@.subrange(0, n - rev@.len())),
            idx.len() == out@.len(),
            forall|k: int| 0 <= k < idx.len() ==> 0 <= #[trigger] idx[k] < n - rev@.len() && !pruned(orig@[idx[k]]),
            forall|k: int, d: nat| 0 <= k < idx.len() ==> #[trigger] pruned_node_to(out@[k], orig@[idx[k]], d),
            forall|k: int, m: int| 0 <= k < m < idx.len() ==> idx[k] < idx[m],
            forall|j: int| 0 <= j < n - rev@.len() && !pruned(#[trigger] orig@[j]) ==> exists|k: int| 0 <= k < idx.len() && idx[k] == j,
            idx == kept_positions(orig@.subrange(0, n - rev@.len())),
        decreases rev@.len(),
    {
        let ghost i = n - rev@.len();
        let item = rev.pop().unwrap();
        proof {
            assert(item == orig@[i]);
            assert(decreases_to!(orig@ => orig@[i]));
            assert(orig@.subrange(0, i + 1).drop_last() =~= orig@.subrange(0, i));
            assert(orig@.subrange(0, i + 1).last() == orig@[i]);
            assert(orig@.subrange(0, i + 1).len() - 1 == i);
        }
        let kept = prune_item(item);
        match kept {
            Some(o) => {
                let ghost old_out = out@;
                out.push(o);
                proof {
                    assert forall|d: nat| #[trigger] settled_to(out@, d) by {
                        assert(settled_to(old_out, d));
                        assert(pruned_node_to(o, orig@[i], d));
                        if d > 0 {
                            assert(settled_to(o.children@, (d - 1) as nat));
                        }
                        lemma_settled_to_push(old_out, o, d);
                        assert(old_out.push(o) =~= out@);
                    }
                    let old_idx = idx;
                    idx = idx.push(i);
                    assert forall|j: int| 0 <= j < i + 1 && !pruned(#[trigger] orig@[j]) implies exists|k: int|
                        0 <= k < idx.len() && idx[k] == j by {
                        if j < i {
                            let k = choose|k: int| 0 <= k < old_idx.len() && old_idx[k] == j;
                            assert(idx[k] == j);
                        } else {
                            assert(idx[idx.len() - 1] == j);
                        }
                    }
                    assert forall|k: int| 0 <= k < idx.len() implies 0 <= #[trigger] idx[k] < i + 1 && !pruned(orig@[idx[k]]) by {
                        if k < old_idx.len() {
                            assert(idx[k] == old_idx[k]);
                        }
                    }
                    assert forall|k: int, d: nat| 0 <= k < idx.len() implies #[trigger] pruned_node_to(out@[k], orig@[idx[k]], d) by {
                        if k < old_idx.len() {
                            assert(idx[k] == old_idx[k]);
                            assert(out@[k] == old_out[k]);
                            assert(pruned_node_to(old_out[k], orig@[old_idx[k]], d));
                        } else {
                            assert(pruned_node_to(o, orig@[i], d));
                        }
                    }
                }
            },
            None => {
                proof {
                    assert forall|j: int| 0 <= j < i + 1 && !pruned(#[trigger] orig@[j]) implies exists|k: int|
                        0 <= k < idx.len() && idx[k] == j by {
                        assert(j != i);
                    }
                }
            },
        }
    }
    proof {
        assert(orig@.subrange(0, n as int) =~= orig@);
        assert forall|d: nat| #[trigger] survivors_to(out@, orig@, idx, d) by {
            assert forall|k: int| 0 <= k < idx.len() implies pruned_node_to(#[trigger] out@[k], orig@[idx[k]], d) by {
                assert(pruned_node_to(out@[k], orig@[idx[k]], d));
            }
        }
        assert(survivors(out@, orig@, idx));
        assert(idx == kept_positions(orig@));
    }
    out
}

/// Number of nodes of `items` that pruning keeps.
pub open spec fn kept_count(items: Seq<DebugInfoObj>) -> nat
    decreases items.len(),
{
    if items.len() == 0 {
        0
    } else {
        kept_count(items.drop_last()) + if pruned(items.last()) { 0nat } else { 1nat }
    }
}

proof fn lemma_names_differ()
    ensures
        inline_name() != ranges_name(),
        low_pc_name() != ranges_name(),
        high_pc_name() != ranges_name(),
        inline_name() != low_pc_name(),
        inline_name() != high_pc_name(),
{
    assert(inline_name()[0] != ranges_name()[0]);
    assert(low_pc_name()[0] != ranges_name()[0]);
    assert(high_pc_name()[0] != ranges_name()[0]);
    assert(inline_name()[0] != low_pc_name()[0]);
    assert(inline_name()[0] != high_pc_name()[0]);
}

proof fn lemma_live_ranges_all_live(v: Seq<(i64, i64)>)
    requires
        forall|k: int| 0 <= k < v.len() ==> !out_of_range(v[k].0 as int, v[k].1 as int),
    ensures
        live_ranges(v) == v,
    decreases v.len(),
{
    if v.len() > 0 {
        lemma_live_ranges_all_live(v.drop_last());
        assert(live_ranges(v.drop_last()) + seq![v.last()] =~= v);
    }
}

proof fn lemma_kept_all(r: Seq<DebugInfoObj>)
    requires
        forall|k: int| 0 <= k < r.len() ==> !pruned(#[trigger] r[k]),
    ensures
        kept_positions(r).len() == r.len(),
        forall|k: int| 0 <= k < r.len() ==> #[trigger] kept_positions(r)[k] == k,
    decreases r.len(),
{
    if r.len() > 0 {
        let p = r.drop_last();
        assert forall|k: int| 0 <= k < p.len() implies !pruned(#[trigger] p[k]) by {
            assert(p[k] == r[k]);
        }
        lemma_kept_all(p);
        assert(!pruned(r[r.len() - 1]));
    }
}

/// A second pass of the pruning changes nothing: on a forest that pruning
/// has settled, it keeps every node in place, with its tag and with every
/// attribute as it was (a `ranges` list holding the same ranges).
pub proof fn lemma_second_pass_keeps(r: Seq<DebugInfoObj>, r2: Seq<DebugInfoObj>)
    requires
        settled_to(r, 0),
        survivors(r2, r, kept_positions(r)),
    ensures
        r2.len() == r.len(),
        forall|k: int| 0 <= k < r.len() ==> (#[trigger] r2[k]).tag == r[k].tag,
        forall|k: int, n: Seq<char>| 0 <= k < r.len() && attr_names_distinct(r[k].attrs@) && n != ranges_name()
            ==> #[trigger] attr_of(r2[k].attrs@, n) == attr_of(r[k].attrs@, n),
        forall|k: int| 0 <= k < r.len() && attr_names_distinct(r[k].attrs@) ==> match attr_of(r[k].attrs@, ranges_name()) {
            Some(DebugAttrValue::Ranges(v)) => (#[trigger] attr_of(r2[k].attrs@, ranges_name())) is Some
                && attr_of(r2[k].attrs@, ranges_name())->Some_0 is Ranges
                && attr_of(r2[k].attrs@, ranges_name())->Some_0->Ranges_0@ == v@,
            other => attr_of(r2[k].attrs@, ranges_name()) == other,
        },
        forall|k: int| 0 <= k < r.len() && !attr_names_distinct(r[k].attrs@) ==> (#[trigger] r2[k]).attrs == r[k].attrs,
{
    assert forall|k: int| 0 <= k < r.len() implies !pruned(#[trigger] r[k]) by {
        assert(settled(r[k]));
    }
    lemma_kept_all(r);
    let idx = kept_positions(r);
    assert(survivors_to(r2, r, idx, 0));
    assert forall|k: int| 0 <= k < r.len() implies pruned_node_to(#[trigger] r2[k], r[k], 0) by {
        assert(idx[k] == k);
        assert(pruned_node_to(r2[k], r[idx[k]], 0));
    }
    assert forall|k: int, n: Seq<char>| 0 <= k < r.len() && attr_names_distinct(r[k].attrs@) && n != ranges_name()
        implies #[trigger] attr_of(r2[k].attrs@, n) == attr_of(r[k].attrs@, n) by {
        assert(pruned_node_to(r2[k], r[k], 0));
        assert(settled(r[k]));
    }
    assert forall|k: int| 0 <= k < r.len() && attr_names_distinct(r[k].attrs@) implies match attr_of(r[k].attrs@, ranges_name()) {
        Some(DebugAttrValue::Ranges(v)) => (#[trigger] attr_of(r2[k].attrs@, ranges_name())) is Some
            && attr_of(r2[k].attrs@, ranges_name())->Some_0 is Ranges
            && attr_of(r2[k].attrs@, ranges_name())->Some_0->Ranges_0@ == v@,
        other => attr_of(r2[k].attrs@, ranges_name()) == other,
    } by {
        assert(pruned_node_to(r2[k], r[k], 0));
        assert(settled(r[k]));
        match attr_of(r[k].attrs@, ranges_name()) {
            Some(DebugAttrValue::Ranges(v)) => {
                lemma_live_ranges_all_live(v@);
                if is_subprogram_spec(r[k]) && v@.len() == 0 {
                    assert(ranges_all_dead(r[k]));
                }
            },
            _ => {},
        }
    }
    assert forall|k: int| 0 <= k < r.len() && !attr_names_distinct(r[k].attrs@) implies (#[trigger] r2[k]).attrs == r[k].attrs by {
        assert(pruned_node_to(r2[k], r[k], 0));
    }
}

} // verus!
