//! The line table: from the rows of each unit's line-number program to address
//! records, in address order, with the functions that the linker dropped removed.

use vstd::prelude::*;
use vstd::string::*;
use crate::convert::{has_required_sections, required_sections, table_view};
use crate::dwarf::Error;
use crate::liveness::{is_out_of_range, out_of_range};
use crate::sources::{distinct, is_slash_rooted, join, join_path, paths, position, registered, source_id, starts_with_slash};

verus! {

/// A file of a line-number program's file table.
pub struct FileName {
    pub directory: Option<String>,
    pub path_name: String,
}

/// One row of a line-number program, as the DWARF reader reports it.
pub struct LineRow {
    pub address: u64,
    /// The file that the row's file index names, if the table has it.
    pub file: Option<FileName>,
    /// Zero when the row has no line.
    pub line: u64,
    /// Zero for the left edge.
    pub column: u64,
    pub end_sequence: bool,
}

/// The rows of one compilation unit's line-number program.
pub struct LineUnit {
    pub comp_dir: Option<String>,
    pub rows: Vec<LineRow>,
}

#[derive(Clone, Copy, Debug, PartialEq, Eq, Structural)]
pub struct LocationRecord {
    pub address: u64,
    pub source_id: u32,
    pub line: u32,
    pub column: u32,
}

pub struct LocationInfo {
    pub sources: Vec<String>,
    pub locations: Vec<LocationRecord>,
}

/// Every record names a source below `n`.
pub open spec fn ids_below(locs: Seq<LocationRecord>, n: nat) -> bool {
    forall|i: int| 0 <= i < locs.len() ==> (locs[i].source_id as nat) < n
}

pub open spec fn sorted_by_address(locs: Seq<LocationRecord>) -> bool {
    forall|i: int, j: int| 0 <= i < j < locs.len() ==> locs[i].address <= locs[j].address
}

impl LocationInfo {
    /// Sources are distinct and every record names one of them.
    pub open spec fn wf(&self) -> bool {
        &&& distinct(paths(self.sources@))
        &&& ids_below(self.locations@, self.sources@.len())
    }
}

/// The path of a row's file: `directory/name`, under the compilation
/// directory when it is not rooted at `/`.
pub open spec fn row_path(comp_dir: Option<String>, f: FileName) -> Seq<char> {
    let p = match f.directory {
        Some(d) => join_path(d@, f.path_name@),
        None => f.path_name@,
    };
    match comp_dir {
        Some(c) => if is_slash_rooted(p) {
            p
        } else {
            join_path(c@, p)
        },
        None => p,
    }
}

fn row_source_path(comp_dir: &Option<String>, f: &FileName) -> (r: String)
    ensures
        r@ == row_path(*comp_dir, *f),
{
    let p = match &f.directory {
        Some(d) => join(d.as_str(), f.path_name.as_str()),
        None => f.path_name.clone(),
    };
    match comp_dir {
        Some(c) => if starts_with_slash(p.as_str()) {
            p
        } else {
            join(c.as_str(), p.as_str())
        },
        None => p,
    }
}

/// The records after a sequence that starts at `start` ends: the sequence's
/// records are dropped when the function starts inside its own size field
/// (its first address is no greater than the length of that field).
pub open spec fn end_sequence(locs: Seq<LocationRecord>, start: int) -> Seq<LocationRecord> {
    if 0 <= start < locs.len() && out_of_range(locs[start].address as int, locs.last().address as int + 1) {
        locs.subrange(0, start)
    } else {
        locs
    }
}

/// Ends a sequence whose records start at `block_start`: drops them all when
/// the sequence starts inside its own size field.
pub fn finish_sequence(locations: &mut Vec<LocationRecord>, block_start: usize)
    requires
        block_start <= old(locations)@.len(),
    ensures
        final(locations)@ == end_sequence(old(locations)@, block_start as int),
{
    if block_start < locations.len() {
        let start = locations[block_start].address;
        let end = locations[locations.len() - 1].address;
        if is_out_of_range(start as i128, end as i128 + 1) {
            locations.truncate(block_start);
        }
    }
}

/// The state of the line-table walk: the source paths, the records, and
/// where the current sequence's records start.
pub type LineState = (Seq<Seq<char>>, Seq<LocationRecord>, int);

/// One row of a unit's program: its path is registered; a row that ends a
/// sequence records the address one byte back where that is past the last
/// record, then ends the sequence; any other row is recorded. Fails where
/// the row's file index has no entry in the file table, or where the source
/// id would not fit in 32 bits.
pub open spec fn row_step(st: LineState, comp_dir: Option<String>, row: LineRow) -> Result<LineState, Error> {
    match row.file {
        None => Err(Error::MissingDwarfEntry),
        Some(f) => {
            let p = row_path(comp_dir, f);
            let srcs = registered(st.0, p);
            let id = position(srcs, p);
            if id > 0xffff_ffff {
                Err(Error::DataFormat)
            } else {
                let loc = LocationRecord {
                    address: row.address,
                    source_id: id as u32,
                    line: #[verifier::truncate] (row.line as u32),
                    column: #[verifier::truncate] (row.column as u32),
                };
                if row.end_sequence {
                    let locs1 = if row.address > 0 && (st.1.len() == 0 || st.1.last().address < row.address - 1) {
                        st.1.push(LocationRecord { address: (row.address - 1) as u64, source_id: loc.source_id, line: loc.line, column: loc.column })
                    } else {
                        st.1
                    };
                    let locs2 = end_sequence(locs1, st.2);
                    Ok((srcs, locs2, locs2.len() as int))
                } else {
                    Ok((srcs, st.1.push(loc), st.2))
                }
            }
        },
    }
}

/// The walk over a unit's rows.
pub open spec fn rows_fold(st: LineState, comp_dir: Option<String>, rows: Seq<LineRow>) -> Result<LineState, Error>
    decreases rows.len(),
{
    if rows.len() == 0 {
        Ok(st)
    } else {
        match row_step(st, comp_dir, rows[0]) {
            Err(e) => Err(e),
            Ok(st2) => rows_fold(st2, comp_dir, rows.drop_first()),
        }
    }
}

/// The walk over the units, each starting a fresh sequence.
pub open spec fn units_fold(srcs: Seq<Seq<char>>, locs: Seq<LocationRecord>, units: Seq<LineUnit>) -> Result<(Seq<Seq<char>>, Seq<LocationRecord>), Error>
    decreases units.len(),
{
    if units.len() == 0 {
        Ok((srcs, locs))
    } else {
        match rows_fold((srcs, locs, locs.len() as int), units[0].comp_dir, units[0].rows@) {
            Err(e) => Err(e),
            Ok(st) => units_fold(st.0, st.1, units.drop_first()),
        }
    }
}

/// `out` is `inp` sorted by address, records at equal addresses in the
/// order they have in `inp`.
pub open spec fn stably_sorted(out: Seq<LocationRecord>, inp: Seq<LocationRecord>) -> bool {
    &&& sorted_by_address(out)
    &&& out.len() == inp.len()
    &&& exists|perm: Seq<int>| {
        &&& perm.len() == inp.len()
        &&& forall|i: int| 0 <= i < perm.len() ==> 0 <= #[trigger] perm[i] < inp.len() && out[i] == inp[perm[i]]
        &&& forall|i: int, j: int| 0 <= i < j < perm.len() ==> perm[i] != perm[j]
        &&& forall|i: int, j: int| 0 <= i < j < perm.len() && out[i].address == out[j].address ==> perm[i] < perm[j]
    }
}

/// Relies on slice::sort_by_key: a stable sort, here into ascending address
/// order.
#[verifier::external_body]
fn sort_by_address(locations: &mut Vec<LocationRecord>)
    ensures
        final(locations)@.to_multiset() == old(locations)@.to_multiset(),
        stably_sorted(final(locations)@, old(locations)@),
{
    locations.sort_by_key(|r| r.address)
}

/// Appends the records of one unit's rows.
fn add_unit(info: &mut LocationInfo, unit: &LineUnit) -> (r: Result<(), Error>)
    requires
        old(info).wf(),
    ensures
        final(info).wf(),
        match rows_fold((paths(old(info).sources@), old(info).locations@, old(info).locations@.len() as int), unit.comp_dir, unit.rows@) {
            Err(e) => r == Err::<(), Error>(e),
            Ok(st) => r is Ok && paths(final(info).sources@) == st.0 && final(info).locations@ == st.1,
        },
{
    let ghost start = (paths(info.sources@), info.locations@, info.locations@.len() as int);
    let mut block_start: usize = info.locations.len();
    let mut i: usize = 0;
    proof {
        assert(unit.rows@.subrange(0, unit.rows@.len() as int) =~= unit.rows@);
    }
    while i < unit.rows.len()
        invariant
            info.wf(),
            block_start <= info.locations@.len(),
            i <= unit.rows@.len(),
            start == (paths(old(info).sources@), old(info).locations@, old(info).locations@.len() as int),
            rows_fold(start, unit.comp_dir, unit.rows@) == rows_fold(
                (paths(info.sources@), info.locations@, block_start as int),
                unit.comp_dir,
                unit.rows@.subrange(i as int, unit.rows@.len() as int),
            ),
        decreases unit.rows@.len() - i,
    {
        let ghost st = (paths(info.sources@), info.locations@, block_start as int);
        let ghost rest = unit.rows@.subrange(i as int, unit.rows@.len() as int);
        proof {
            assert(rest[0] == unit.rows@[i as int]);
            assert(rest.drop_first() =~= unit.rows@.subrange(i + 1, unit.rows@.len() as int));
        }
        let row = &unit.rows[i];
        let file = match &row.file {
            Some(f) => f,
            None => {
                proof {
                    assert(rest.len() > 0);
                    assert(rows_fold(st, unit.comp_dir, rest) == Err::<LineState, Error>(Error::MissingDwarfEntry));
                }
                return Err(Error::MissingDwarfEntry);
            },
        };
        let path = row_source_path(&unit.comp_dir, file);
        let id = source_id(&mut info.sources, path);
        if id > 0xffff_ffff {
            proof {
                assert(row_step(st, unit.comp_dir, *row) == Err::<LineState, Error>(Error::DataFormat));
                assert(rest.len() > 0);
                assert(rows_fold(st, unit.comp_dir, rest) == Err::<LineState, Error>(Error::DataFormat));
            }
            return Err(Error::DataFormat);
        }
        let loc = LocationRecord {
            address: row.address,
            source_id: id as u32,
            line: #[verifier::truncate] (row.line as u32),
            column: #[verifier::truncate] (row.column as u32),
        };
        if row.end_sequence {
            // The row falls on the byte after the function's end.
            if row.address > 0 {
                let last = loc.address - 1;
                let n = info.locations.len();
                if n == 0 || info.locations[n - 1].address < last {
                    info.locations.push(LocationRecord { address: last, ..loc });
                }
            }
            finish_sequence(&mut info.locations, block_start);
            block_start = info.locations.len();
        } else {
            info.locations.push(loc);
        }
        proof {
            assert(row_step(st, unit.comp_dir, *row) == Ok::<LineState, Error>((paths(info.sources@), info.locations@, block_start as int)));
        }
        i = i + 1;
    }
    Ok(())
}

proof fn lemma_ids_below_permuted(a: Seq<LocationRecord>, b: Seq<LocationRecord>, n: nat)
    requires
        ids_below(a, n),
        a.to_multiset() == b.to_multiset(),
    ensures
        ids_below(b, n),
{
    assert forall|i: int| 0 <= i < b.len() implies (b[i].source_id as nat) < n by {
        b.to_multiset_ensures();
        a.to_multiset_ensures();
        assert(b.to_multiset().count(b[i]) > 0);
        assert(a.contains(b[i]));
    }
}

/// Builds the line table of all units: sources in first-seen order, records
/// stably sorted by address. Fails where a required debug section is
/// missing, a row's file has no entry, or more sources are seen than a
/// record can name.
pub fn get_debug_loc(sections: &Vec<(&str, &[u8])>, units: &Vec<LineUnit>) -> (r: Result<LocationInfo, Error>)
    ensures
        !has_required_sections(table_view(sections@)) ==> r == Err::<LocationInfo, Error>(Error::MissingSection),
        has_required_sections(table_view(sections@)) ==> match units_fold(Seq::empty(), Seq::empty(), units@) {
            Err(e) => r == Err::<LocationInfo, Error>(e),
            Ok((srcs, locs)) => r matches Ok(info) && paths(info.sources@) == srcs
                && stably_sorted(info.locations@, locs),
        },
        r matches Ok(info) ==> info.wf() && sorted_by_address(info.locations@),
{
    required_sections(sections)?;
    let mut info = LocationInfo { sources: Vec::new(), locations: Vec::new() };
    let mut u: usize = 0;
    proof {
        assert(paths(info.sources@) =~= Seq::<Seq<char>>::empty());
        assert(units@.subrange(0, units@.len() as int) =~= units@);
    }
    while u < units.len()
        invariant
            info.wf(),
            u <= units@.len(),
            has_required_sections(table_view(sections@)),
            units_fold(Seq::empty(), Seq::empty(), units@) == units_fold(
                paths(info.sources@),
                info.locations@,
                units@.subrange(u as int, units@.len() as int),
            ),
        decreases units@.len() - u,
    {
        let ghost rest = units@.subrange(u as int, units@.len() as int);
        proof {
            assert(rest[0] == units@[u as int]);
            assert(rest.drop_first() =~= units@.subrange(u + 1, units@.len() as int));
        }
        match add_unit(&mut info, &units[u]) {
            Ok(()) => {},
            Err(e) => return Err(e),
        }
        u = u + 1;
    }
    let ghost before = info.locations@;
    sort_by_address(&mut info.locations);
    proof {
        lemma_ids_below_permuted(before, info.locations@, info.sources@.len());
    }
    Ok(info)
}

} // verus!
