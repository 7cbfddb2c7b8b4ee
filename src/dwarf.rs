//! Failures of the DWARF stages.

use vstd::prelude::*;

verus! {

#[derive(Debug, Clone, Copy, PartialEq, Eq, Structural)]
pub enum Error {
    /// An entry that the data refers to is not there.
    MissingDwarfEntry,
    /// A section that the conversion needs is absent.
    MissingSection,
    /// The data is malformed.
    DataFormat,
}

} // verus!
