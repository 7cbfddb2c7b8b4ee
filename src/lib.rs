//! Converts the DWARF debugging information carried in a WebAssembly module's
//! custom sections into a source map, with the DWARF scope tree as an
//! optional extension.

pub mod convert;
pub mod dwarf;
pub mod lines;
pub mod liveness;
pub mod scopes;
pub mod sources;
pub mod to_json;
pub mod wasm;

pub use convert::{convert, convert_document, fix_source_urls, read_debug_sections, DwarfUnits, Error};
pub use lines::{get_debug_loc, FileName, LineRow, LineUnit, LocationInfo, LocationRecord};
pub use scopes::{get_debug_scopes, DebugAttrValue, DebugInfoObj, RawAttr, RawAttrValue, RawEntry, ScopeUnit};
pub use wasm::{WasmDecoder, WasmFormatError};
