//! A structured, path-addressed diff between two parsed JSON documents.
//!
//! The comparison engine walks two document trees in lock-step and emits one
//! entry per reportable difference, addressed by a `$`-rooted path string.
//! Configured path patterns can suppress subtrees (ignored paths) or switch
//! designated arrays to an order-insensitive comparison.  A best-effort line
//! correlator attaches source line numbers to entries, and a stable sorter
//! orders the result by position.
#![verifier::loop_isolation(false)]

pub mod compare;
pub mod diff;
pub mod display;
pub mod error;
pub mod laws;
pub mod linemap;
pub mod path;
pub mod profile;
pub mod strutil;
pub mod value;

pub use compare::CompareOptions;
pub use compare::compare_json;
pub use compare::compare_json_with_lines;
pub use compare::sort_entries_by_line_number;
pub use diff::DiffEntry;
pub use diff::DiffResult;
pub use diff::DiffType;
pub use display::App;
pub use display::KeyInput;
pub use display::ViewMode;
pub use error::JsonDiffError;
pub use linemap::LineMap;
pub use linemap::build_line_number_map;
pub use linemap::find_field_line_number;
pub use linemap::find_line_for_path;
pub use path::JsonPath;
pub use profile::Profile;
pub use profile::options_from_profile;
pub use value::JsonValue;
pub use value::SpecValue;
