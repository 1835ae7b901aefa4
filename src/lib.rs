//! Spreadsheet cell references and the generic element protocol of spreadsheet markup.
//!
//! - `address`: cell and range references: reading, writing and structural edits.
//! - `defined_name`: named ranges, which hold a list of references or a literal text.
//! - `value`: attribute values that are either unset or set.
//! - `markup`: binding markup events to elements by a schema, and writing markup.
//! - `smooth`: the `c:smooth` chart element.
mod text;
pub mod address;
pub mod value;
pub mod markup;
pub mod defined_name;
pub mod smooth;
