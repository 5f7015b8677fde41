//! A query engine over variant records: decoding a record into a tree-shaped
//! value, exploding its nested fields into rows, joining the rows, and
//! filtering them.
use vstd::prelude::*;

pub mod error;
pub mod filter;
pub mod join;
pub mod magnitude;
pub mod number;
pub mod numeral;
pub mod parser;
pub mod render;
pub mod text;
pub mod utils;
pub mod value;
pub mod variant;
pub mod vcfparser;

verus! {

/// The format in which rows are written.
#[derive(Debug, Clone, Copy, PartialEq, Eq, Structural)]
pub enum OutputFormat {
    /// Tab-separated values.
    T,
    /// One structured object for each row.
    J,
    /// The format of the input.
    V,
}

impl Default for OutputFormat {
    fn default() -> (r: OutputFormat)
        ensures
            r == OutputFormat::T,
    {
        OutputFormat::T
    }
}

} // verus!
