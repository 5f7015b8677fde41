//! The ways in which the library's functions fail.
use vstd::prelude::*;

verus! {

/// Why a record, a filter or a configuration was refused.
#[derive(Debug, Clone, Copy, PartialEq, Eq, Structural)]
pub enum VcfParserError {
    /// A field was named that the header does not declare.
    SchemaLookupFailure,
    /// A token is no number of the kind that its field declares, or a value
    /// that had to be a number is none.
    TypeCoercionFailure,
    /// A token is not well-formed UTF-8.
    InvalidEncoding,
    /// A value does not have the shape that the operation needs: the field to
    /// explode is no array of objects, or tables and join keys differ in
    /// number.
    ShapeViolation,
    /// A comparison names an operator that is not known.
    UnknownOperator,
    /// A filter expression could not be read; the offset is that of the byte at
    /// which reading stopped.
    MalformedExpression(usize),
    /// A filter tree is not made of conjunctions, disjunctions and comparisons.
    InvalidFilter,
    /// The configuration contradicts itself or names a column that does not
    /// exist.
    InvalidArgument,
}

} // verus!
