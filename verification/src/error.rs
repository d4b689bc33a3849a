//! What can go wrong while grouping.

use arrow::error::ArrowError;
use vstd::prelude::*;

verus! {

/// The error type of arrow, carried through as it came.
#[verifier::external_type_specification]
#[verifier::external_body]
pub struct ExArrowError(ArrowError);

/// The errors of this library.
#[derive(Debug)]
pub enum AggregateError {
    /// An error that arrow reported.
    Arrow(ArrowError),
    /// A group column has a type that arrow's row format does not write.
    UnsupportedKeyType,
    /// The schema has a type that arrow has no columns of.
    InvalidType,
    /// The columns handed in as one batch differ in length.
    ColumnLengths,
    /// The batch would bring the number of groups past `MAX_GROUPS`.
    TooManyGroups,
    /// The batch holds keys that are too large to be sure that the row format can count their
    /// elements and bytes in 32 bits.
    KeyTooLarge,
    /// The groups hold more bytes or elements than the offsets of a group column can address.
    OffsetOverflow,
    /// A memory pool turned a request down.
    ResourcesExhausted(String),
    /// An expression, an accumulator or the input reported a failure.
    Execution(String),
}

} // verus!
