//! Uniqueness, cardinality and frequency tallying for dictionary-encoded
//! ("categorical") columns.
//!
//! A categorical column stores nullable unsigned 32-bit codes referencing a
//! shared, immutable string dictionary.  This crate answers three questions
//! over such columns: the distinct codes (`unique`), the number of distinct
//! values (`n_unique`), and the frequency of each distinct value
//! (`value_counts`).  All computational paths are verified: the domain-bitset
//! deduplication kernel, the value-level deduplication that handles code
//! aliasing under merged global dictionaries, the null-aware grouping and the
//! stable descending sort behind `value_counts`.

pub mod codes;
pub mod column;
pub mod kernel;
pub mod laws;
pub mod rev_map;
pub mod unique;
pub mod value_counts;

use vstd::prelude::*;

verus! {

/// Why a categorical column could not be built.
#[derive(Clone, Copy, Debug, PartialEq, Eq, Structural)]
pub enum CategoricalError {
    /// A non-null physical code is not a valid index/key of the dictionary.
    OutOfRangeCode,
    /// A dictionary was declared an enum domain but its live codes are not
    /// the contiguous range starting at zero.
    InvalidEnumDictionary,
    /// A local dictionary repeats a category string; aliasing is the
    /// preserve of merged global dictionaries.
    DuplicateCategory,
}

} // verus!
