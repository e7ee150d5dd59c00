//! Interactive shell-history engine: frecency ranking, substring/regex
//! filtering, view and mode state, and a paging cursor with wraparound.
pub mod app;
pub mod filter;
pub mod sort;
pub mod ui;

use vstd::prelude::*;

verus! {

/// Sequence of the views of a vector's elements; contracts throughout the
/// crate speak of entries by their character content, not by allocation.
pub open spec fn views_of<T: View>(s: Seq<T>) -> Seq<T::V> {
    s.map_values(|x: T| x@)
}

} // verus!
