//! The order of search results as `<` and `partial_cmp`.

use crate::search::{result_before, SearchResult};
use std::cmp::Ordering;
use vstd::prelude::*;
use vstd::std_specs::cmp::PartialOrdSpecImpl;

verus! {

impl PartialOrd for SearchResult {
    /// Results compare as they sort: by time of modification, latest
    /// first, then by kind, then by path.
    fn partial_cmp(&self, other: &SearchResult) -> (order: Option<Ordering>) {
        if self.precedes(other) {
            Some(Ordering::Less)
        } else if other.precedes(self) {
            Some(Ordering::Greater)
        } else {
            Some(Ordering::Equal)
        }
    }
}

impl PartialOrdSpecImpl for SearchResult {
    open spec fn obeys_partial_cmp_spec() -> bool {
        true
    }

    open spec fn partial_cmp_spec(&self, other: &SearchResult) -> Option<Ordering> {
        if result_before(self@, other@) {
            Some(Ordering::Less)
        } else if result_before(other@, self@) {
            Some(Ordering::Greater)
        } else {
            Some(Ordering::Equal)
        }
    }
}

} // verus!
