//! The descriptive report a validation run produces for a domain.

use vstd::prelude::*;

verus! {

/// The shape of the cyclic structure of a domain's task hierarchy,
/// relative to its nullable tasks.  Exactly one applies; when several
/// shapes occur in one domain the strictest wins (grow-and-shrink over
/// growing-prefix over empty over plain recursion).
#[derive(Debug, Clone, Copy, PartialEq, Eq)]
pub enum RecursionType {
    NonRecursive,
    Recursive,
    EmptyRecursion,
    GrowingEmptyPrefixRecursion,
    GrowAndShrinkRecursion,
}

/// Aggregates what a run learned about a domain for presentation;
/// formatting is the caller's business.
#[derive(Debug)]
pub struct MetaData {
    pub recursion: RecursionType,
    pub nullables: Vec<String>,
    pub domain_name: String,
}

} // verus!
