//! Ordering of version tags.

use std::cmp::Ordering;
use vstd::prelude::*;
use crate::version::{parse_parts, parts_sign, version_order};

verus! {

/// The `Ordering` that a sign -1, 0 or 1 stands for.
pub open spec fn ordering_of(s: int) -> Ordering {
    if s < 0 {
        Ordering::Less
    } else if s > 0 {
        Ordering::Greater
    } else {
        Ordering::Equal
    }
}

/// Compare two dotted version strings numerically (1.10 > 1.9).
pub fn compare_versions(a: &str, b: &str) -> (r: Ordering)
    ensures
        r == ordering_of(version_order(a@, b@)),
{
    let pa = parse_parts(a);
    let pb = parse_parts(b);
    let s = parts_sign(&pa, &pb);
    if s < 0 {
        Ordering::Less
    } else if s > 0 {
        Ordering::Greater
    } else {
        Ordering::Equal
    }
}

/// Whether version `a` is older than version `b`.
pub fn version_is_older(a: &str, b: &str) -> (r: bool)
    ensures
        r == (version_order(a@, b@) < 0),
{
    match compare_versions(a, b) {
        Ordering::Less => true,
        _ => false,
    }
}

} // verus!
