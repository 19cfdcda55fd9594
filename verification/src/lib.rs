//! Maps keyed by byte arrays of a fixed width, kept as four-way radix tries.
//!
//! `non_concurrent` holds the map for one owner. `concurrent` holds the
//! decisions that a traversal of a trie shared between threads takes at each
//! node, while it holds that node's lock. `non_recursive` holds an ordered map
//! over any totally ordered key. `key` reads keys as big-endian numbers and
//! measures the cyclic distance between them.
use vstd::prelude::*;

pub mod concurrent;
pub mod key;
pub mod nearest;
pub mod node;
pub mod non_concurrent;
pub mod non_recursive;
pub mod shape;

verus! {

/// Outcome of a conditional insert.
#[derive(Debug, Clone, Copy, PartialEq, Eq, Structural)]
pub enum InsertOrUpdateResult {
    Inserted,
    Updated,
    Neither,
}

/// A replacement rule that always lets the new value in.
#[allow(non_snake_case)]
pub fn ALWAYS_UPDATE<T>(_prior: &T, _next: &T) -> (replace: bool)
    ensures
        replace,
{
    true
}

/// A replacement rule that always keeps the value that is there.
#[allow(non_snake_case)]
pub fn NEVER_UPDATE<T>(_prior: &T, _next: &T) -> (replace: bool)
    ensures
        !replace,
{
    false
}

} // verus!
