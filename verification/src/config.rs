//! Build-time parameters of the index.

use vstd::prelude::*;

verus! {

/// Minimum fan-out parameter; a node holds up to `2 * DEGREE + 1` keys.
pub const DEGREE: usize = 2;

/// Default node capacity: the largest number of keys a node may hold at rest.
pub const MAX_KEYS: usize = 5;

/// Size of one page in bytes.
pub const PAGE_SIZE: usize = 1024;

/// Largest node capacity a tree may be opened with. A leaf that has just
/// overflowed holds one key more than the capacity and must still fit in a page.
pub const MAX_ORDER: usize = 30;

/// Number of pages a store may hold: as many as the machine can address,
/// so that the byte offset `index * PAGE_SIZE` past any page fits in a
/// `usize`.
pub const MAX_PAGES: usize = usize::MAX / PAGE_SIZE;

/// A counter one step on; it stays at the greatest value once it is there.
pub open spec fn bumped(n: usize) -> usize {
    if n < usize::MAX {
        (n + 1) as usize
    } else {
        n
    }
}

/// A counter one step on, stopping at the greatest value.
pub fn bump(n: usize) -> (r: usize)
    ensures
        r == bumped(n),
{
    if n < usize::MAX {
        n + 1
    } else {
        n
    }
}

} // verus!
