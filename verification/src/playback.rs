//! Moving between the drills of the book: Prev and Next wrap around.
use vstd::prelude::*;

verus! {

/// The drill before `current` among `count` drills: the last one when at
/// the first (0 when there are none).
pub open spec fn prev_index(current: int, count: int) -> int {
    if current > 0 {
        current - 1
    } else if count > 0 {
        count - 1
    } else {
        0
    }
}

/// The drill after `current` among `count` drills: the first one when at
/// (or past) the last.
pub open spec fn next_index(current: int, count: int) -> int {
    if count > 0 && current < count - 1 {
        current + 1
    } else {
        0
    }
}

/// The drill before `current` among `count` drills (see `prev_index`).
pub fn previous_score(current: usize, count: usize) -> (prev: usize)
    ensures
        prev == prev_index(current as int, count as int),
{
    if current > 0 {
        current - 1
    } else {
        count.saturating_sub(1)
    }
}

/// The drill after `current` among `count` drills (see `next_index`).
pub fn next_score(current: usize, count: usize) -> (next: usize)
    ensures
        next == next_index(current as int, count as int),
{
    if current < count.saturating_sub(1) {
        current + 1
    } else {
        0
    }
}

/// Prev and Next keep the drill among the `count` drills, and undo each
/// other.
pub proof fn law_prev_next_inverse(current: int, count: int)
    requires
        0 <= current < count,
    ensures
        0 <= prev_index(current, count) < count,
        0 <= next_index(current, count) < count,
        next_index(prev_index(current, count), count) == current,
        prev_index(next_index(current, count), count) == current,
{
}

} // verus!
