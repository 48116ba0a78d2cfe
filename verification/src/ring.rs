//! Arithmetic on the circular id space.

use vstd::prelude::*;
use vstd::arithmetic::div_mod::*;

verus! {

/// Number of ids on the ring; ring ids are `0 .. RING_SIZE`.
pub const RING_SIZE: i64 = 32;

/// Half of the ring: the largest distance of a finger from its node.
pub const HALF_RING: i64 = 16;

/// Whether `id` lies on the clockwise arc that starts just after `lower` and
/// ends at `upper`, `upper` included. The arc wraps through 0 when
/// `lower > upper`, and covers the whole ring when `lower == upper`.
pub open spec fn on_arc(id: int, lower: int, upper: int) -> bool {
    ||| lower == upper
    ||| lower < upper && lower < id <= upper
    ||| lower > upper && (id > lower || id <= upper)
}

/// The id reached from `from` after `steps` clockwise steps on a ring of
/// `size` ids.
pub open spec fn clockwise(size: int, from: int, steps: int) -> int {
    (from + steps) % size
}

/// Number of clockwise steps from `lower` to `upper` on a ring of `size`
/// ids.
pub open spec fn arc_length(size: int, lower: int, upper: int) -> int {
    (upper - lower) % size
}

/// Whether a clockwise walk that leaves `lower` and stops on `upper` sets
/// foot on `id`.
pub open spec fn walk_reaches(size: int, id: int, lower: int, upper: int) -> bool {
    exists|steps: int|
        1 <= steps <= arc_length(size, lower, upper) && #[trigger] clockwise(size, lower, steps)
            == id
}

/// The ring id that an arbitrary integer stands for.
pub open spec fn ring_id(id: int) -> int {
    id % (RING_SIZE as int)
}

/// The containment test on which every ownership decision rests.
pub fn contains(id: i64, lower: i64, upper: i64) -> (inside: bool)
    ensures
        inside == on_arc(id as int, lower as int, upper as int),
{
    if lower == upper {
        true
    } else if lower < upper {
        lower < id && id <= upper
    } else {
        id > lower || id <= upper
    }
}

/// Brings any integer onto the ring.
pub fn normalize(id: i64) -> (r: i64)
    ensures
        r == ring_id(id as int),
        0 <= r < RING_SIZE,
{
    let m: i64 = id % RING_SIZE;
    if m < 0 {
        m + RING_SIZE
    } else {
        m
    }
}

proof fn lemma_clockwise_unwrapped(size: int, from: int, steps: int)
    requires
        0 <= from,
        0 <= steps,
        from + steps < size,
    ensures
        clockwise(size, from, steps) == from + steps,
{
    lemma_small_mod((from + steps) as nat, size as nat);
}

proof fn lemma_clockwise_wrapped(size: int, from: int, steps: int)
    requires
        0 <= from < size,
        0 <= steps,
        size <= from + steps < 2 * size,
    ensures
        clockwise(size, from, steps) == from + steps - size,
{
    lemma_small_mod((from + steps - size) as nat, size as nat);
    lemma_mod_add_multiples_vanish(from + steps - size, size);
}

proof fn lemma_arc_length(size: int, lower: int, upper: int)
    requires
        0 <= lower < size,
        0 <= upper < size,
    ensures
        lower <= upper ==> arc_length(size, lower, upper) == upper - lower,
        lower > upper ==> arc_length(size, lower, upper) == upper - lower + size,
{
    if lower <= upper {
        lemma_small_mod((upper - lower) as nat, size as nat);
    } else {
        lemma_small_mod((upper - lower + size) as nat, size as nat);
        lemma_mod_add_multiples_vanish(upper - lower, size);
    }
}

/// On a ring of any size, and for two distinct ends, the containment test
/// holds of exactly the ids that a clockwise walk from `lower` (left out) to
/// `upper` (counted in) passes through.
pub proof fn lemma_arc_is_walk(size: int, id: int, lower: int, upper: int)
    requires
        0 <= id < size,
        0 <= lower < size,
        0 <= upper < size,
        lower != upper,
    ensures
        on_arc(id, lower, upper) <==> walk_reaches(size, id, lower, upper),
{
    lemma_arc_length(size, lower, upper);
    let length = arc_length(size, lower, upper);
    if on_arc(id, lower, upper) {
        let steps = if id > lower {
            id - lower
        } else {
            id - lower + size
        };
        if id > lower {
            lemma_clockwise_unwrapped(size, lower, steps);
        } else {
            lemma_clockwise_wrapped(size, lower, steps);
        }
        assert(1 <= steps <= length && clockwise(size, lower, steps) == id);
    }
    if walk_reaches(size, id, lower, upper) {
        let steps = choose|steps: int|
            1 <= steps <= length && #[trigger] clockwise(size, lower, steps) == id;
        if lower + steps < size {
            lemma_clockwise_unwrapped(size, lower, steps);
        } else {
            lemma_clockwise_wrapped(size, lower, steps);
        }
    }
}

/// When both ends coincide the arc is the whole ring.
pub proof fn lemma_arc_of_one_node(id: int, node: int)
    ensures
        on_arc(id, node, node),
{
}

} // verus!
