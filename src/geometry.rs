use vstd::prelude::*;

verus! {

/// Exponent of the chunk size: a chunk is `4^CHUNKPOWER` units wide.
pub const CHUNKPOWER: u32 = 8;

/// Edge length of a chunk, `4^CHUNKPOWER`.
pub const CHUNKSIZE: u32 = 65536;

/// Largest subdivision depth a chunk accepts, `2 * CHUNKPOWER`.
pub const MAX_DEPTH: u32 = 16;

/// A range `[low, high)` on one axis.
#[derive(Clone, Copy, Debug, PartialEq, Eq, Structural)]
pub struct Interval {
    pub low: u32,
    pub high: u32,
}

/// An axis-aligned box, one interval per axis.
#[derive(Clone, Copy, Debug, PartialEq, Eq, Structural)]
pub struct Region {
    pub x: Interval,
    pub y: Interval,
    pub z: Interval,
}

/// Edge length of a node at subdivision level `d` (the root is level 0).
pub open spec fn size_at(d: int) -> int
    decreases 16 - d,
{
    if d >= 16 {
        1
    } else {
        2 * size_at(d + 1)
    }
}

pub open spec fn interval_length_spec(a: int, b: int) -> int {
    if b >= a {
        b - a
    } else {
        0
    }
}

/// `inner` lies inside `outer`.
pub open spec fn contains_spec(inner_low: int, inner_high: int, outer_low: int, outer_high: int) -> bool {
    outer_low <= inner_low && inner_high <= outer_high
}

/// The half-open ranges share at least one integer.
pub open spec fn overlaps_spec(a_low: int, a_high: int, b_low: int, b_high: int) -> bool {
    &&& a_low < a_high
    &&& b_low < b_high
    &&& a_low < b_high
    &&& b_low < a_high
}

impl Interval {
    pub open spec fn contains_range(self, low: int, high: int) -> bool {
        contains_spec(low, high, self.low as int, self.high as int)
    }

    pub open spec fn overlaps_range(self, low: int, high: int) -> bool {
        overlaps_spec(self.low as int, self.high as int, low, high)
    }
}

impl Region {
    /// The cube with minimum corner `(x, y, z)` and edge `r` lies inside the region.
    pub open spec fn contains_cube(self, x: int, y: int, z: int, r: int) -> bool {
        &&& self.x.contains_range(x, x + r)
        &&& self.y.contains_range(y, y + r)
        &&& self.z.contains_range(z, z + r)
    }

    /// The cube with minimum corner `(x, y, z)` and edge `r` meets the region.
    pub open spec fn overlaps_cube(self, x: int, y: int, z: int, r: int) -> bool {
        &&& self.x.overlaps_range(x, x + r)
        &&& self.y.overlaps_range(y, y + r)
        &&& self.z.overlaps_range(z, z + r)
    }
}

pub proof fn lemma_size_at(d: int)
    requires
        0 <= d <= 16,
    ensures
        1 <= size_at(d) <= 65536,
        d < 16 ==> size_at(d) == 2 * size_at(d + 1),
    decreases d,
{
    lemma_size_at_positive(d);
    lemma_size_at_root();
    if d > 0 {
        lemma_size_at(d - 1);
    }
}

proof fn lemma_size_at_positive(d: int)
    requires
        0 <= d <= 16,
    ensures
        1 <= size_at(d),
    decreases 16 - d,
{
    if d < 16 {
        lemma_size_at_positive(d + 1);
    }
}

pub proof fn lemma_size_at_root()
    ensures
        size_at(0) == 65536,
{
    reveal_with_fuel(size_at, 17);
}

/// Length of the interval, `max(0, high - low)`.
pub fn interval_length(a: Interval) -> (r: u32)
    ensures
        r == interval_length_spec(a.low as int, a.high as int),
{
    if a.high >= a.low {
        a.high - a.low
    } else {
        0
    }
}

/// Whether `inner` lies completely inside `outer`.
pub fn interval_contains(inner: Interval, outer: Interval) -> (r: bool)
    ensures
        r == contains_spec(inner.low as int, inner.high as int, outer.low as int, outer.high as int),
{
    outer.low <= inner.low && inner.high <= outer.high
}

/// Whether the two half-open intervals share an integer.
pub fn interval_overlaps(a: Interval, b: Interval) -> (r: bool)
    ensures
        r == overlaps_spec(a.low as int, a.high as int, b.low as int, b.high as int),
{
    a.low < a.high && b.low < b.high && a.low < b.high && b.low < a.high
}

} // verus!
