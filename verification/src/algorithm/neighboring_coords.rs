//! An iterator-style cursor over the neighbors of a coordinate, in the
//! fixed scan order, skipping neighbors that would fall off the grid's
//! negative side.

use crate::algorithm::encode::offsets;
use vstd::prelude::*;

verus! {

/// The four edge-adjacent offsets, in scan order.
pub open spec fn plus_offsets() -> Seq<(int, int)> {
    seq![(0, -1), (-1, 0), (1, 0), (0, 1)]
}

/// The offset table a cursor walks: the four edge-adjacent neighbors, or
/// all eight neighbors.
pub open spec fn nc_offsets(all: bool) -> Seq<(int, int)> {
    if all {
        offsets()
    } else {
        plus_offsets()
    }
}

/// Whether table entry `k` yields a neighbor with non-negative coordinates.
pub open spec fn nc_ok(origin: (u16, u16), all: bool, k: int) -> bool {
    origin.0 + nc_offsets(all)[k].0 >= 0 && origin.1 + nc_offsets(all)[k].1 >= 0
}

/// The first table position at `k` or later whose neighbor has
/// non-negative coordinates.
pub open spec fn nc_first_ok(origin: (u16, u16), all: bool, k: int) -> Option<int>
    decreases nc_offsets(all).len() - k,
{
    if k < 0 || k >= nc_offsets(all).len() {
        Option::None
    } else if nc_ok(origin, all, k) {
        Option::Some(k)
    } else {
        nc_first_ok(origin, all, k + 1)
    }
}

/// A cursor over the neighbors of `origin`.
pub struct NeighboringCoords {
    pub origin: (u16, u16),
    pub index: usize,
    pub all: bool,
}

impl NeighboringCoords {
    /// A cursor over the four edge-adjacent neighbors.
    pub fn neighbors(origin: (u16, u16)) -> (r: Self)
        ensures
            r.origin == origin,
            r.index == 0,
            !r.all,
    {
        NeighboringCoords { origin, index: 0, all: false }
    }

    /// A cursor over all eight neighbors.
    pub fn all_neighbors(origin: (u16, u16)) -> (r: Self)
        ensures
            r.origin == origin,
            r.index == 0,
            r.all,
    {
        NeighboringCoords { origin, index: 0, all: true }
    }

    /// The next neighbor with non-negative coordinates, advancing the
    /// cursor past it; `None` once the table is exhausted.
    pub fn next(&mut self) -> (r: Option<(u16, u16)>)
        ensures
            final(self).origin == old(self).origin,
            final(self).all == old(self).all,
            match nc_first_ok(old(self).origin, old(self).all, old(self).index as int) {
                Option::None => {
                    &&& r is None
                    &&& final(self).index as int == vstd::math::max(
                        old(self).index as int,
                        nc_offsets(old(self).all).len() as int,
                    )
                },
                Option::Some(k) => {
                    &&& final(self).index == k + 1
                    &&& r == Option::Some(
                        (
                            (old(self).origin.0 + nc_offsets(old(self).all)[k].0) as u16,
                            (old(self).origin.1 + nc_offsets(old(self).all)[k].1) as u16,
                        ),
                    )
                },
            },
    {
        let (origin_x, origin_y) = self.origin;
        let n: usize = if self.all {
            8
        } else {
            4
        };
        if self.index >= n {
            return None;
        }
        while self.index < n
            invariant
                self.origin == old(self).origin,
                self.all == old(self).all,
                old(self).index <= self.index <= n,
                n == nc_offsets(self.all).len(),
                nc_first_ok(old(self).origin, old(self).all, old(self).index as int)
                    == nc_first_ok(self.origin, self.all, self.index as int),
                origin_x == self.origin.0,
                origin_y == self.origin.1,
            decreases n - self.index,
        {
            let k = self.index;
            let (dx, dy): (i32, i32) = if self.all {
                nc_offset_at8(k)
            } else {
                nc_offset_at4(k)
            };
            self.index = k + 1;
            let nx: i32 = origin_x as i32 + dx;
            let ny: i32 = origin_y as i32 + dy;
            if nx >= 0 && ny >= 0 {
                proof {
                    assert(nc_ok(old(self).origin, self.all, k as int));
                    assert(nc_first_ok(self.origin, self.all, k as int) == Option::Some(k as int));
                }
                return Some((nx as u16, ny as u16));
            }
            proof {
                assert(!nc_ok(old(self).origin, self.all, k as int));
            }
        }
        None
    }
}

/// Entry `k` of the eight-neighbor table.
fn nc_offset_at8(k: usize) -> (r: (i32, i32))
    requires
        k < 8,
    ensures
        (r.0 as int, r.1 as int) == offsets()[k as int],
{
    if k == 0 {
        (-1, -1)
    } else if k == 1 {
        (0, -1)
    } else if k == 2 {
        (1, -1)
    } else if k == 3 {
        (-1, 0)
    } else if k == 4 {
        (1, 0)
    } else if k == 5 {
        (-1, 1)
    } else if k == 6 {
        (0, 1)
    } else {
        (1, 1)
    }
}

/// Entry `k` of the four-neighbor table.
fn nc_offset_at4(k: usize) -> (r: (i32, i32))
    requires
        k < 4,
    ensures
        (r.0 as int, r.1 as int) == plus_offsets()[k as int],
{
    if k == 0 {
        (0, -1)
    } else if k == 1 {
        (-1, 0)
    } else if k == 2 {
        (1, 0)
    } else {
        (0, 1)
    }
}

} // verus!
