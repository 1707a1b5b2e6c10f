//! The reservation halo that keeps wires away from the faces of a macro.

use vstd::prelude::*;

use crate::backend::space::Space;
use crate::backend::Pos;

verus! {

/// `a - b`, or 0 where that would be negative.
pub open spec fn minus(a: usize, b: usize) -> usize {
    if a >= b {
        (a - b) as usize
    } else {
        0
    }
}

/// Whether `q` lies in the row above or in the row below the rectangle of
/// `size` at `pos`, within `reach` cells to its left and right. A rectangle
/// in row 0 has no row above it.
pub open spec fn in_halo_rows(pos: Pos, size: (usize, usize, usize), reach: usize, q: Pos) -> bool {
    &&& q.2 == pos.2
    &&& minus(pos.0, reach) <= q.0 < pos.0 + size.0 + reach
    &&& (pos.1 >= 1 && q.1 == pos.1 - 1) || q.1 == pos.1 + size.1
}

/// Whether `q` lies in the column `reach` cells left of the rectangle or in
/// the column `reach` cells past its right edge, from two rows above it to
/// its last row, on the rectangle's layer or the one above.
pub open spec fn in_halo_columns(pos: Pos, size: (usize, usize, usize), reach: usize, q: Pos) -> bool {
    &&& q.2 == pos.2 || q.2 == pos.2 + 1
    &&& minus(pos.1, 2) <= q.1 < pos.1 + size.1 + 1
    &&& q.0 == minus(pos.0, reach) || q.0 == pos.0 + size.0 + reach
}

/// Whether `q` belongs to the halo of the rectangle of `size` at `pos`.
pub open spec fn in_halo(pos: Pos, size: (usize, usize, usize), reach: usize, q: Pos) -> bool {
    in_halo_rows(pos, size, reach, q) || in_halo_columns(pos, size, reach, q)
}

/// Reserves every address from `(from, y, z)` to just before `(to, y, z)`.
fn reserve_row(space: &mut Space, from: usize, to: usize, y: usize, z: usize)
    requires
        to < usize::MAX,
        y < usize::MAX,
        z < usize::MAX,
    ensures
        forall|q: Pos|
            final(space).at(q) == if q.2 == z && q.1 == y && from <= q.0 < to {
                old(space).at(q).reserved()
            } else {
                old(space).at(q)
            },
{
    let mut x: usize = from;
    while x < to
        invariant
            to < usize::MAX,
            y < usize::MAX,
            z < usize::MAX,
            from <= x,
            forall|q: Pos|
                space.at(q) == if q.2 == z && q.1 == y && from <= q.0 < x && q.0 < to {
                    old(space).at(q).reserved()
                } else {
                    old(space).at(q)
                },
        decreases to - x,
    {
        let cell = space.get((x, y, z)).reserve();
        space.write((x, y, z), cell);
        x += 1;
    }
}

/// Reserves every address from `(x, from, z)` to just before `(x, to, z)`.
fn reserve_column(space: &mut Space, x: usize, from: usize, to: usize, z: usize)
    requires
        x < usize::MAX,
        to < usize::MAX,
        z < usize::MAX,
    ensures
        forall|q: Pos|
            final(space).at(q) == if q.2 == z && q.0 == x && from <= q.1 < to {
                old(space).at(q).reserved()
            } else {
                old(space).at(q)
            },
{
    let mut y: usize = from;
    while y < to
        invariant
            x < usize::MAX,
            to < usize::MAX,
            z < usize::MAX,
            from <= y,
            forall|q: Pos|
                space.at(q) == if q.2 == z && q.0 == x && from <= q.1 < y && q.1 < to {
                    old(space).at(q).reserved()
                } else {
                    old(space).at(q)
                },
        decreases to - y,
    {
        let cell = space.get((x, y, z)).reserve();
        space.write((x, y, z), cell);
        y += 1;
    }
}

/// Paints the halo of the rectangle of `size` at `pos`: every empty cell of
/// it becomes reserved. Cells that hold a block stay as they are, and so
/// does every cell outside the halo.
pub fn reserve_around(
    space: &mut Space,
    pos: Pos,
    size: (usize, usize, usize),
    reserve_size: usize,
)
    requires
        pos.0 + size.0 + reserve_size < usize::MAX,
        pos.1 + size.1 + 1 < usize::MAX,
        pos.2 + 1 < usize::MAX,
    ensures
        forall|q: Pos|
            final(space).at(q) == if in_halo(pos, size, reserve_size, q) {
                old(space).at(q).reserved()
            } else {
                old(space).at(q)
            },
{
    let (x, y, z) = pos;
    let (width, depth, _) = size;
    let left = if x >= reserve_size {
        x - reserve_size
    } else {
        0
    };
    let right = x + width + reserve_size;
    let top = if y >= 2 {
        y - 2
    } else {
        0
    };
    let bottom = y + depth + 1;
    if y >= 1 {
        reserve_row(space, left, right, y - 1, z);
    }
    reserve_row(space, left, right, y + depth, z);
    reserve_column(space, left, top, bottom, z);
    reserve_column(space, right, top, bottom, z);
    reserve_column(space, left, top, bottom, z + 1);
    reserve_column(space, right, top, bottom, z + 1);
}

} // verus!
