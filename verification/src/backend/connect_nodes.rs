//! Routing: for every edge of the graph a wire from the port it leaves to
//! the port it arrives at, found by search through the free cells of the
//! grid.

use vstd::prelude::*;

use crate::backend::astar::{
    consistent, consistent_as, covers, expandable, expansions, fair, in_range, is_priced_route,
    is_route, lemma_priced_is_route, lemma_total_split, offered, offers, offers_at, reached_at,
    scored, search, steps_route, total, SearchError, MAX_STEP_COST,
};
use crate::backend::space::Space;
use crate::backend::{
    above, substrates_hold, PlacedNode, PlacedNodeData, Pos, SpaceBlock, SpaceCell, RESERVE_SPACE,
};
use crate::graph::normalized::{Edge, Graph};

verus! {

/// How many addresses one search may expand before it gives up.
pub const SEARCH_LIMIT: u32 = 0x0010_0000;

/// Why an edge could not be routed.
#[derive(Debug, Clone, Copy, PartialEq, Eq, Structural)]
pub enum RouteError {
    /// The edge names a node that was not placed.
    UnknownNode,
    /// The edge names a port that its node does not have.
    PortOutOfRange,
    /// A port lies too close to the border of the grid for a wire to reach
    /// it.
    OutOfGrid,
    /// No route leads from the source to the destination.
    Unreachable,
    /// The search gave up after `SEARCH_LIMIT` expansions: every route is
    /// beyond what one search covers.
    StepLimit,
}

/// Whether a wire can lie at `p`: the grid must have room for the cells
/// next to it and above it.
pub open spec fn routable(p: Pos) -> bool {
    p.0 + 1 < usize::MAX && p.1 + 1 < usize::MAX && p.2 + 1 < usize::MAX
}

/// The address directly below `pos` in storage order; `pos` must not lie in
/// layer 0.
pub open spec fn below(pos: Pos) -> Pos {
    (pos.0, pos.1, (pos.2 - 1) as usize)
}

/// `pos` moved by `d`, where that is an address at which a wire can lie.
pub open spec fn shifted(pos: Pos, d: (int, int, int)) -> Option<Pos> {
    let (x, y, z) = (pos.0 + d.0, pos.1 + d.1, pos.2 + d.2);
    if 0 <= x && x + 1 < usize::MAX && 0 <= y && y + 1 < usize::MAX && 0 <= z && z + 1
        < usize::MAX {
        Some((x as usize, y as usize, z as usize))
    } else {
        None
    }
}

/// The move by `d` from `pos` at `cost`, if there is one: the target must be
/// an address at which a wire can lie, and a move to the layer below in
/// storage order needs the cell directly below `pos` to be empty.
pub open spec fn candidate(
    grid: spec_fn(Pos) -> SpaceCell,
    pos: Pos,
    d: (int, int, int),
    cost: i64,
) -> Seq<(Pos, i64)> {
    match shifted(pos, d) {
        Some(target) => if d.2 < 0 && !(grid(below(pos)) is Empty) {
            Seq::empty()
        } else {
            seq![(target, cost)]
        },
        None => Seq::empty(),
    }
}

/// Every move from `pos`, admissible or not: the four moves in the plane at
/// cost 1, then the same four one layer up in storage order at cost 2, then
/// the same four one layer down at cost 2.
#[verifier::opaque]
pub open spec fn base_moves(grid: spec_fn(Pos) -> SpaceCell, pos: Pos) -> Seq<(Pos, i64)> {
    candidate(grid, pos, (1, 0, 0), 1) + candidate(grid, pos, (-1, 0, 0), 1) + candidate(
        grid,
        pos,
        (0, 1, 0),
        1,
    ) + candidate(grid, pos, (0, -1, 0), 1) + candidate(grid, pos, (1, 0, 1), 2) + candidate(
        grid,
        pos,
        (-1, 0, 1),
        2,
    ) + candidate(grid, pos, (0, 1, 1), 2) + candidate(grid, pos, (0, -1, 1), 2) + candidate(
        grid,
        pos,
        (1, 0, -1),
        2,
    ) + candidate(grid, pos, (-1, 0, -1), 2) + candidate(grid, pos, (0, 1, -1), 2) + candidate(
        grid,
        pos,
        (0, -1, -1),
        2,
    )
}

/// Whether a wire may be laid at `c`: the cell and the cell above it for
/// the substrate must be empty, and the cell below it empty or reserved.
pub open spec fn admissible(grid: spec_fn(Pos) -> SpaceCell, c: Pos) -> bool {
    &&& grid(c) is Empty
    &&& grid(above(c)) is Empty
    &&& c.2 >= 1
    &&& grid(below(c)) is Empty || grid(below(c)) is Reserved
}

/// Index of the first move of `moves` that leads to `dest`; `moves.len()`
/// when there is none.
pub open spec fn move_to(moves: Seq<(Pos, i64)>, dest: Pos) -> int
    decreases moves.len(),
{
    if moves.len() == 0 {
        0
    } else if moves[0].0 == dest {
        0
    } else {
        1 + move_to(moves.drop_first(), dest)
    }
}

/// The neighbours of `pos` for a wire that is headed for `dest`: the move
/// to `dest` alone where there is one, whatever `dest` holds; otherwise the
/// admissible moves.
pub open spec fn wire_moves(grid: spec_fn(Pos) -> SpaceCell, pos: Pos, dest: Pos) -> Seq<
    (Pos, i64),
> {
    let base = base_moves(grid, pos);
    let at = move_to(base, dest);
    if at < base.len() {
        seq![base[at]]
    } else {
        base.filter(|c: (Pos, i64)| admissible(grid, c.0))
    }
}

/// Whether `route` leads from `start` to `dest` by wire moves.
pub open spec fn wire_route(
    grid: spec_fn(Pos) -> SpaceCell,
    start: Pos,
    dest: Pos,
    route: Seq<Pos>,
) -> bool {
    &&& route.len() >= 1
    &&& route[0] == start
    &&& route[route.len() - 1] == dest
    &&& forall|i: int|
        0 <= i < route.len() - 1 ==> exists|k: int|
            0 <= k < wire_moves(grid, #[trigger] route[i], dest).len() && (#[trigger] wire_moves(
                grid,
                route[i],
                dest,
            )[k]).0 == route[i + 1]
}

/// The distance between `a` and `b` along the three axes, added up.
pub open spec fn l1(a: Pos, b: Pos) -> int {
    (if a.0 >= b.0 {
        a.0 - b.0
    } else {
        b.0 - a.0
    }) + (if a.1 >= b.1 {
        a.1 - b.1
    } else {
        b.1 - a.1
    }) + (if a.2 >= b.2 {
        a.2 - b.2
    } else {
        b.2 - a.2
    })
}

/// The distance between `a` and `b` along the three axes, added up; where
/// that does not fit, the largest number that does.
pub open spec fn distance(a: Pos, b: Pos) -> int {
    if l1(a, b) <= i64::MAX {
        l1(a, b)
    } else {
        i64::MAX as int
    }
}

/// The distance between `a` and `b` along the three axes, added up; where
/// that does not fit, the largest number that does.
pub fn manhattan(a: Pos, b: Pos) -> (d: i64)
    ensures
        d == distance(a, b),
{
    let dx: u128 = if a.0 >= b.0 {
        (a.0 - b.0) as u128
    } else {
        (b.0 - a.0) as u128
    };
    let dy: u128 = if a.1 >= b.1 {
        (a.1 - b.1) as u128
    } else {
        (b.1 - a.1) as u128
    };
    let dz: u128 = if a.2 >= b.2 {
        (a.2 - b.2) as u128
    } else {
        (b.2 - a.2) as u128
    };
    let sum: u128 = dx + dy + dz;
    if sum > 0x7fff_ffff_ffff_ffff {
        i64::MAX
    } else {
        sum as i64
    }
}

/// Where a move leads along one axis: `at` moved by `by`, which is -1, 0 or
/// 1, if a wire can lie there.
fn slide(at: usize, by: i8) -> (moved: Option<usize>)
    requires
        -1 <= by <= 1,
    ensures
        moved == if 0 <= at + by && at + by + 1 < usize::MAX {
            Some((at + by) as usize)
        } else {
            None::<usize>
        },
{
    if by == 1 {
        if at < usize::MAX - 2 {
            Some(at + 1)
        } else {
            None
        }
    } else if by == 0 {
        if at < usize::MAX - 1 {
            Some(at)
        } else {
            None
        }
    } else {
        if at >= 1 && at < usize::MAX {
            Some(at - 1)
        } else {
            None
        }
    }
}

/// Appends to `out` the move by `(dx, dy, dz)` from `pos`, if there is one.
fn offer(out: &mut Vec<(Pos, i64)>, s: &Space, pos: Pos, dx: i8, dy: i8, dz: i8, cost: i64)
    requires
        -1 <= dx <= 1,
        -1 <= dy <= 1,
        -1 <= dz <= 1,
    ensures
        final(out)@ == old(out)@ + candidate(s.grid(), pos, (dx as int, dy as int, dz as int), cost),
{
    let ghost before = out@;
    if let Some(x) = slide(pos.0, dx) {
        if let Some(y) = slide(pos.1, dy) {
            if let Some(z) = slide(pos.2, dz) {
                if dz < 0 {
                    match s.get((pos.0, pos.1, pos.2 - 1)) {
                        SpaceCell::Empty => {
                            out.push(((x, y, z), cost));
                        },
                        _ => {},
                    }
                } else {
                    out.push(((x, y, z), cost));
                }
            }
        }
    }
    proof {
        assert(out@ =~= before + candidate(
            s.grid(),
            pos,
            (dx as int, dy as int, dz as int),
            cost,
        ));
    }
}

/// Every move from `pos`, admissible or not.
pub fn base_neighbours(s: &Space, pos: Pos) -> (moves: Vec<(Pos, i64)>)
    ensures
        moves@ == base_moves(s.grid(), pos),
{
    let mut moves: Vec<(Pos, i64)> = Vec::new();
    proof {
        assert(moves@ =~= Seq::<(Pos, i64)>::empty());
    }
    offer(&mut moves, s, pos, 1, 0, 0, 1);
    offer(&mut moves, s, pos, -1, 0, 0, 1);
    offer(&mut moves, s, pos, 0, 1, 0, 1);
    offer(&mut moves, s, pos, 0, -1, 0, 1);
    offer(&mut moves, s, pos, 1, 0, 1, 2);
    offer(&mut moves, s, pos, -1, 0, 1, 2);
    offer(&mut moves, s, pos, 0, 1, 1, 2);
    offer(&mut moves, s, pos, 0, -1, 1, 2);
    offer(&mut moves, s, pos, 1, 0, -1, 2);
    offer(&mut moves, s, pos, -1, 0, -1, 2);
    offer(&mut moves, s, pos, 0, 1, -1, 2);
    offer(&mut moves, s, pos, 0, -1, -1, 2);
    proof {
        reveal(base_moves);
        assert(moves@ =~= base_moves(s.grid(), pos));
    }
    moves
}

/// Whether every move of `moves` leads to an address at which a wire can
/// lie and costs 1 or 2.
pub open spec fn sound_moves(moves: Seq<(Pos, i64)>) -> bool {
    forall|k: int|
        0 <= k < moves.len() ==> routable((#[trigger] moves[k]).0) && 1 <= moves[k].1 <= 2
}

/// A single candidate at cost 1 or 2 is sound.
proof fn lemma_candidate(grid: spec_fn(Pos) -> SpaceCell, pos: Pos, d: (int, int, int), cost: i64)
    requires
        1 <= cost <= 2,
    ensures
        sound_moves(candidate(grid, pos, d, cost)),
{
}

/// Sound moves joined to sound moves are sound.
proof fn lemma_join(a: Seq<(Pos, i64)>, b: Seq<(Pos, i64)>)
    requires
        sound_moves(a),
        sound_moves(b),
    ensures
        sound_moves(a + b),
{
    assert forall|k: int| 0 <= k < (a + b).len() implies routable((#[trigger] (a + b)[k]).0) && 1
        <= (a + b)[k].1 <= 2 by {
        if k < a.len() {
            assert((a + b)[k] == a[k]);
        } else {
            assert((a + b)[k] == b[k - a.len()]);
        }
    }
}

/// Every move of `base_moves` leads to an address at which a wire can lie
/// and costs 1 or 2.
pub proof fn lemma_base_moves(grid: spec_fn(Pos) -> SpaceCell, pos: Pos, k: int)
    requires
        0 <= k < base_moves(grid, pos).len(),
    ensures
        routable(base_moves(grid, pos)[k].0),
        1 <= base_moves(grid, pos)[k].1 <= 2,
{
    let c0 = candidate(grid, pos, (1, 0, 0), 1);
    let c1 = candidate(grid, pos, (-1, 0, 0), 1);
    let c2 = candidate(grid, pos, (0, 1, 0), 1);
    let c3 = candidate(grid, pos, (0, -1, 0), 1);
    let c4 = candidate(grid, pos, (1, 0, 1), 2);
    let c5 = candidate(grid, pos, (-1, 0, 1), 2);
    let c6 = candidate(grid, pos, (0, 1, 1), 2);
    let c7 = candidate(grid, pos, (0, -1, 1), 2);
    let c8 = candidate(grid, pos, (1, 0, -1), 2);
    let c9 = candidate(grid, pos, (-1, 0, -1), 2);
    let c10 = candidate(grid, pos, (0, 1, -1), 2);
    let c11 = candidate(grid, pos, (0, -1, -1), 2);
    lemma_candidate(grid, pos, (1, 0, 0), 1);
    lemma_candidate(grid, pos, (-1, 0, 0), 1);
    lemma_candidate(grid, pos, (0, 1, 0), 1);
    lemma_candidate(grid, pos, (0, -1, 0), 1);
    lemma_candidate(grid, pos, (1, 0, 1), 2);
    lemma_candidate(grid, pos, (-1, 0, 1), 2);
    lemma_candidate(grid, pos, (0, 1, 1), 2);
    lemma_candidate(grid, pos, (0, -1, 1), 2);
    lemma_candidate(grid, pos, (1, 0, -1), 2);
    lemma_candidate(grid, pos, (-1, 0, -1), 2);
    lemma_candidate(grid, pos, (0, 1, -1), 2);
    lemma_candidate(grid, pos, (0, -1, -1), 2);
    lemma_join(c0, c1);
    lemma_join(c0 + c1, c2);
    lemma_join(c0 + c1 + c2, c3);
    lemma_join(c0 + c1 + c2 + c3, c4);
    lemma_join(c0 + c1 + c2 + c3 + c4, c5);
    lemma_join(c0 + c1 + c2 + c3 + c4 + c5, c6);
    lemma_join(c0 + c1 + c2 + c3 + c4 + c5 + c6, c7);
    lemma_join(c0 + c1 + c2 + c3 + c4 + c5 + c6 + c7, c8);
    lemma_join(c0 + c1 + c2 + c3 + c4 + c5 + c6 + c7 + c8, c9);
    lemma_join(c0 + c1 + c2 + c3 + c4 + c5 + c6 + c7 + c8 + c9, c10);
    lemma_join(c0 + c1 + c2 + c3 + c4 + c5 + c6 + c7 + c8 + c9 + c10, c11);
    reveal(base_moves);
    assert(base_moves(grid, pos) == c0 + c1 + c2 + c3 + c4 + c5 + c6 + c7 + c8 + c9 + c10 + c11);
}

/// `move_to` is the least index whose move leads to `dest`.
pub proof fn lemma_move_to(moves: Seq<(Pos, i64)>, dest: Pos)
    ensures
        0 <= move_to(moves, dest) <= moves.len(),
        move_to(moves, dest) < moves.len() ==> moves[move_to(moves, dest)].0 == dest,
        forall|j: int| 0 <= j < move_to(moves, dest) ==> (#[trigger] moves[j]).0 != dest,
    decreases moves.len(),
{
    if moves.len() > 0 && moves[0].0 != dest {
        let rest = moves.drop_first();
        lemma_move_to(rest, dest);
        assert forall|j: int| 0 <= j < move_to(moves, dest) implies (#[trigger] moves[j]).0
            != dest by {
            if j > 0 {
                assert(rest[j - 1] == moves[j]);
            }
        }
    }
}

/// Every wire move leads to an address at which a wire can lie and costs 1
/// or 2.
pub proof fn lemma_wire_moves(grid: spec_fn(Pos) -> SpaceCell, pos: Pos, dest: Pos, k: int)
    requires
        0 <= k < wire_moves(grid, pos, dest).len(),
    ensures
        routable(wire_moves(grid, pos, dest)[k].0),
        1 <= wire_moves(grid, pos, dest)[k].1 <= 2,
{
    let base = base_moves(grid, pos);
    lemma_move_to(base, dest);
    let at = move_to(base, dest);
    if at < base.len() {
        lemma_base_moves(grid, pos, at);
    } else {
        let keep = |c: (Pos, i64)| admissible(grid, c.0);
        let kept = base.filter(keep);
        broadcast use vstd::seq_lib::group_filter_ensures;

        assert(kept.contains(kept[k]));
        base.lemma_filter_contains_rev(keep, kept[k]);
        let j = choose|j: int| 0 <= j < base.len() && base[j] == kept[k];
        lemma_base_moves(grid, pos, j);
    }
}

/// The neighbours of `pos` for a wire that is headed for `dest`.
pub fn neighbours(s: &Space, pos: Pos, dest: Pos) -> (moves: Vec<(Pos, i64)>)
    ensures
        moves@ == wire_moves(s.grid(), pos, dest),
{
    let base = base_neighbours(s, pos);
    let ghost grid = s.grid();
    let mut i: usize = 0;
    proof {
        lemma_move_to(base@, dest);
    }
    while i < base.len()
        invariant
            0 <= i <= base.len(),
            base@ == base_moves(s.grid(), pos),
            i <= move_to(base@, dest) <= base@.len(),
            move_to(base@, dest) < base@.len() ==> base@[move_to(base@, dest)].0 == dest,
        decreases base.len() - i,
    {
        let (p, cost) = base[i];
        if p.0 == dest.0 && p.1 == dest.1 && p.2 == dest.2 {
            let mut only: Vec<(Pos, i64)> = Vec::new();
            only.push((p, cost));
            proof {
                lemma_move_to(base@, dest);
                assert(base@[i as int].0 == dest);
                assert(move_to(base@, dest) == i);
                assert(only@ =~= seq![base@[i as int]]);
            }
            return only;
        }
        i += 1;
    }
    let mut moves: Vec<(Pos, i64)> = Vec::new();
    let ghost keep = |c: (Pos, i64)| admissible(grid, c.0);
    let mut k: usize = 0;
    proof {
        lemma_move_to(base@, dest);
        assert(base@.take(0).filter(keep) =~= Seq::<(Pos, i64)>::empty()) by {
            reveal(Seq::filter);
        }
    }
    while k < base.len()
        invariant
            0 <= k <= base.len(),
            grid == s.grid(),
            keep == (|c: (Pos, i64)| admissible(grid, c.0)),
            base@ == base_moves(grid, pos),
            moves@ == base@.take(k as int).filter(keep),
        decreases base.len() - k,
    {
        let (c, cost) = base[k];
        proof {
            assert(base@.take(k + 1).drop_last() =~= base@.take(k as int));
            reveal(Seq::filter);
            lemma_base_moves(grid, pos, k as int);
        }
        let free = match s.get(c) {
            SpaceCell::Empty => true,
            _ => false,
        };
        let room = match s.get((c.0, c.1, c.2 + 1)) {
            SpaceCell::Empty => true,
            _ => false,
        };
        let floor = if c.2 >= 1 {
            match s.get((c.0, c.1, c.2 - 1)) {
                SpaceCell::Empty => true,
                SpaceCell::Reserved => true,
                _ => false,
            }
        } else {
            false
        };
        if free && room && floor {
            moves.push((c, cost));
        }
        k += 1;
    }
    proof {
        assert(base@.take(k as int) =~= base@);
    }
    moves
}

/// Whether `q` lies next to `pos` in the plane, on the layer of `pos` or
/// on one of the two layers next to it.
pub open spec fn beside(pos: Pos, q: Pos) -> bool {
    &&& (q.1 == pos.1 && (q.0 == pos.0 + 1 || q.0 + 1 == pos.0)) || (q.0 == pos.0 && (q.1 == pos.1
        + 1 || q.1 + 1 == pos.1))
    &&& q.2 == pos.2 || q.2 == pos.2 + 1 || q.2 + 1 == pos.2
}

/// What address `q` holds once a wire is laid at `pos`, where it held
/// `before`: the wire at `pos`, its substrate above `pos`, and a
/// reservation painted over the cells beside it.
pub open spec fn wire_cell(before: SpaceCell, pos: Pos, q: Pos) -> SpaceCell {
    if q == pos {
        SpaceCell::Used(SpaceBlock::Redstone)
    } else if q == above(pos) {
        SpaceCell::Used(SpaceBlock::SolidBlock)
    } else if beside(pos, q) {
        before.reserved()
    } else {
        before
    }
}

/// What address `q` holds once a wire is laid along `path`, first address
/// to last, where it held `before`.
pub open spec fn wired(path: Seq<Pos>, before: SpaceCell, q: Pos) -> SpaceCell
    decreases path.len(),
{
    if path.len() == 0 {
        before
    } else {
        wire_cell(wired(path.drop_last(), before, q), path.last(), q)
    }
}

/// Paints a reservation over the cell at `q`.
fn reserve_at(s: &mut Space, q: Pos)
    requires
        q.0 < usize::MAX,
        q.1 < usize::MAX,
        q.2 < usize::MAX,
    ensures
        final(s).at(q) == old(s).at(q).reserved(),
        forall|p: Pos| p != q ==> final(s).at(p) == old(s).at(p),
{
    let cell = s.get(q).reserve();
    s.write(q, cell);
}

/// Paints a reservation over the cell at `(x, y)` on the layer `z` and on
/// the two layers next to it.
fn reserve_stack(s: &mut Space, x: usize, y: usize, z: usize)
    requires
        x < usize::MAX,
        y < usize::MAX,
        z + 1 < usize::MAX,
    ensures
        forall|q: Pos|
            final(s).at(q) == if q.0 == x && q.1 == y && (q.2 == z || q.2 == z + 1 || q.2 + 1
                == z) {
                old(s).at(q).reserved()
            } else {
                old(s).at(q)
            },
{
    reserve_at(s, (x, y, z));
    reserve_at(s, (x, y, z + 1));
    if z >= 1 {
        reserve_at(s, (x, y, z - 1));
    }
}

/// Lays a wire at `pos`.
fn place_wire(s: &mut Space, pos: Pos)
    requires
        routable(pos),
    ensures
        forall|q: Pos| final(s).at(q) == wire_cell(old(s).at(q), pos, q),
{
    let (x, y, z) = pos;
    reserve_stack(s, x + 1, y, z);
    if x >= 1 {
        reserve_stack(s, x - 1, y, z);
    }
    reserve_stack(s, x, y + 1, z);
    if y >= 1 {
        reserve_stack(s, x, y - 1, z);
    }
    s.write(pos, SpaceCell::Used(SpaceBlock::Redstone));
    s.write((x, y, z + 1), SpaceCell::Used(SpaceBlock::SolidBlock));
}

/// Lays a wire along `path`, first address to last.
pub fn place_path(s: &mut Space, path: Vec<Pos>)
    requires
        forall|i: int| 0 <= i < path@.len() ==> routable(#[trigger] path@[i]),
    ensures
        forall|q: Pos| final(s).at(q) == wired(path@, old(s).at(q), q),
{
    let mut i: usize = 0;
    while i < path.len()
        invariant
            0 <= i <= path.len(),
            forall|k: int| 0 <= k < path@.len() ==> routable(#[trigger] path@[k]),
            forall|q: Pos| s.at(q) == wired(path@.take(i as int), old(s).at(q), q),
        decreases path.len() - i,
    {
        proof {
            assert(path@.take(i + 1).drop_last() =~= path@.take(i as int));
            assert(path@.take(i + 1).last() == path@[i as int]);
        }
        place_wire(s, path[i]);
        i += 1;
    }
    proof {
        assert(path@.take(i as int) =~= path@);
    }
}

/// Whether no address of `path` lies directly above another address of
/// `path`, so that no wire of the path takes the place of a substrate block
/// of the path.
pub open spec fn no_stacking(path: Seq<Pos>) -> bool {
    forall|i: int, j: int|
        0 <= i < path.len() && 0 <= j < path.len() ==> #[trigger] path[j] != above(
            #[trigger] path[i],
        )
}

/// Once a wire is laid along a path that does not stack, every address of
/// the path holds a wire and the address above it holds a solid block,
/// whatever either held before.
pub proof fn lemma_wire_has_substrate(path: Seq<Pos>, i: int, before: SpaceCell, over: SpaceCell)
    requires
        0 <= i < path.len(),
        no_stacking(path),
        forall|k: int| 0 <= k < path.len() ==> routable(#[trigger] path[k]),
    ensures
        wired(path, before, path[i]) == SpaceCell::Used(SpaceBlock::Redstone),
        wired(path, over, above(path[i])) == SpaceCell::Used(SpaceBlock::SolidBlock),
    decreases path.len(),
{
    let rest = path.drop_last();
    let last = path.last();
    assert(path[path.len() - 1] == last);
    assert(last != above(path[i]));
    assert(path[i] != above(last));
    if i < path.len() - 1 {
        assert forall|a: int, b: int| 0 <= a < rest.len() && 0 <= b < rest.len() implies #[trigger] rest[b]
            != above(#[trigger] rest[a]) by {
            assert(rest[a] == path[a] && rest[b] == path[b]);
        }
        assert forall|k: int| 0 <= k < rest.len() implies routable(#[trigger] rest[k]) by {
            assert(rest[k] == path[k]);
        }
        assert(rest[i] == path[i]);
        lemma_wire_has_substrate(rest, i, before, over);
    }
}

/// A wire laid along a path that does not stack, on a grid that holds no
/// wire, leaves every wire on a solid block.
pub proof fn lemma_path_on_wireless(
    path: Seq<Pos>,
    before: spec_fn(Pos) -> SpaceCell,
    after: spec_fn(Pos) -> SpaceCell,
)
    requires
        no_stacking(path),
        forall|k: int| 0 <= k < path.len() ==> routable(#[trigger] path[k]),
        forall|q: Pos| #[trigger] before(q) != SpaceCell::Used(SpaceBlock::Redstone),
        forall|q: Pos| #[trigger] after(q) == wired(path, before(q), q),
    ensures
        substrates_hold(after),
        forall|i: int|
            0 <= i < path.len() ==> after(#[trigger] path[i]) == SpaceCell::Used(
                SpaceBlock::Redstone,
            ),
{
    assert forall|q: Pos|
        q.2 < usize::MAX && #[trigger] after(q) == SpaceCell::Used(
            SpaceBlock::Redstone,
        ) implies after(above(q)) == SpaceCell::Used(SpaceBlock::SolidBlock) by {
        assert(before(q) != SpaceCell::Used(SpaceBlock::Redstone));
        if path.contains(q) {
            let i = choose|i: int| 0 <= i < path.len() && path[i] == q;
            lemma_wire_has_substrate(path, i, before(q), before(above(q)));
        } else {
            lemma_wired_elsewhere(path, before(q), q);
        }
    }
    assert forall|i: int| 0 <= i < path.len() implies after(#[trigger] path[i])
        == SpaceCell::Used(SpaceBlock::Redstone) by {
        lemma_wire_has_substrate(path, i, before(path[i]), SpaceCell::Empty);
    }
}

/// Whether `a` and `b` are the same address or differ by at most one along
/// every axis.
pub open spec fn touching(a: Pos, b: Pos) -> bool {
    &&& a.0 <= b.0 + 1 && b.0 <= a.0 + 1
    &&& a.1 <= b.1 + 1 && b.1 <= a.1 + 1
    &&& a.2 <= b.2 + 1 && b.2 <= a.2 + 1
}

/// Whether wires join `a` to `b`: a chain of addresses leads from one to
/// the other, each touching the next and each holding a wire.
pub open spec fn joined(grid: spec_fn(Pos) -> SpaceCell, a: Pos, b: Pos) -> bool {
    exists|chain: Seq<Pos>| #[trigger] joins(grid, chain, a, b)
}

/// Whether `chain` is a chain of wires from `a` to `b`.
pub open spec fn joins(grid: spec_fn(Pos) -> SpaceCell, chain: Seq<Pos>, a: Pos, b: Pos) -> bool {
    &&& chain.len() >= 1
    &&& chain[0] == a
    &&& chain[chain.len() - 1] == b
    &&& forall|i: int|
        0 <= i < chain.len() ==> grid(#[trigger] chain[i]) == SpaceCell::Used(SpaceBlock::Redstone)
    &&& forall|i: int| 0 <= i < chain.len() - 1 ==> touching(#[trigger] chain[i], chain[i + 1])
}

/// Every move of `base_moves` leads to an address that touches `pos`.
proof fn lemma_base_moves_touch(grid: spec_fn(Pos) -> SpaceCell, pos: Pos, k: int)
    requires
        0 <= k < base_moves(grid, pos).len(),
    ensures
        touching(pos, base_moves(grid, pos)[k].0),
{
    let near = |m: (Pos, i64)| touching(pos, m.0);
    let c0 = candidate(grid, pos, (1, 0, 0), 1);
    let c1 = candidate(grid, pos, (-1, 0, 0), 1);
    let c2 = candidate(grid, pos, (0, 1, 0), 1);
    let c3 = candidate(grid, pos, (0, -1, 0), 1);
    let c4 = candidate(grid, pos, (1, 0, 1), 2);
    let c5 = candidate(grid, pos, (-1, 0, 1), 2);
    let c6 = candidate(grid, pos, (0, 1, 1), 2);
    let c7 = candidate(grid, pos, (0, -1, 1), 2);
    let c8 = candidate(grid, pos, (1, 0, -1), 2);
    let c9 = candidate(grid, pos, (-1, 0, -1), 2);
    let c10 = candidate(grid, pos, (0, 1, -1), 2);
    let c11 = candidate(grid, pos, (0, -1, -1), 2);
    reveal(base_moves);
    let all = c0 + c1 + c2 + c3 + c4 + c5 + c6 + c7 + c8 + c9 + c10 + c11;
    assert(base_moves(grid, pos) == all);
    assert(c0.all(near) && c1.all(near) && c2.all(near) && c3.all(near));
    assert(c4.all(near) && c5.all(near) && c6.all(near) && c7.all(near));
    assert(c8.all(near) && c9.all(near) && c10.all(near) && c11.all(near));
    lemma_all_join(c0, c1, near);
    lemma_all_join(c0 + c1, c2, near);
    lemma_all_join(c0 + c1 + c2, c3, near);
    lemma_all_join(c0 + c1 + c2 + c3, c4, near);
    lemma_all_join(c0 + c1 + c2 + c3 + c4, c5, near);
    lemma_all_join(c0 + c1 + c2 + c3 + c4 + c5, c6, near);
    lemma_all_join(c0 + c1 + c2 + c3 + c4 + c5 + c6, c7, near);
    lemma_all_join(c0 + c1 + c2 + c3 + c4 + c5 + c6 + c7, c8, near);
    lemma_all_join(c0 + c1 + c2 + c3 + c4 + c5 + c6 + c7 + c8, c9, near);
    lemma_all_join(c0 + c1 + c2 + c3 + c4 + c5 + c6 + c7 + c8 + c9, c10, near);
    lemma_all_join(c0 + c1 + c2 + c3 + c4 + c5 + c6 + c7 + c8 + c9 + c10, c11, near);
    assert(near(all[k]));
}

/// What holds of all of `a` and of all of `b` holds of all of `a + b`.
proof fn lemma_all_join(a: Seq<(Pos, i64)>, b: Seq<(Pos, i64)>, holds: spec_fn((Pos, i64)) -> bool)
    requires
        a.all(holds),
        b.all(holds),
    ensures
        (a + b).all(holds),
{
    assert forall|k: int| 0 <= k < (a + b).len() implies holds(#[trigger] (a + b)[k]) by {
        if k < a.len() {
            assert((a + b)[k] == a[k]);
        } else {
            assert((a + b)[k] == b[k - a.len()]);
        }
    }
}

/// Every wire move leads to an address that touches `pos`.
pub proof fn lemma_wire_moves_touch(grid: spec_fn(Pos) -> SpaceCell, pos: Pos, dest: Pos, k: int)
    requires
        0 <= k < wire_moves(grid, pos, dest).len(),
    ensures
        touching(pos, wire_moves(grid, pos, dest)[k].0),
{
    let base = base_moves(grid, pos);
    lemma_move_to(base, dest);
    let at = move_to(base, dest);
    if at < base.len() {
        lemma_base_moves_touch(grid, pos, at);
    } else {
        let keep = |c: (Pos, i64)| admissible(grid, c.0);
        let kept = base.filter(keep);
        broadcast use vstd::seq_lib::group_filter_ensures;

        assert(kept.contains(kept[k]));
        base.lemma_filter_contains_rev(keep, kept[k]);
        let j = choose|j: int| 0 <= j < base.len() && base[j] == kept[k];
        lemma_base_moves_touch(grid, pos, j);
    }
}

/// A wire laid from the port at `src` along a route to the port at `dest`
/// joins the two ports, provided that the wire does not stack: the two
/// ports and the cells in front of them hold a wire, and a chain of wires
/// leads from one port to the other.
pub proof fn lemma_routed_edge_joins(
    open: spec_fn(Pos) -> SpaceCell,
    after: spec_fn(Pos) -> SpaceCell,
    src: Pos,
    dest: Pos,
    route: Seq<Pos>,
)
    requires
        ends_in_reach(src, dest),
        wire_route(
            open,
            ((src.0 + 1) as usize, src.1, src.2),
            ((dest.0 - 1) as usize, dest.1, dest.2),
            route,
        ),
        no_stacking(seq![src] + route + seq![dest]),
        forall|q: Pos| #[trigger] after(q) == wired(seq![src] + route + seq![dest], open(q), q),
    ensures
        joined(after, src, dest),
        after(src) == SpaceCell::Used(SpaceBlock::Redstone),
        after(((src.0 + 1) as usize, src.1, src.2)) == SpaceCell::Used(SpaceBlock::Redstone),
        after(((dest.0 - 1) as usize, dest.1, dest.2)) == SpaceCell::Used(SpaceBlock::Redstone),
        after(dest) == SpaceCell::Used(SpaceBlock::Redstone),
{
    let start = ((src.0 + 1) as usize, src.1, src.2);
    let goal = ((dest.0 - 1) as usize, dest.1, dest.2);
    let full = seq![src] + route + seq![dest];
    assert(full[0] == src);
    assert(full[1] == route[0] && route[0] == start);
    assert(full[route.len() as int] == route[route.len() - 1] && route[route.len() - 1] == goal);
    assert(full[full.len() - 1] == dest);
    assert forall|i: int| 0 <= i < full.len() implies routable(#[trigger] full[i]) by {
        if 1 <= i <= route.len() {
            assert(full[i] == route[i - 1]);
            lemma_route_routable(open, start, goal, route, i - 1);
        }
    }
    assert forall|i: int| 0 <= i < full.len() implies after(#[trigger] full[i]) == SpaceCell::Used(
        SpaceBlock::Redstone,
    ) by {
        lemma_wire_has_substrate(full, i, open(full[i]), SpaceCell::Empty);
    }
    assert forall|i: int| 0 <= i < full.len() - 1 implies touching(
        #[trigger] full[i],
        full[i + 1],
    ) by {
        if i == 0 {
            assert(full[1] == route[0]);
        } else if i < route.len() {
            assert(full[i] == route[i - 1]);
            assert(full[i + 1] == route[i - 1 + 1]);
            let from = route[i - 1];
            let k = choose|k: int|
                0 <= k < wire_moves(open, from, goal).len() && (#[trigger] wire_moves(
                    open,
                    from,
                    goal,
                )[k]).0 == route[i - 1 + 1];
            lemma_route_routable(open, start, goal, route, i - 1);
            lemma_wire_moves_touch(open, from, goal, k);
        } else {
            assert(full[i] == route[route.len() - 1]);
            assert(full[i + 1] == dest);
        }
    }
    assert(joins(after, full, src, dest));
}

/// Every address of a wire route that starts where a wire can lie is one
/// where a wire can lie.
pub proof fn lemma_route_routable(
    grid: spec_fn(Pos) -> SpaceCell,
    start: Pos,
    dest: Pos,
    route: Seq<Pos>,
    i: int,
)
    requires
        wire_route(grid, start, dest, route),
        routable(start),
        0 <= i < route.len(),
    ensures
        routable(route[i]),
{
    if i > 0 {
        let from = route[i - 1];
        let k = choose|k: int|
            0 <= k < wire_moves(grid, from, dest).len() && (#[trigger] wire_moves(
                grid,
                from,
                dest,
            )[k]).0 == route[i - 1 + 1];
        lemma_wire_moves(grid, from, dest, k);
    }
}

/// Whether every answer of `rule` on `space` is the wire moves toward
/// `goal`.
pub open spec fn follows_wire_moves<NF: Fn(&Space, Pos) -> Vec<(Pos, i64)>>(
    space: &Space,
    rule: NF,
    goal: Pos,
) -> bool {
    forall|p: Pos, out: Vec<(Pos, i64)>| #[trigger]
        call_ensures(rule, (space, p), out) ==> out@ == wire_moves(space.grid(), p, goal)
}

/// A route by steps that such a rule offers is a wire route.
proof fn lemma_offered_is_wire_route<NF: Fn(&Space, Pos) -> Vec<(Pos, i64)>>(
    space: &Space,
    rule: NF,
    start: Pos,
    goal: Pos,
    route: Seq<Pos>,
)
    requires
        follows_wire_moves(space, rule, goal),
        is_route(space, rule, start, goal, route),
    ensures
        wire_route(space.grid(), start, goal, route),
{
    assert forall|i: int| 0 <= i < route.len() - 1 implies exists|k: int|
        0 <= k < wire_moves(space.grid(), #[trigger] route[i], goal).len() && (
        #[trigger] wire_moves(space.grid(), route[i], goal)[k]).0 == route[i + 1] by {
        assert(offers(space, rule, route[i], route[i + 1]));
        let (out, k) = choose|out: Vec<(Pos, i64)>, k: int|
            call_ensures(rule, (space, route[i]), out) && 0 <= k < out@.len() && (
            #[trigger] out@[k]).0 == route[i + 1];
        assert(wire_moves(space.grid(), route[i], goal)[k].0 == route[i + 1]);
    }
}

/// Whether a wire that is headed for `dest` can move from `p` to `q` at
/// the cost `c`.
pub open spec fn wire_step(
    grid: spec_fn(Pos) -> SpaceCell,
    dest: Pos,
    p: Pos,
    q: Pos,
    c: int,
) -> bool {
    exists|k: int|
        0 <= k < wire_moves(grid, p, dest).len() && (#[trigger] wire_moves(grid, p, dest)[k]).0
            == q && wire_moves(grid, p, dest)[k].1 == c
}

/// The wire moves toward `dest` as a relation.
pub open spec fn wire_steps(grid: spec_fn(Pos) -> SpaceCell, dest: Pos) -> spec_fn(
    Pos,
    Pos,
    int,
) -> bool {
    |p: Pos, q: Pos, c: int| wire_step(grid, dest, p, q, c)
}

/// Whether `route` is a wire route from `start` to `dest` than which no
/// wire route from `start` to `dest` costs less, a move in the plane
/// costing 1 and a move between layers 2.
pub open spec fn cheapest_wire_route(
    grid: spec_fn(Pos) -> SpaceCell,
    start: Pos,
    dest: Pos,
    route: Seq<Pos>,
) -> bool {
    exists|costs: Seq<int>|
        #![trigger steps_route(wire_steps(grid, dest), start, dest, route, costs)]
        steps_route(wire_steps(grid, dest), start, dest, route, costs) && forall|
            other: Seq<Pos>,
            prices: Seq<int>,
        |
            #![trigger steps_route(wire_steps(grid, dest), start, dest, other, prices)]
            steps_route(wire_steps(grid, dest), start, dest, other, prices) ==> total(costs)
                <= total(prices)
}

/// A move that leads by `d`, which is a step in the plane and at most one
/// layer, at a cost of at least the length of `d`, brings no address
/// nearer than its cost.
proof fn lemma_candidate_close(
    grid: spec_fn(Pos) -> SpaceCell,
    pos: Pos,
    goal: Pos,
    d: (int, int, int),
    cost: i64,
)
    requires
        (if d.0 >= 0 {
            d.0
        } else {
            -d.0
        }) + (if d.1 >= 0 {
            d.1
        } else {
            -d.1
        }) + (if d.2 >= 0 {
            d.2
        } else {
            -d.2
        }) <= cost,
    ensures
        candidate(grid, pos, d, cost).all(|m: (Pos, i64)| l1(pos, goal) <= l1(m.0, goal) + m.1),
{
}

/// No move brings an address nearer to `goal` than it costs.
proof fn lemma_base_moves_close(grid: spec_fn(Pos) -> SpaceCell, pos: Pos, goal: Pos, k: int)
    requires
        0 <= k < base_moves(grid, pos).len(),
    ensures
        l1(pos, goal) <= l1(base_moves(grid, pos)[k].0, goal) + base_moves(grid, pos)[k].1,
{
    let near = |m: (Pos, i64)| l1(pos, goal) <= l1(m.0, goal) + m.1;
    let c0 = candidate(grid, pos, (1, 0, 0), 1);
    let c1 = candidate(grid, pos, (-1, 0, 0), 1);
    let c2 = candidate(grid, pos, (0, 1, 0), 1);
    let c3 = candidate(grid, pos, (0, -1, 0), 1);
    let c4 = candidate(grid, pos, (1, 0, 1), 2);
    let c5 = candidate(grid, pos, (-1, 0, 1), 2);
    let c6 = candidate(grid, pos, (0, 1, 1), 2);
    let c7 = candidate(grid, pos, (0, -1, 1), 2);
    let c8 = candidate(grid, pos, (1, 0, -1), 2);
    let c9 = candidate(grid, pos, (-1, 0, -1), 2);
    let c10 = candidate(grid, pos, (0, 1, -1), 2);
    let c11 = candidate(grid, pos, (0, -1, -1), 2);
    reveal(base_moves);
    let all = c0 + c1 + c2 + c3 + c4 + c5 + c6 + c7 + c8 + c9 + c10 + c11;
    assert(base_moves(grid, pos) == all);
    lemma_candidate_close(grid, pos, goal, (1, 0, 0), 1);
    lemma_candidate_close(grid, pos, goal, (-1, 0, 0), 1);
    lemma_candidate_close(grid, pos, goal, (0, 1, 0), 1);
    lemma_candidate_close(grid, pos, goal, (0, -1, 0), 1);
    lemma_candidate_close(grid, pos, goal, (1, 0, 1), 2);
    lemma_candidate_close(grid, pos, goal, (-1, 0, 1), 2);
    lemma_candidate_close(grid, pos, goal, (0, 1, 1), 2);
    lemma_candidate_close(grid, pos, goal, (0, -1, 1), 2);
    lemma_candidate_close(grid, pos, goal, (1, 0, -1), 2);
    lemma_candidate_close(grid, pos, goal, (-1, 0, -1), 2);
    lemma_candidate_close(grid, pos, goal, (0, 1, -1), 2);
    lemma_candidate_close(grid, pos, goal, (0, -1, -1), 2);
    lemma_all_join(c0, c1, near);
    lemma_all_join(c0 + c1, c2, near);
    lemma_all_join(c0 + c1 + c2, c3, near);
    lemma_all_join(c0 + c1 + c2 + c3, c4, near);
    lemma_all_join(c0 + c1 + c2 + c3 + c4, c5, near);
    lemma_all_join(c0 + c1 + c2 + c3 + c4 + c5, c6, near);
    lemma_all_join(c0 + c1 + c2 + c3 + c4 + c5 + c6, c7, near);
    lemma_all_join(c0 + c1 + c2 + c3 + c4 + c5 + c6 + c7, c8, near);
    lemma_all_join(c0 + c1 + c2 + c3 + c4 + c5 + c6 + c7 + c8, c9, near);
    lemma_all_join(c0 + c1 + c2 + c3 + c4 + c5 + c6 + c7 + c8 + c9, c10, near);
    lemma_all_join(c0 + c1 + c2 + c3 + c4 + c5 + c6 + c7 + c8 + c9 + c10, c11, near);
    assert(near(all[k]));
}

/// No wire move brings an address nearer to `goal` than it costs.
proof fn lemma_wire_moves_close(
    grid: spec_fn(Pos) -> SpaceCell,
    pos: Pos,
    dest: Pos,
    goal: Pos,
    k: int,
)
    requires
        0 <= k < wire_moves(grid, pos, dest).len(),
    ensures
        l1(pos, goal) <= l1(wire_moves(grid, pos, dest)[k].0, goal) + wire_moves(
            grid,
            pos,
            dest,
        )[k].1,
{
    let base = base_moves(grid, pos);
    lemma_move_to(base, dest);
    let at = move_to(base, dest);
    if at < base.len() {
        lemma_base_moves_close(grid, pos, goal, at);
    } else {
        let keep = |c: (Pos, i64)| admissible(grid, c.0);
        let kept = base.filter(keep);
        broadcast use vstd::seq_lib::group_filter_ensures;

        assert(kept.contains(kept[k]));
        base.lemma_filter_contains_rev(keep, kept[k]);
        let j = choose|j: int| 0 <= j < base.len() && base[j] == kept[k];
        lemma_base_moves_close(grid, pos, goal, j);
    }
}

/// No wire route to `goal` costs less than the distance to `goal`.
proof fn lemma_distance_is_fair(
    grid: spec_fn(Pos) -> SpaceCell,
    from: Pos,
    goal: Pos,
    route: Seq<Pos>,
    costs: Seq<int>,
)
    requires
        steps_route(wire_steps(grid, goal), from, goal, route, costs),
    ensures
        l1(from, goal) <= total(costs),
    decreases costs.len(),
{
    if costs.len() > 0 {
        let step = wire_steps(grid, goal);
        assert(step(route[0], route[0int + 1], costs[0]));
        let k = choose|k: int|
            0 <= k < wire_moves(grid, from, goal).len() && (#[trigger] wire_moves(
                grid,
                from,
                goal,
            )[k]).0 == route[1] && wire_moves(grid, from, goal)[k].1 == costs[0];
        lemma_wire_moves_close(grid, from, goal, goal, k);
        let rest = route.skip(1);
        let rest_costs = costs.skip(1);
        assert forall|i: int| 0 <= i < rest_costs.len() implies step(
            #[trigger] rest[i],
            rest[i + 1],
            rest_costs[i],
        ) by {
            assert(step(route[i + 1], route[i + 1 + 1], costs[i + 1]));
        }
        lemma_distance_is_fair(grid, route[1], goal, rest, rest_costs);
        lemma_total_split(costs, 1);
        assert(costs.take(1).drop_last() =~= Seq::<int>::empty());
        assert(total(costs.take(1).drop_last()) == 0);
        assert(costs.take(1).last() == costs[0]);
    }
}

/// A price at which a wire can move from `from` to `to`.
pub open spec fn wire_price(grid: spec_fn(Pos) -> SpaceCell, dest: Pos, from: Pos, to: Pos) -> int {
    choose|c: int| wire_step(grid, dest, from, to, c)
}

/// A wire route has prices.
proof fn lemma_wire_route_is_priced(
    grid: spec_fn(Pos) -> SpaceCell,
    start: Pos,
    dest: Pos,
    route: Seq<Pos>,
) -> (costs: Seq<int>)
    requires
        wire_route(grid, start, dest, route),
    ensures
        steps_route(wire_steps(grid, dest), start, dest, route, costs),
{
    let step = wire_steps(grid, dest);
    let costs = Seq::new(
        (route.len() - 1) as nat,
        |i: int| wire_price(grid, dest, route[i], route[i + 1]),
    );
    assert forall|i: int| 0 <= i < costs.len() implies step(
        #[trigger] route[i],
        route[i + 1],
        costs[i],
    ) by {
        let k = choose|k: int|
            0 <= k < wire_moves(grid, route[i], dest).len() && (#[trigger] wire_moves(
                grid,
                route[i],
                dest,
            )[k]).0 == route[i + 1];
        assert(wire_step(
            grid,
            dest,
            route[i],
            route[i + 1],
            wire_moves(grid, route[i], dest)[k].1 as int,
        ));
    }
    costs
}

/// A priced route by steps that such a rule offers is a priced route by
/// wire moves.
proof fn lemma_offered_is_priced_wire_route<NF: Fn(&Space, Pos) -> Vec<(Pos, i64)>>(
    space: &Space,
    rule: NF,
    start: Pos,
    end: Pos,
    goal: Pos,
    route: Seq<Pos>,
    costs: Seq<int>,
)
    requires
        follows_wire_moves(space, rule, goal),
        is_priced_route(space, rule, start, end, route, costs),
    ensures
        steps_route(wire_steps(space.grid(), goal), start, end, route, costs),
{
    let step = wire_steps(space.grid(), goal);
    assert forall|i: int| 0 <= i < costs.len() implies step(
        #[trigger] route[i],
        route[i + 1],
        costs[i],
    ) by {
        assert(offered(space, rule)(route[i], route[i + 1], costs[i]));
        let (out, k) = choose|out: Vec<(Pos, i64)>, k: int|
            call_ensures(rule, (space, route[i]), out) && 0 <= k < out@.len() && (
            #[trigger] out@[k]).0 == route[i + 1] && out@[k].1 == costs[i];
        assert(wire_moves(space.grid(), route[i], goal)[k].0 == route[i + 1]);
    }
}

/// A rule that follows the wire moves gives one answer per address, at
/// costs that a search accepts, and offers every wire move.
proof fn lemma_rule_costs<NF: Fn(&Space, Pos) -> Vec<(Pos, i64)>>(
    space: &Space,
    rule: NF,
    goal: Pos,
)
    requires
        follows_wire_moves(space, rule, goal),
    ensures
        forall|p: Pos, a: Vec<(Pos, i64)>, b: Vec<(Pos, i64)>|
            call_ensures(rule, (space, p), a) && call_ensures(rule, (space, p), b) ==> a@ == b@,
        forall|p: Pos, out: Vec<(Pos, i64)>, i: int|
            #![trigger call_ensures(rule, (space, p), out), out@[i]]
            call_ensures(rule, (space, p), out) && 0 <= i < out@.len() ==> 1 <= out@[i].1
                <= MAX_STEP_COST,
        covers(space, rule, wire_steps(space.grid(), goal)),
{
    assert forall|p: Pos, out: Vec<(Pos, i64)>, i: int|
        #![trigger call_ensures(rule, (space, p), out), out@[i]]
        call_ensures(rule, (space, p), out) && 0 <= i < out@.len() implies 1 <= out@[i].1
        <= MAX_STEP_COST by {
        lemma_wire_moves(space.grid(), p, goal, i);
    }
    let step = wire_steps(space.grid(), goal);
    assert forall|p: Pos, q: Pos, c: int, out: Vec<(Pos, i64)>|
        #![trigger step(p, q, c), call_ensures(rule, (space, p), out)]
        step(p, q, c) && call_ensures(rule, (space, p), out) implies exists|i: int|
        0 <= i < out@.len() && (#[trigger] out@[i]).0 == q && out@[i].1 == c by {
        let k = choose|k: int|
            0 <= k < wire_moves(space.grid(), p, goal).len() && (#[trigger] wire_moves(
                space.grid(),
                p,
                goal,
            )[k]).0 == q && wire_moves(space.grid(), p, goal)[k].1 == c;
        assert(out@[k].0 == q && out@[k].1 == c);
    }
}

/// Whether `b` lies within `reach` of `a` along every axis.
pub open spec fn near(a: Pos, b: Pos, reach: int) -> bool {
    &&& a.0 - reach <= b.0 <= a.0 + reach
    &&& a.1 - reach <= b.1 <= a.1 + reach
    &&& a.2 - reach <= b.2 <= a.2 + reach
}

/// How many addresses a grid without borders has within `reach` of an
/// address along every axis.
pub open spec fn room(reach: int) -> int {
    (2 * reach + 1) * (2 * reach + 1) * (2 * reach + 1)
}

/// Whether the wire routes from `start` to `goal` are beyond what one
/// search covers: each costs so much that a grid has more addresses within
/// that reach than a search expands.
pub open spec fn beyond_search(grid: spec_fn(Pos) -> SpaceCell, start: Pos, goal: Pos) -> bool {
    forall|route: Seq<Pos>, costs: Seq<int>|
        #![trigger steps_route(wire_steps(grid, goal), start, goal, route, costs)]
        steps_route(wire_steps(grid, goal), start, goal, route, costs) ==> room(total(costs))
            > SEARCH_LIMIT
}

/// A route by wire moves leads no further along any axis than it costs.
pub proof fn lemma_wire_route_near(
    grid: spec_fn(Pos) -> SpaceCell,
    dest: Pos,
    start: Pos,
    end: Pos,
    route: Seq<Pos>,
    costs: Seq<int>,
)
    requires
        steps_route(wire_steps(grid, dest), start, end, route, costs),
    ensures
        0 <= total(costs) <= 2 * costs.len(),
        near(start, end, total(costs)),
    decreases costs.len(),
{
    if costs.len() > 0 {
        let step = wire_steps(grid, dest);
        let last = costs.len() - 1;
        let from = route[last];
        assert(step(route[last], route[last + 1], costs[last]));
        let k = choose|k: int|
            0 <= k < wire_moves(grid, from, dest).len() && (#[trigger] wire_moves(
                grid,
                from,
                dest,
            )[k]).0 == end && wire_moves(grid, from, dest)[k].1 == costs[last];
        lemma_wire_moves(grid, from, dest, k);
        lemma_wire_moves_touch(grid, from, dest, k);
        let front = route.drop_last();
        let front_costs = costs.drop_last();
        assert forall|i: int| 0 <= i < front_costs.len() implies step(
            #[trigger] front[i],
            front[i + 1],
            front_costs[i],
        ) by {
            assert(step(route[i], route[i + 1], costs[i]));
        }
        lemma_wire_route_near(grid, dest, start, from, front, front_costs);
    }
}

/// Two numbers written with the same last digit and the same rest are the
/// same number: what `a + w * r` is fixes `a` and `r`, for a digit `a`
/// below `w`.
proof fn lemma_digits(w: int, a1: int, r1: int, a2: int, r2: int)
    requires
        w > 0,
        0 <= a1 < w,
        0 <= a2 < w,
        a1 + w * r1 == a2 + w * r2,
    ensures
        a1 == a2,
        r1 == r2,
{
    if r1 > r2 {
        assert(w * r1 >= w * r2 + w) by (nonlinear_arith)
            requires
                r1 >= r2 + 1,
                w > 0,
        ;
    }
    if r2 > r1 {
        assert(w * r2 >= w * r1 + w) by (nonlinear_arith)
            requires
                r2 >= r1 + 1,
                w > 0,
        ;
    }
}

/// The number of `p` among the addresses within `reach` of `center`, counted
/// along x first, then y, then z.
pub open spec fn box_index(center: Pos, reach: int, p: Pos) -> int {
    let w = 2 * reach + 1;
    (p.0 - center.0 + reach) + w * ((p.1 - center.1 + reach) + w * (p.2 - center.2 + reach))
}

/// The number of an address within reach is below `room(reach)`.
proof fn lemma_box_index_range(center: Pos, reach: int, p: Pos)
    requires
        near(center, p, reach),
    ensures
        0 <= box_index(center, reach, p) < room(reach),
{
    let w = 2 * reach + 1;
    let a = p.0 - center.0 + reach;
    let b = p.1 - center.1 + reach;
    let c = p.2 - center.2 + reach;
    assert(0 <= b + w * c <= w * w - 1) by (nonlinear_arith)
        requires
            0 <= b <= w - 1,
            0 <= c <= w - 1,
    ;
    let m = b + w * c;
    assert(0 <= a + w * m <= w * w * w - 1) by (nonlinear_arith)
        requires
            0 <= a <= w - 1,
            0 <= m <= w * w - 1,
            w >= 1,
    ;
}

/// No set of addresses within `reach` of `center` along every axis has more
/// than `room(reach)` of them.
pub proof fn lemma_box_size(center: Pos, reach: int, s: Set<Pos>)
    requires
        s.finite(),
        forall|p: Pos| #[trigger] s.contains(p) ==> near(center, p, reach),
    ensures
        s.len() <= room(reach) || s.len() == 0,
{
    if s.len() > 0 {
        let some = s.choose();
        assert(s.contains(some));
        assert(near(center, some, reach));
        let w = 2 * reach + 1;
        let code = |p: Pos| box_index(center, reach, p);
        let image = s.map(code);
        assert(vstd::relations::injective_on(code, s)) by {
            assert forall|p: Pos, q: Pos|
                s.contains(p) && s.contains(q) && #[trigger] code(p) == #[trigger] code(
                    q,
                ) implies p == q by {
                assert(near(center, p, reach) && near(center, q, reach));
                let pr = (p.1 - center.1 + reach) + w * (p.2 - center.2 + reach);
                let qr = (q.1 - center.1 + reach) + w * (q.2 - center.2 + reach);
                lemma_digits(w, p.0 - center.0 + reach, pr, q.0 - center.0 + reach, qr);
                lemma_digits(
                    w,
                    p.1 - center.1 + reach,
                    p.2 - center.2 + reach,
                    q.1 - center.1 + reach,
                    q.2 - center.2 + reach,
                );
            }
        }
        vstd::set_lib::lemma_map_size(s, image, code);
        lemma_box_index_range(center, reach, some);
        vstd::set_lib::lemma_int_range(0, room(reach));
        let range = vstd::set_lib::set_int_range(0, room(reach));
        assert forall|i: int| image.contains(i) implies range.contains(i) by {
            let p = choose|p: Pos| s.contains(p) && code(p) == i;
            lemma_box_index_range(center, reach, p);
        }
        vstd::set_lib::lemma_len_subset(image, range);
    }
}

/// Where a search for a wire route may expand `count` addresses other than
/// `goal` and a wire route costs `reach`, a grid has more than `count`
/// addresses within `reach`.
proof fn lemma_expansions_need_room<DF: Fn(Pos, Pos) -> i64, NF: Fn(&Space, Pos) -> Vec<(Pos, i64)>>(
    space: &Space,
    estimate: DF,
    rule: NF,
    start: Pos,
    goal: Pos,
    seen: Set<Pos>,
    count: nat,
    route: Seq<Pos>,
    costs: Seq<int>,
)
    requires
        follows_wire_moves(space, rule, goal),
        forall|a: Pos, b: Pos, d: i64| #[trigger] call_ensures(estimate, (a, b), d) ==> 0 <= d,
        expansions(
            space,
            estimate,
            rule,
            wire_steps(space.grid(), goal),
            start,
            goal,
            seen,
            count,
        ),
        steps_route(wire_steps(space.grid(), goal), start, goal, route, costs),
        total(costs) < i64::MAX,
    ensures
        count < room(total(costs)),
{
    let grid = space.grid();
    let step = wire_steps(grid, goal);
    let reach = total(costs);
    let all = seen.insert(goal);
    lemma_wire_route_near(grid, goal, start, goal, route, costs);
    assert forall|p: Pos| #[trigger] all.contains(p) implies near(start, p, reach) by {
        if p != goal {
            assert(seen.contains(p));
            assert(expandable(space, estimate, rule, step, start, goal, p));
            let (g, h, r, c) = choose|g: i64, h: i64, r: Seq<Pos>, c: Seq<int>| #[trigger]
                reached_at(space, estimate, rule, step, start, goal, p, g, h, r, c);
            lemma_offered_is_priced_wire_route(space, rule, start, p, goal, r, c);
            lemma_wire_route_near(grid, goal, start, p, r, c);
            assert(scored(g, h) <= total(costs));
            assert(0 <= h);
            assert(total(c) <= reach);
        }
    }
    lemma_box_size(start, reach, all);
}

/// Searches the grid for a wire route from `start` to `goal`. The route
/// found is one than which none costs less. The search gives up only where
/// every wire route is beyond what `SEARCH_LIMIT` expansions cover.
pub fn find_route(space: &Space, start: Pos, goal: Pos) -> (found: Result<Vec<Pos>, SearchError>)
    ensures
        found matches Ok(route) ==> wire_route(space.grid(), start, goal, route@)
            && cheapest_wire_route(space.grid(), start, goal, route@),
        found == Err::<Vec<Pos>, SearchError>(SearchError::Unreachable) ==> forall|route: Seq<Pos>|
            !wire_route(space.grid(), start, goal, route),
        found == Err::<Vec<Pos>, SearchError>(SearchError::StepLimit) ==> beyond_search(
            space.grid(),
            start,
            goal,
        ),
{
    let rule = |grid: &Space, p: Pos| -> (out: Vec<(Pos, i64)>)
        ensures
            out@ == wire_moves(grid.grid(), p, goal),
        { neighbours(grid, p, goal) };
    let estimate = |a: Pos, b: Pos| -> (d: i64)
        ensures
            d == distance(a, b),
        { manhattan(a, b) };
    let ghost step = wire_steps(space.grid(), goal);
    proof {
        assert(follows_wire_moves(space, rule, goal));
        lemma_rule_costs(space, rule, goal);
        let h = |p: Pos| distance(p, goal);
        let offer = offered(space, rule);
        assert forall|p: Pos, q: Pos, c: int| #[trigger] offer(p, q, c) implies h(p) <= c + h(q) by {
            assert(offers_at(space, rule, p, q, c));
            let (out, k) = choose|out: Vec<(Pos, i64)>, k: int|
                call_ensures(rule, (space, p), out) && 0 <= k < out@.len() && (#[trigger] out@[k]).0
                    == q && out@[k].1 == c;
            lemma_wire_moves_close(space.grid(), p, goal, goal, k);
        }
        assert(consistent_as(estimate, goal, offer, h));
        assert(consistent(estimate, goal, offer));
        assert forall|v: Pos, route: Seq<Pos>, costs: Seq<int>, h: i64|
            #![trigger steps_route(step, v, goal, route, costs), call_ensures(estimate, (v, goal), h)]
            steps_route(step, v, goal, route, costs) && call_ensures(
                estimate,
                (v, goal),
                h,
            ) implies h <= total(costs) by {
            lemma_distance_is_fair(space.grid(), v, goal, route, costs);
        }
        assert(fair(estimate, goal, step));
    }
    match search(space, start, goal, estimate, rule, SEARCH_LIMIT, Ghost(step)) {
        Ok(found) => {
            let (route, Ghost(costs)) = found;
            proof {
                lemma_priced_is_route(space, rule, start, goal, route@, costs);
                lemma_offered_is_wire_route(space, rule, start, goal, route@);
                lemma_offered_is_priced_wire_route(space, rule, start, goal, goal, route@, costs);
                assert(steps_route(step, start, goal, route@, costs));
            }
            Ok(route)
        },
        Err(SearchError::Unreachable) => {
            proof {
                assert forall|route: Seq<Pos>| !wire_route(space.grid(), start, goal, route) by {
                    if wire_route(space.grid(), start, goal, route) {
                        let costs = lemma_wire_route_is_priced(space.grid(), start, goal, route);
                        assert(steps_route(step, start, goal, route, costs));
                    }
                }
            }
            Err(SearchError::Unreachable)
        },
        Err(SearchError::StepLimit) => {
            proof {
                assert forall|route: Seq<Pos>, costs: Seq<int>|
                    #![trigger steps_route(step, start, goal, route, costs)]
                    steps_route(step, start, goal, route, costs) implies room(total(costs))
                    > SEARCH_LIMIT by {
                    lemma_wire_route_near(space.grid(), goal, start, goal, route, costs);
                    let reach = total(costs);
                    assert(room(reach) > reach) by (nonlinear_arith)
                        requires
                            reach >= 0,
                    ;
                    if room(reach) <= SEARCH_LIMIT {
                        assert(in_range(estimate, goal, step, start));
                        let seen = choose|seen: Set<Pos>| #[trigger]
                            expansions(
                                space,
                                estimate,
                                rule,
                                step,
                                start,
                                goal,
                                seen,
                                SEARCH_LIMIT as nat,
                            );
                        lemma_expansions_need_room(
                            space,
                            estimate,
                            rule,
                            start,
                            goal,
                            seen,
                            SEARCH_LIMIT as nat,
                            route,
                            costs,
                        );
                    }
                }
            }
            Err(SearchError::StepLimit)
        },
    }
}

/// Index of the first placed node with the id `id`; `nodes.len()` when
/// there is none.
pub open spec fn placed_index(nodes: Seq<PlacedNode>, id: u32) -> int
    decreases nodes.len(),
{
    if nodes.len() == 0 {
        0
    } else if nodes[0].1 == id {
        0
    } else {
        1 + placed_index(nodes.drop_first(), id)
    }
}

/// `placed_index` is the least index whose node has the id.
pub proof fn lemma_placed_index(nodes: Seq<PlacedNode>, id: u32)
    ensures
        0 <= placed_index(nodes, id) <= nodes.len(),
        placed_index(nodes, id) < nodes.len() ==> nodes[placed_index(nodes, id)].1 == id,
        forall|j: int| 0 <= j < placed_index(nodes, id) ==> (#[trigger] nodes[j]).1 != id,
    decreases nodes.len(),
{
    if nodes.len() > 0 && nodes[0].1 != id {
        let rest = nodes.drop_first();
        lemma_placed_index(rest, id);
        assert forall|j: int| 0 <= j < placed_index(nodes, id) implies (#[trigger] nodes[j]).1
            != id by {
            if j > 0 {
                assert(rest[j - 1] == nodes[j]);
            }
        }
    }
}

/// The address of output port `port` of `node`, if it has that port.
pub open spec fn source_pos(node: PlacedNode, port: u32) -> Option<Pos> {
    match node.2 {
        PlacedNodeData::Splitter { ports, .. } => if port < ports@.len() {
            Some(ports@[port as int])
        } else {
            None
        },
        PlacedNodeData::Entity { out_ports, .. } => if port < out_ports@.len() {
            Some(out_ports@[port as int])
        } else {
            None
        },
        _ => Some(node.0),
    }
}

/// The address of input port `port` of `node`, if it has that port.
pub open spec fn target_pos(node: PlacedNode, port: u32) -> Option<Pos> {
    match node.2 {
        PlacedNodeData::Splitter { input, .. } => Some(input),
        PlacedNodeData::Entity { in_ports, .. } => if port < in_ports@.len() {
            Some(in_ports@[port as int])
        } else {
            None
        },
        _ => Some(node.0),
    }
}

/// The addresses of the two ports that `edge` joins, source first.
pub open spec fn edge_ends(edge: Edge, nodes: Seq<PlacedNode>) -> Result<(Pos, Pos), RouteError> {
    let i = placed_index(nodes, edge.src_id);
    let j = placed_index(nodes, edge.dest_id);
    if i >= nodes.len() || j >= nodes.len() {
        Err(RouteError::UnknownNode)
    } else {
        match (source_pos(nodes[i], edge.src_port), target_pos(nodes[j], edge.dest_port)) {
            (Some(src), Some(dest)) => Ok((src, dest)),
            _ => Err(RouteError::PortOutOfRange),
        }
    }
}

/// Index of the first placed node with the id `id`.
fn find_placed(nodes: &Vec<PlacedNode>, id: u32) -> (at: usize)
    ensures
        at == placed_index(nodes@, id),
        at <= nodes@.len(),
{
    let mut i: usize = 0;
    proof {
        lemma_placed_index(nodes@, id);
    }
    while i < nodes.len()
        invariant
            0 <= i <= nodes.len(),
            i <= placed_index(nodes@, id) <= nodes@.len(),
            placed_index(nodes@, id) < nodes@.len() ==> nodes@[placed_index(nodes@, id)].1 == id,
        decreases nodes.len() - i,
    {
        if nodes[i].1 == id {
            proof {
                lemma_placed_index(nodes@, id);
            }
            return i;
        }
        i += 1;
    }
    i
}

/// The addresses of the two ports that `edge` joins, source first.
pub fn resolve_ends(edge: &Edge, nodes: &Vec<PlacedNode>) -> (ends: Result<(Pos, Pos), RouteError>)
    ensures
        ends == edge_ends(*edge, nodes@),
{
    let i = find_placed(nodes, edge.src_id);
    let j = find_placed(nodes, edge.dest_id);
    if i >= nodes.len() || j >= nodes.len() {
        return Err(RouteError::UnknownNode);
    }
    let port = edge.src_port as usize;
    let src = match &nodes[i].2 {
        PlacedNodeData::Splitter { ports, .. } => if port < ports.len() {
            Some(ports[port])
        } else {
            None
        },
        PlacedNodeData::Entity { out_ports, .. } => if port < out_ports.len() {
            Some(out_ports[port])
        } else {
            None
        },
        _ => Some(nodes[i].0),
    };
    let port = edge.dest_port as usize;
    let dest = match &nodes[j].2 {
        PlacedNodeData::Splitter { input, .. } => Some(*input),
        PlacedNodeData::Entity { in_ports, .. } => if port < in_ports.len() {
            Some(in_ports[port])
        } else {
            None
        },
        _ => Some(nodes[j].0),
    };
    match (src, dest) {
        (Some(src), Some(dest)) => Ok((src, dest)),
        _ => Err(RouteError::PortOutOfRange),
    }
}

/// Whether a wire can be led from the port at `src` to the port at `dest`
/// without leaving the grid: the stub in front of `src` fits, and `dest`
/// has a cell in front of it.
pub open spec fn ends_in_reach(src: Pos, dest: Pos) -> bool {
    &&& src.0 + RESERVE_SPACE + 1 < usize::MAX
    &&& src.1 + 1 < usize::MAX
    &&& src.2 + 1 < usize::MAX
    &&& dest.0 >= 1
    &&& routable(dest)
}

/// Whether `q` lies in one of the two stubs that are cleared before a
/// search: from `src` on, `RESERVE_SPACE + 1` cells toward higher x; and the
/// `RESERVE_SPACE + 1` cells in front of `dest`, on its layer and on the
/// one above.
pub open spec fn in_stub(src: Pos, dest: Pos, q: Pos) -> bool {
    ||| q.1 == src.1 && q.2 == src.2 && src.0 <= q.0 < src.0 + RESERVE_SPACE + 1
    ||| q.1 == dest.1 && (q.2 == dest.2 || q.2 == dest.2 + 1) && dest.0 - (RESERVE_SPACE + 1) <= q.0
        < dest.0
}

/// The grid with the two stubs cleared.
pub open spec fn cleared(grid: spec_fn(Pos) -> SpaceCell, src: Pos, dest: Pos) -> spec_fn(
    Pos,
) -> SpaceCell {
    |q: Pos|
        if in_stub(src, dest, q) {
            SpaceCell::Empty
        } else {
            grid(q)
        }
}

/// Empties every cell from `(from, y, z)` to just before `(to, y, z)`.
fn clear_row(space: &mut Space, from: usize, to: usize, y: usize, z: usize)
    requires
        to < usize::MAX,
        y < usize::MAX,
        z < usize::MAX,
    ensures
        forall|q: Pos|
            final(space).at(q) == if q.2 == z && q.1 == y && from <= q.0 < to {
                SpaceCell::Empty
            } else {
                old(space).at(q)
            },
{
    let mut x: usize = from;
    while x < to
        invariant
            to < usize::MAX,
            y < usize::MAX,
            z < usize::MAX,
            from <= x,
            forall|q: Pos|
                space.at(q) == if q.2 == z && q.1 == y && from <= q.0 < x && q.0 < to {
                    SpaceCell::Empty
                } else {
                    old(space).at(q)
                },
        decreases to - x,
    {
        space.write((x, y, z), SpaceCell::Empty);
        x += 1;
    }
}

/// Clears the two stubs, so that a search can leave the halo of the source
/// and enter the halo of the destination.
pub fn unreserve(space: &mut Space, src: Pos, dest: Pos)
    requires
        ends_in_reach(src, dest),
    ensures
        forall|q: Pos| final(space).at(q) == cleared(old(space).grid(), src, dest)(q),
{
    clear_row(space, src.0, src.0 + RESERVE_SPACE + 1, src.1, src.2);
    let from = if dest.0 >= RESERVE_SPACE + 1 {
        dest.0 - (RESERVE_SPACE + 1)
    } else {
        0
    };
    clear_row(space, from, dest.0, dest.1, dest.2);
    clear_row(space, from, dest.0, dest.1, dest.2 + 1);
}

/// What routing one edge makes of the grid `before`: `after` and `result`
/// are a possible outcome of it.
pub open spec fn edge_outcome(
    before: spec_fn(Pos) -> SpaceCell,
    after: spec_fn(Pos) -> SpaceCell,
    edge: Edge,
    nodes: Seq<PlacedNode>,
    result: Result<(), RouteError>,
) -> bool {
    match edge_ends(edge, nodes) {
        Err(e) => result == Err::<(), RouteError>(e) && forall|q: Pos| #[trigger] after(q) == before(q),
        Ok((src, dest)) => if !ends_in_reach(src, dest) {
            result == Err::<(), RouteError>(RouteError::OutOfGrid) && forall|q: Pos|
                #[trigger] after(q) == before(q)
        } else {
            let open = cleared(before, src, dest);
            let start = ((src.0 + 1) as usize, src.1, src.2);
            let goal = ((dest.0 - 1) as usize, dest.1, dest.2);
            match result {
                Ok(()) => exists|route: Seq<Pos>| #[trigger]
                    wire_route(open, start, goal, route) && cheapest_wire_route(
                        open,
                        start,
                        goal,
                        route,
                    ) && forall|q: Pos|
                        #[trigger] after(q) == wired(seq![src] + route + seq![dest], open(q), q),
                Err(RouteError::Unreachable) => (forall|route: Seq<Pos>|
                    !wire_route(open, start, goal, route)) && forall|q: Pos| #[trigger] after(q) == open(q),
                Err(RouteError::StepLimit) => beyond_search(open, start, goal) && forall|q: Pos| #[trigger]
                    after(q) == open(q),
                _ => false,
            }
        },
    }
}

/// Routes `edge`: clears the stubs at its two ports, searches for a route
/// between the cell in front of the source and the cell in front of the
/// destination, and lays a wire from port to port along it. Where the two
/// ports resolve and lie in reach, it fails only if no wire route leads
/// from the one cell to the other, or if every such route is beyond what
/// one search covers.
pub fn place_edge(space: &mut Space, edge: &Edge, nodes: &Vec<PlacedNode>) -> (result: Result<
    (),
    RouteError,
>)
    ensures
        edge_outcome(old(space).grid(), final(space).grid(), *edge, nodes@, result),
{
    let (src, dest) = match resolve_ends(edge, nodes) {
        Ok(ends) => ends,
        Err(e) => {
            return Err(e);
        },
    };
    let limit = usize::MAX;
    if !(src.0 < limit - (RESERVE_SPACE + 1) && src.1 < limit - 1 && src.2 < limit - 1 && dest.0
        >= 1 && dest.0 < limit - 1 && dest.1 < limit - 1 && dest.2 < limit - 1) {
        return Err(RouteError::OutOfGrid);
    }
    unreserve(space, src, dest);
    let ghost open = cleared(old(space).grid(), src, dest);
    let start = (src.0 + 1, src.1, src.2);
    let goal = (dest.0 - 1, dest.1, dest.2);
    proof {
        assert(space.grid() =~= open);
    }
    let found = find_route(space, start, goal);
    match found {
        Ok(route) => {
            let ghost found_route = route@;
            let mut full: Vec<Pos> = Vec::new();
            full.push(src);
            let mut route = route;
            full.append(&mut route);
            full.push(dest);
            proof {
                assert(full@ =~= seq![src] + found_route + seq![dest]);
                assert forall|i: int| 0 <= i < full@.len() implies routable(#[trigger] full@[i]) by {
                    if 1 <= i <= found_route.len() {
                        lemma_route_routable(open, start, goal, found_route, i - 1);
                    }
                }
            }
            place_path(space, full);
            proof {
                assert(wire_route(open, start, goal, found_route));
                assert(cheapest_wire_route(open, start, goal, found_route));
            }
            Ok(())
        },
        Err(SearchError::Unreachable) => Err(RouteError::Unreachable),
        Err(SearchError::StepLimit) => Err(RouteError::StepLimit),
    }
}

/// More reach gives more room.
proof fn lemma_room_grows(less: int, more: int)
    requires
        0 <= less <= more,
    ensures
        room(less) <= room(more),
{
    let x = 2 * less + 1;
    let y = 2 * more + 1;
    assert(x * x <= y * y) by (nonlinear_arith)
        requires
            0 <= x <= y,
    ;
    assert((x * x) * x <= (y * y) * y) by (nonlinear_arith)
        requires
            0 <= x <= y,
            0 <= x * x <= y * y,
    ;
}

/// An edge is routed wherever its ports resolve and lie in reach and a wire
/// route leads from the one to the other that is short enough for one
/// search: a grid has no more than `SEARCH_LIMIT` addresses within twice
/// the number of its moves.
pub proof fn lemma_edge_is_routed(
    before: spec_fn(Pos) -> SpaceCell,
    after: spec_fn(Pos) -> SpaceCell,
    edge: Edge,
    nodes: Seq<PlacedNode>,
    result: Result<(), RouteError>,
    src: Pos,
    dest: Pos,
    route: Seq<Pos>,
)
    requires
        edge_outcome(before, after, edge, nodes, result),
        edge_ends(edge, nodes) == Ok::<(Pos, Pos), RouteError>((src, dest)),
        ends_in_reach(src, dest),
        wire_route(
            cleared(before, src, dest),
            ((src.0 + 1) as usize, src.1, src.2),
            ((dest.0 - 1) as usize, dest.1, dest.2),
            route,
        ),
        room(2 * (route.len() - 1)) <= SEARCH_LIMIT,
    ensures
        result is Ok,
{
    let open = cleared(before, src, dest);
    let start = ((src.0 + 1) as usize, src.1, src.2);
    let goal = ((dest.0 - 1) as usize, dest.1, dest.2);
    let costs = lemma_wire_route_is_priced(open, start, goal, route);
    lemma_wire_route_near(open, goal, start, goal, route, costs);
    lemma_room_grows(total(costs), 2 * (route.len() - 1));
}

/// A routed edge joins its two ports, provided that no cheapest wire route
/// between them stacks: the two ports and the cells in front of them hold
/// a wire, and a chain of wires leads from one port to the other.
pub proof fn lemma_placed_edge_joins(
    before: spec_fn(Pos) -> SpaceCell,
    after: spec_fn(Pos) -> SpaceCell,
    edge: Edge,
    nodes: Seq<PlacedNode>,
    src: Pos,
    dest: Pos,
)
    requires
        edge_outcome(before, after, edge, nodes, Ok::<(), RouteError>(())),
        edge_ends(edge, nodes) == Ok::<(Pos, Pos), RouteError>((src, dest)),
        forall|route: Seq<Pos>| #[trigger]
            cheapest_wire_route(
                cleared(before, src, dest),
                ((src.0 + 1) as usize, src.1, src.2),
                ((dest.0 - 1) as usize, dest.1, dest.2),
                route,
            ) ==> no_stacking(seq![src] + route + seq![dest]),
    ensures
        joined(after, src, dest),
        after(src) == SpaceCell::Used(SpaceBlock::Redstone),
        after(((src.0 + 1) as usize, src.1, src.2)) == SpaceCell::Used(SpaceBlock::Redstone),
        after(((dest.0 - 1) as usize, dest.1, dest.2)) == SpaceCell::Used(SpaceBlock::Redstone),
        after(dest) == SpaceCell::Used(SpaceBlock::Redstone),
{
    let open = cleared(before, src, dest);
    let start = ((src.0 + 1) as usize, src.1, src.2);
    let goal = ((dest.0 - 1) as usize, dest.1, dest.2);
    let route = choose|route: Seq<Pos>| #[trigger]
        wire_route(open, start, goal, route) && cheapest_wire_route(open, start, goal, route)
            && forall|q: Pos|
            #[trigger] after(q) == wired(seq![src] + route + seq![dest], open(q), q);
    lemma_routed_edge_joins(open, after, src, dest, route);
}

/// Every address of a wire route through a grid whose stubs are cleared is
/// empty before the wire is laid.
pub proof fn lemma_route_cells_empty(
    before: spec_fn(Pos) -> SpaceCell,
    src: Pos,
    dest: Pos,
    route: Seq<Pos>,
    i: int,
)
    requires
        ends_in_reach(src, dest),
        wire_route(
            cleared(before, src, dest),
            ((src.0 + 1) as usize, src.1, src.2),
            ((dest.0 - 1) as usize, dest.1, dest.2),
            route,
        ),
        0 <= i < route.len(),
    ensures
        cleared(before, src, dest)(route[i]) is Empty,
{
    let open = cleared(before, src, dest);
    let start = ((src.0 + 1) as usize, src.1, src.2);
    let goal = ((dest.0 - 1) as usize, dest.1, dest.2);
    assert(in_stub(src, dest, start));
    assert(in_stub(src, dest, goal));
    if i > 0 {
        let from = route[i - 1];
        let k = choose|k: int|
            0 <= k < wire_moves(open, from, goal).len() && (#[trigger] wire_moves(
                open,
                from,
                goal,
            )[k]).0 == route[i - 1 + 1];
        let base = base_moves(open, from);
        lemma_move_to(base, goal);
        if move_to(base, goal) >= base.len() {
            let keep = |c: (Pos, i64)| admissible(open, c.0);
            broadcast use vstd::seq_lib::group_filter_ensures;

            assert(keep(base.filter(keep)[k]));
        }
    }
}

/// Whether the stubs of an edge hold no block but the wire of the source
/// port.
pub open spec fn stubs_free(before: spec_fn(Pos) -> SpaceCell, src: Pos, dest: Pos) -> bool {
    forall|q: Pos| in_stub(src, dest, q) && q != src ==> !(#[trigger] before(q) is Used)
}

/// The stubs are cleared; every other address keeps what it held.
proof fn lemma_cleared(before: spec_fn(Pos) -> SpaceCell, src: Pos, dest: Pos, q: Pos)
    ensures
        in_stub(src, dest, q) ==> cleared(before, src, dest)(q) == SpaceCell::Empty,
        !in_stub(src, dest, q) ==> cleared(before, src, dest)(q) == before(q),
{
}

/// A wire that lay off the path before an edge was routed still rests on
/// its solid block afterwards.
proof fn lemma_old_wire_keeps_substrate(
    before: spec_fn(Pos) -> SpaceCell,
    src: Pos,
    dest: Pos,
    route: Seq<Pos>,
    q: Pos,
)
    requires
        substrates_hold(before),
        ends_in_reach(src, dest),
        before(src) == SpaceCell::Used(SpaceBlock::Redstone),
        before(dest) == SpaceCell::Used(SpaceBlock::Redstone),
        stubs_free(before, src, dest),
        wire_route(
            cleared(before, src, dest),
            ((src.0 + 1) as usize, src.1, src.2),
            ((dest.0 - 1) as usize, dest.1, dest.2),
            route,
        ),
        q.2 < usize::MAX,
        !(seq![src] + route + seq![dest]).contains(q),
        cleared(before, src, dest)(q) == SpaceCell::Used(SpaceBlock::Redstone),
    ensures
        !(seq![src] + route + seq![dest]).contains(above(q)),
        cleared(before, src, dest)(above(q)) == SpaceCell::Used(SpaceBlock::SolidBlock),
{
    let open = cleared(before, src, dest);
    let full = seq![src] + route + seq![dest];
    let wire = SpaceCell::Used(SpaceBlock::Redstone);
    let solid = SpaceCell::Used(SpaceBlock::SolidBlock);
    lemma_cleared(before, src, dest, q);
    lemma_cleared(before, src, dest, above(q));
    lemma_cleared(before, src, dest, src);
    assert(before(q) == wire);
    assert(before(above(q)) == solid);
    assert(!in_stub(src, dest, above(q))) by {
        if in_stub(src, dest, above(q)) {
            assert(before(above(q)) is Used);
            assert(above(q) == src);
        }
    }
    if full.contains(above(q)) {
        let i = choose|i: int| 0 <= i < full.len() && full[i] == above(q);
        if 1 <= i <= route.len() {
            assert(full[i] == route[i - 1]);
            lemma_route_cells_empty(before, src, dest, route, i - 1);
        } else if i == 0 {
            assert(full[0] == src);
            assert(in_stub(src, dest, src));
        } else {
            assert(full[i] == dest);
        }
    }
}

/// Routing an edge keeps every wire on its solid block, provided that the
/// stubs of the edge held no block and the wire does not stack.
pub proof fn lemma_routed_edge_keeps_substrates(
    before: spec_fn(Pos) -> SpaceCell,
    after: spec_fn(Pos) -> SpaceCell,
    src: Pos,
    dest: Pos,
    route: Seq<Pos>,
)
    requires
        substrates_hold(before),
        ends_in_reach(src, dest),
        before(src) == SpaceCell::Used(SpaceBlock::Redstone),
        before(dest) == SpaceCell::Used(SpaceBlock::Redstone),
        stubs_free(before, src, dest),
        wire_route(
            cleared(before, src, dest),
            ((src.0 + 1) as usize, src.1, src.2),
            ((dest.0 - 1) as usize, dest.1, dest.2),
            route,
        ),
        no_stacking(seq![src] + route + seq![dest]),
        forall|q: Pos|
            #[trigger] after(q) == wired(
                seq![src] + route + seq![dest],
                cleared(before, src, dest)(q),
                q,
            ),
    ensures
        substrates_hold(after),
{
    let open = cleared(before, src, dest);
    let start = ((src.0 + 1) as usize, src.1, src.2);
    let goal = ((dest.0 - 1) as usize, dest.1, dest.2);
    let full = seq![src] + route + seq![dest];
    let wire = SpaceCell::Used(SpaceBlock::Redstone);
    let solid = SpaceCell::Used(SpaceBlock::SolidBlock);
    assert forall|i: int| 0 <= i < full.len() implies routable(#[trigger] full[i]) by {
        if 1 <= i <= route.len() {
            assert(full[i] == route[i - 1]);
            lemma_route_routable(open, start, goal, route, i - 1);
        }
    }
    assert forall|q: Pos| q.2 < usize::MAX && #[trigger] after(q) == wire implies after(above(q))
        == solid by {
        assert(after(q) == wired(full, open(q), q));
        assert(after(above(q)) == wired(full, open(above(q)), above(q)));
        if full.contains(q) {
            let i = choose|i: int| 0 <= i < full.len() && full[i] == q;
            lemma_wire_has_substrate(full, i, open(q), open(above(q)));
        } else {
            lemma_wired_elsewhere(full, open(q), q);
            lemma_old_wire_keeps_substrate(before, src, dest, route, q);
            lemma_wired_over(full, open(above(q)), above(q));
        }
    }
}

/// Laying a wire leaves a wire only where the path runs or where one lay
/// before.
pub proof fn lemma_wired_elsewhere(path: Seq<Pos>, before: SpaceCell, q: Pos)
    requires
        !path.contains(q),
        wired(path, before, q) == SpaceCell::Used(SpaceBlock::Redstone),
    ensures
        before == SpaceCell::Used(SpaceBlock::Redstone),
    decreases path.len(),
{
    if path.len() > 0 {
        let rest = path.drop_last();
        assert(path[path.len() - 1] == path.last());
        assert(!rest.contains(q)) by {
            if rest.contains(q) {
                let i = choose|i: int| 0 <= i < rest.len() && rest[i] == q;
                assert(path[i] == q);
            }
        }
        lemma_wired_elsewhere(rest, before, q);
    }
}

/// Laying a wire keeps a solid block wherever the path does not run.
pub proof fn lemma_wired_over(path: Seq<Pos>, before: SpaceCell, q: Pos)
    requires
        !path.contains(q),
        before == SpaceCell::Used(SpaceBlock::SolidBlock),
    ensures
        wired(path, before, q) == SpaceCell::Used(SpaceBlock::SolidBlock),
    decreases path.len(),
{
    if path.len() > 0 {
        let rest = path.drop_last();
        assert(path[path.len() - 1] == path.last());
        assert(!rest.contains(q)) by {
            if rest.contains(q) {
                let i = choose|i: int| 0 <= i < rest.len() && rest[i] == q;
                assert(path[i] == q);
            }
        }
        lemma_wired_over(rest, before, q);
    }
}

/// Whether `states` are the grids that routing `edges` one after the other,
/// all with success, can lead through, from `before` to `after`.
pub open spec fn traces(
    states: Seq<spec_fn(Pos) -> SpaceCell>,
    before: spec_fn(Pos) -> SpaceCell,
    after: spec_fn(Pos) -> SpaceCell,
    edges: Seq<Edge>,
    nodes: Seq<PlacedNode>,
) -> bool {
    &&& states.len() == edges.len() + 1
    &&& states[0] == before
    &&& states[edges.len() as int] == after
    &&& forall|i: int|
        0 <= i < edges.len() ==> edge_outcome(
            states[i],
            states[i + 1],
            #[trigger] edges[i],
            nodes,
            Ok(()),
        )
}

/// What routing `edges` one after the other, all with success, makes of the
/// grid `before`: `after` is a possible outcome of it.
pub open spec fn all_routed(
    before: spec_fn(Pos) -> SpaceCell,
    after: spec_fn(Pos) -> SpaceCell,
    edges: Seq<Edge>,
    nodes: Seq<PlacedNode>,
) -> bool {
    exists|states: Seq<spec_fn(Pos) -> SpaceCell>| #[trigger]
        traces(states, before, after, edges, nodes)
}

/// Whether routing `edge` on `grid` goes tidily: its two ports hold wires,
/// the stubs in front of them hold no other block, the cell on which the
/// wire in front of the source comes to rest holds no wire, and no
/// cheapest wire route between the ports stacks.
pub open spec fn tidy(grid: spec_fn(Pos) -> SpaceCell, edge: Edge, nodes: Seq<PlacedNode>) -> bool {
    match edge_ends(edge, nodes) {
        Ok((src, dest)) => {
            let start = ((src.0 + 1) as usize, src.1, src.2);
            let goal = ((dest.0 - 1) as usize, dest.1, dest.2);
            &&& grid(src) == SpaceCell::Used(SpaceBlock::Redstone)
            &&& grid(dest) == SpaceCell::Used(SpaceBlock::Redstone)
            &&& stubs_free(grid, src, dest)
            &&& grid(above(start)) != SpaceCell::Used(SpaceBlock::Redstone)
            &&& forall|route: Seq<Pos>| #[trigger]
                cheapest_wire_route(cleared(grid, src, dest), start, goal, route) ==> no_stacking(
                    seq![src] + route + seq![dest],
                )
        },
        Err(_) => true,
    }
}

/// Laying a wire keeps a wire that lies off the path, unless a cell of the
/// path lies directly below it in storage order.
pub proof fn lemma_wired_keeps_wire(path: Seq<Pos>, q: Pos)
    requires
        !path.contains(q),
        forall|i: int| 0 <= i < path.len() ==> above(#[trigger] path[i]) != q,
    ensures
        wired(path, SpaceCell::Used(SpaceBlock::Redstone), q) == SpaceCell::Used(
            SpaceBlock::Redstone,
        ),
    decreases path.len(),
{
    if path.len() > 0 {
        let rest = path.drop_last();
        assert(path[path.len() - 1] == path.last());
        assert(!rest.contains(q)) by {
            if rest.contains(q) {
                let i = choose|i: int| 0 <= i < rest.len() && rest[i] == q;
                assert(path[i] == q);
            }
        }
        assert forall|i: int| 0 <= i < rest.len() implies above(#[trigger] rest[i]) != q by {
            assert(rest[i] == path[i]);
        }
        lemma_wired_keeps_wire(rest, q);
    }
}

/// A cell of a wire route other than its first is the cell in front of
/// the destination, or has an empty cell above it.
proof fn lemma_route_cell_rests(
    before: spec_fn(Pos) -> SpaceCell,
    src: Pos,
    dest: Pos,
    route: Seq<Pos>,
    i: int,
)
    requires
        wire_route(
            cleared(before, src, dest),
            ((src.0 + 1) as usize, src.1, src.2),
            ((dest.0 - 1) as usize, dest.1, dest.2),
            route,
        ),
        0 < i < route.len(),
    ensures
        route[i] == ((dest.0 - 1) as usize, dest.1, dest.2) || cleared(before, src, dest)(
            above(route[i]),
        ) is Empty,
{
    let open = cleared(before, src, dest);
    let goal = ((dest.0 - 1) as usize, dest.1, dest.2);
    let from = route[i - 1];
    let k = choose|k: int|
        0 <= k < wire_moves(open, from, goal).len() && (#[trigger] wire_moves(open, from, goal)[k]).0
            == route[i - 1 + 1];
    let base = base_moves(open, from);
    lemma_move_to(base, goal);
    if move_to(base, goal) >= base.len() {
        let keep = |c: (Pos, i64)| admissible(open, c.0);
        broadcast use vstd::seq_lib::group_filter_ensures;

        assert(keep(base.filter(keep)[k]));
    }
}

/// A wire outside the stubs is not the cell above the cell in front of the
/// destination, nor the cell above a cell whose upper neighbour is empty
/// once the stubs are cleared.
proof fn lemma_resting_clear(
    before: spec_fn(Pos) -> SpaceCell,
    src: Pos,
    dest: Pos,
    c: Pos,
    q: Pos,
)
    requires
        ends_in_reach(src, dest),
        stubs_free(before, src, dest),
        q != src,
        before(q) == SpaceCell::Used(SpaceBlock::Redstone),
        c == ((dest.0 - 1) as usize, dest.1, dest.2) || cleared(before, src, dest)(above(c)) is Empty,
    ensures
        above(c) != q,
        cleared(before, src, dest)(q) == before(q),
{
    let goal = ((dest.0 - 1) as usize, dest.1, dest.2);
    assert(!in_stub(src, dest, q));
    if c == goal {
        assert(in_stub(src, dest, above(goal)));
    }
}

/// No cell of the wire of an edge lies directly below a wire that lay off
/// its path before, given that none lay above the two ports and above the
/// cell in front of the source, and that the stubs held no block.
proof fn lemma_old_wire_clear(
    before: spec_fn(Pos) -> SpaceCell,
    src: Pos,
    dest: Pos,
    route: Seq<Pos>,
    q: Pos,
    i: int,
)
    requires
        ends_in_reach(src, dest),
        before(above(src)) != SpaceCell::Used(SpaceBlock::Redstone),
        before(above(dest)) != SpaceCell::Used(SpaceBlock::Redstone),
        before(above(((src.0 + 1) as usize, src.1, src.2))) != SpaceCell::Used(SpaceBlock::Redstone),
        stubs_free(before, src, dest),
        wire_route(
            cleared(before, src, dest),
            ((src.0 + 1) as usize, src.1, src.2),
            ((dest.0 - 1) as usize, dest.1, dest.2),
            route,
        ),
        q != src,
        before(q) == SpaceCell::Used(SpaceBlock::Redstone),
        0 <= i < route.len() + 2,
    ensures
        above((seq![src] + route + seq![dest])[i]) != q,
{
    let full = seq![src] + route + seq![dest];
    if i == 0 {
        assert(full[0] == src);
    } else if i == route.len() + 1 {
        assert(full[i] == dest);
    } else {
        assert(full[i] == route[i - 1]);
        if i - 1 > 0 {
            lemma_route_cell_rests(before, src, dest, route, i - 1);
            lemma_resting_clear(before, src, dest, route[i - 1], q);
        } else {
            assert(route[0] == ((src.0 + 1) as usize, src.1, src.2));
        }
    }
}

/// Whether every address that holds a wire in `before` holds one in
/// `after`.
pub open spec fn wires_kept(before: spec_fn(Pos) -> SpaceCell, after: spec_fn(Pos) -> SpaceCell) -> bool {
    forall|q: Pos|
        #[trigger] before(q) == SpaceCell::Used(SpaceBlock::Redstone) ==> after(q)
            == SpaceCell::Used(SpaceBlock::Redstone)
}

/// A wire laid tidily along a route keeps every wire that lay before.
proof fn lemma_tidy_route_keeps_wires(
    before: spec_fn(Pos) -> SpaceCell,
    after: spec_fn(Pos) -> SpaceCell,
    src: Pos,
    dest: Pos,
    route: Seq<Pos>,
)
    requires
        ends_in_reach(src, dest),
        before(above(src)) != SpaceCell::Used(SpaceBlock::Redstone),
        before(above(dest)) != SpaceCell::Used(SpaceBlock::Redstone),
        before(above(((src.0 + 1) as usize, src.1, src.2))) != SpaceCell::Used(SpaceBlock::Redstone),
        stubs_free(before, src, dest),
        wire_route(
            cleared(before, src, dest),
            ((src.0 + 1) as usize, src.1, src.2),
            ((dest.0 - 1) as usize, dest.1, dest.2),
            route,
        ),
        no_stacking(seq![src] + route + seq![dest]),
        forall|q: Pos|
            #[trigger] after(q) == wired(
                seq![src] + route + seq![dest],
                cleared(before, src, dest)(q),
                q,
            ),
    ensures
        wires_kept(before, after),
{
    let open = cleared(before, src, dest);
    let start = ((src.0 + 1) as usize, src.1, src.2);
    let goal = ((dest.0 - 1) as usize, dest.1, dest.2);
    let path = seq![src] + route + seq![dest];
    let wire = SpaceCell::Used(SpaceBlock::Redstone);
    assert forall|i: int| 0 <= i < path.len() implies routable(#[trigger] path[i]) by {
        if 1 <= i <= route.len() {
            assert(path[i] == route[i - 1]);
            lemma_route_routable(open, start, goal, route, i - 1);
        }
    }
    assert forall|q: Pos| #[trigger] before(q) == wire implies after(q) == wire by {
        if path.contains(q) {
            let i = choose|i: int| 0 <= i < path.len() && path[i] == q;
            lemma_wire_has_substrate(path, i, open(q), SpaceCell::Empty);
        } else {
            assert(path[0] == src);
            assert forall|i: int| 0 <= i < path.len() implies above(#[trigger] path[i]) != q by {
                lemma_old_wire_clear(before, src, dest, route, q, i);
            }
            assert(!in_stub(src, dest, q));
            assert(open(q) == before(q));
            lemma_wired_keeps_wire(path, q);
        }
    }
}

/// Routing an edge tidily keeps every wire on its solid block, keeps every
/// wire that lay before, and joins the two ports of the edge.
pub proof fn lemma_tidy_edge(
    before: spec_fn(Pos) -> SpaceCell,
    after: spec_fn(Pos) -> SpaceCell,
    edge: Edge,
    nodes: Seq<PlacedNode>,
)
    requires
        substrates_hold(before),
        edge_outcome(before, after, edge, nodes, Ok::<(), RouteError>(())),
        tidy(before, edge, nodes),
    ensures
        substrates_hold(after),
        wires_kept(before, after),
        edge_ends(edge, nodes) matches Ok(ends) && joined(after, ends.0, ends.1),
{
    let (src, dest) = edge_ends(edge, nodes)->Ok_0;
    let open = cleared(before, src, dest);
    let start = ((src.0 + 1) as usize, src.1, src.2);
    let goal = ((dest.0 - 1) as usize, dest.1, dest.2);
    let route = choose|route: Seq<Pos>| #[trigger]
        wire_route(open, start, goal, route) && cheapest_wire_route(open, start, goal, route)
            && forall|q: Pos|
            #[trigger] after(q) == wired(seq![src] + route + seq![dest], open(q), q);
    assert(no_stacking(seq![src] + route + seq![dest]));
    assert(before(above(src)) == SpaceCell::Used(SpaceBlock::SolidBlock));
    assert(before(above(dest)) == SpaceCell::Used(SpaceBlock::SolidBlock));
    lemma_routed_edge_keeps_substrates(before, after, src, dest, route);
    lemma_routed_edge_joins(open, after, src, dest, route);
    lemma_tidy_route_keeps_wires(before, after, src, dest, route);
}

/// Wires that are kept keep what they join.
pub proof fn lemma_joined_kept(
    before: spec_fn(Pos) -> SpaceCell,
    after: spec_fn(Pos) -> SpaceCell,
    a: Pos,
    b: Pos,
)
    requires
        joined(before, a, b),
        wires_kept(before, after),
    ensures
        joined(after, a, b),
{
    let chain = choose|chain: Seq<Pos>| #[trigger] joins(before, chain, a, b);
    assert forall|i: int| 0 <= i < chain.len() implies after(#[trigger] chain[i])
        == SpaceCell::Used(SpaceBlock::Redstone) by {
        assert(before(chain[i]) == SpaceCell::Used(SpaceBlock::Redstone));
    }
    assert(joins(after, chain, a, b));
}

/// Whether every edge of a routing is routed tidily on the grid that it
/// finds.
pub open spec fn tidy_trace(
    states: Seq<spec_fn(Pos) -> SpaceCell>,
    edges: Seq<Edge>,
    nodes: Seq<PlacedNode>,
) -> bool {
    forall|i: int| 0 <= i < edges.len() ==> tidy(states[i], #[trigger] edges[i], nodes)
}

/// Whether `states` are the stages of a tidy routing of `edges` that
/// starts with every wire on its solid block.
#[verifier::opaque]
pub open spec fn tidy_run(
    states: Seq<spec_fn(Pos) -> SpaceCell>,
    edges: Seq<Edge>,
    nodes: Seq<PlacedNode>,
) -> bool {
    &&& states.len() == edges.len() + 1
    &&& substrates_hold(states[0])
    &&& tidy_trace(states, edges, nodes)
    &&& forall|i: int|
        0 <= i < edges.len() ==> edge_outcome(
            states[i],
            states[i + 1],
            #[trigger] edges[i],
            nodes,
            Ok(()),
        )
}

/// Through a tidy routing every wire rests on its solid block at every
/// stage.
proof fn lemma_tidy_stage_substrates(
    states: Seq<spec_fn(Pos) -> SpaceCell>,
    edges: Seq<Edge>,
    nodes: Seq<PlacedNode>,
    upto: int,
)
    requires
        tidy_run(states, edges, nodes),
        0 <= upto <= edges.len(),
    ensures
        substrates_hold(states[upto]),
    decreases upto,
{
    reveal(tidy_run);
    if upto > 0 {
        lemma_tidy_stage_substrates(states, edges, nodes, upto - 1);
        assert(edge_outcome(
            states[upto - 1],
            states[upto - 1 + 1],
            edges[upto - 1],
            nodes,
            Ok::<(), RouteError>(()),
        ));
        assert(tidy(states[upto - 1], edges[upto - 1], nodes));
        lemma_tidy_edge(states[upto - 1], states[upto], edges[upto - 1], nodes);
    }
}

/// Each step of a tidy routing keeps the wires that lay before and joins
/// the ports of its edge.
proof fn lemma_tidy_step(
    states: Seq<spec_fn(Pos) -> SpaceCell>,
    edges: Seq<Edge>,
    nodes: Seq<PlacedNode>,
    i: int,
)
    requires
        tidy_run(states, edges, nodes),
        0 <= i < edges.len(),
    ensures
        wires_kept(states[i], states[i + 1]),
        edge_ends(edges[i], nodes) matches Ok(ends) && joined(states[i + 1], ends.0, ends.1),
{
    lemma_tidy_stage_substrates(states, edges, nodes, i);
    reveal(tidy_run);
    assert(edge_outcome(states[i], states[i + 1], edges[i], nodes, Ok::<(), RouteError>(())));
    assert(tidy(states[i], edges[i], nodes));
    lemma_tidy_edge(states[i], states[i + 1], edges[i], nodes);
}

/// Through a tidy routing the ports of an edge are joined at every stage
/// after the edge was routed.
proof fn lemma_tidy_stage_joins(
    states: Seq<spec_fn(Pos) -> SpaceCell>,
    edges: Seq<Edge>,
    nodes: Seq<PlacedNode>,
    k: int,
    upto: int,
)
    requires
        tidy_run(states, edges, nodes),
        0 <= k < upto <= edges.len(),
    ensures
        edge_ends(edges[k], nodes) matches Ok(ends) && joined(states[upto], ends.0, ends.1),
    decreases upto,
{
    if upto - 1 > k {
        lemma_tidy_stage_joins(states, edges, nodes, k, upto - 1);
        lemma_tidy_step(states, edges, nodes, upto - 1);
        let ends = edge_ends(edges[k], nodes)->Ok_0;
        lemma_joined_kept(states[upto - 1], states[upto - 1 + 1], ends.0, ends.1);
    } else {
        lemma_tidy_step(states, edges, nodes, k);
    }
}

/// After a tidy routing of all edges every wire rests on its solid block,
/// and wires join the two ports of every edge.
pub proof fn lemma_tidy_routing(
    states: Seq<spec_fn(Pos) -> SpaceCell>,
    before: spec_fn(Pos) -> SpaceCell,
    after: spec_fn(Pos) -> SpaceCell,
    edges: Seq<Edge>,
    nodes: Seq<PlacedNode>,
)
    requires
        traces(states, before, after, edges, nodes),
        tidy_trace(states, edges, nodes),
        substrates_hold(before),
    ensures
        substrates_hold(after),
        forall|k: int|
            0 <= k < edges.len() ==> (edge_ends(#[trigger] edges[k], nodes) matches Ok(ends)
                && joined(after, ends.0, ends.1)),
{
    assert(tidy_run(states, edges, nodes)) by {
        reveal(tidy_run);
    }
    lemma_tidy_stage_substrates(states, edges, nodes, edges.len() as int);
    assert forall|k: int| 0 <= k < edges.len() implies (edge_ends(
        #[trigger] edges[k],
        nodes,
    ) matches Ok(ends) && joined(after, ends.0, ends.1)) by {
        lemma_tidy_stage_joins(states, edges, nodes, k, edges.len() as int);
    }
}

/// Routes every edge of `graph`, in edge order, and stops at the first that
/// fails.
pub fn connect_nodes(space: &mut Space, graph: &Graph, placed_nodes: &Vec<PlacedNode>) -> (result:
    Result<(), RouteError>)
    ensures
        result is Ok ==> all_routed(
            old(space).grid(),
            final(space).grid(),
            graph.edges@,
            placed_nodes@,
        ),
        result matches Err(e) ==> exists|k: int, mid: spec_fn(Pos) -> SpaceCell|
            0 <= k < graph.edges@.len() && #[trigger] all_routed(
                old(space).grid(),
                mid,
                graph.edges@.take(k),
                placed_nodes@,
            ) && edge_outcome(
                mid,
                final(space).grid(),
                graph.edges@[k],
                placed_nodes@,
                Err::<(), RouteError>(e),
            ),
{
    let mut i: usize = 0;
    let ghost mut states: Seq<spec_fn(Pos) -> SpaceCell> = seq![space.grid()];
    while i < graph.edges.len()
        invariant
            0 <= i <= graph.edges.len(),
            traces(
                states,
                old(space).grid(),
                space.grid(),
                graph.edges@.take(i as int),
                placed_nodes@,
            ),
        decreases graph.edges.len() - i,
    {
        let ghost mid = space.grid();
        let result = place_edge(space, &graph.edges[i], placed_nodes);
        match result {
            Ok(()) => {
                proof {
                    let done = graph.edges@.take(i as int);
                    let next = graph.edges@.take(i + 1);
                    let longer = states.push(space.grid());
                    assert forall|k: int| 0 <= k < next.len() implies edge_outcome(
                        longer[k],
                        longer[k + 1],
                        #[trigger] next[k],
                        placed_nodes@,
                        Ok(()),
                    ) by {
                        if k < i {
                            assert(done[k] == next[k]);
                            assert(longer[k] == states[k]);
                            assert(longer[k + 1] == states[k + 1]);
                        }
                    }
                    states = longer;
                }
            },
            Err(e) => {
                proof {
                    assert(all_routed(
                        old(space).grid(),
                        mid,
                        graph.edges@.take(i as int),
                        placed_nodes@,
                    ));
                }
                return Err(e);
            },
        }
        i += 1;
    }
    proof {
        assert(graph.edges@.take(i as int) =~= graph.edges@);
    }
    Ok(())
}

} // verus!
