//! The column sweep: nodes are placed in columns of increasing x, each
//! column holding the nodes whose predecessors all lie in earlier columns.

use vstd::prelude::*;

use crate::backend::connect_nodes::{
    all_routed, connect_nodes, edge_ends, edge_outcome, joined, lemma_tidy_routing, tidy_trace,
    traces, RouteError,
};
use crate::backend::placement::{
    covers_cell, describes, lemma_macro_within_bounds, lemma_placed_covered,
    lemma_placed_elsewhere, macro_pieces, macro_size, piece_pos, place_node, placeable, placed_cell,
};
use crate::backend::space::Space;
use crate::backend::{
    above, substrates_hold, PlacedNode, Pos, SpaceBlock, SpaceCell, COLUMN_SPACING, RESERVE_SPACE,
};
use crate::graph::general::{
    acyclic, first_with_id, has_id, lemma_first_with_id, pred_ids, respects,
};
use crate::graph::normalized::{BuiltinOp, Edge, Graph, Node, NodeType};

verus! {

/// The layer on which every macro is anchored; the layers before it in
/// storage order leave wires room to climb.
pub const BASE_LAYER: usize = 8;

/// The free rows between two macros of one column.
pub const ROW_SPACING: usize = 5;

/// A row of the working table of the sweep: a node's id and the ids of the
/// predecessors of it that are not placed yet.
pub type Waiting = (u32, Seq<u32>);

/// The table that the sweep starts from: every node with the ids of all its
/// predecessors.
pub open spec fn pred_table(nodes: Seq<Node>, edges: Seq<Edge>) -> Seq<Waiting> {
    Seq::new(nodes.len(), |i: int| (nodes[i].id, pred_ids(nodes, edges, nodes[i].id)))
}

/// The ids of the rows that wait for no predecessor, in table order.
pub open spec fn ready_ids(table: Seq<Waiting>) -> Seq<u32>
    decreases table.len(),
{
    if table.len() == 0 {
        Seq::empty()
    } else {
        let rest = ready_ids(table.drop_last());
        if table.last().1.len() == 0 {
            rest.push(table.last().0)
        } else {
            rest
        }
    }
}

/// The predecessors `preds` without those that `column` holds.
pub open spec fn still_waited_for(preds: Seq<u32>, column: Seq<u32>) -> Seq<u32>
    decreases preds.len(),
{
    if preds.len() == 0 {
        Seq::empty()
    } else {
        let rest = still_waited_for(preds.drop_last(), column);
        if column.contains(preds.last()) {
            rest
        } else {
            rest.push(preds.last())
        }
    }
}

/// The table once `column` has been placed: the rows that were not ready,
/// no longer waiting for any node of `column`.
pub open spec fn waiting_after(table: Seq<Waiting>, column: Seq<u32>) -> Seq<Waiting>
    decreases table.len(),
{
    if table.len() == 0 {
        Seq::empty()
    } else {
        let rest = waiting_after(table.drop_last(), column);
        if table.last().1.len() == 0 {
            rest
        } else {
            rest.push((table.last().0, still_waited_for(table.last().1, column)))
        }
    }
}

/// The table without its ready rows is as much shorter as there are ready
/// rows.
pub proof fn lemma_waiting_after_len(table: Seq<Waiting>, column: Seq<u32>)
    ensures
        waiting_after(table, column).len() + ready_ids(table).len() == table.len(),
    decreases table.len(),
{
    if table.len() > 0 {
        lemma_waiting_after_len(table.drop_last(), column);
    }
}

/// The kind of the first node of `nodes` with the id `id`.
pub open spec fn kind_of(nodes: Seq<Node>, id: u32) -> NodeType {
    nodes[first_with_id(nodes, id)].inner
}

/// The row in which the `k`-th node of `column` is anchored: row 1 for the
/// first, and for every other `ROW_SPACING` rows past the end of the one
/// before it.
pub open spec fn column_y(nodes: Seq<Node>, column: Seq<u32>, k: int) -> int
    decreases k,
{
    if k <= 0 {
        1
    } else {
        column_y(nodes, column, k - 1) + macro_size(kind_of(nodes, column[k - 1])).1 + ROW_SPACING
    }
}

/// The width of the widest macro among the nodes of `column`.
pub open spec fn column_width(nodes: Seq<Node>, column: Seq<u32>) -> int
    decreases column.len(),
{
    if column.len() == 0 {
        0
    } else {
        let rest = column_width(nodes, column.drop_last());
        let width = macro_size(kind_of(nodes, column.last())).0;
        if width > rest {
            width
        } else {
            rest
        }
    }
}

/// Where the nodes of `column` are anchored when the column starts at `x`.
pub open spec fn column_plan(nodes: Seq<Node>, column: Seq<u32>, x: int) -> Seq<
    ((int, int, int), u32),
> {
    Seq::new(
        column.len(),
        |k: int| ((x, column_y(nodes, column, k), BASE_LAYER as int), column[k]),
    )
}

/// Where every node of `table` is anchored, in the order of placement, when
/// the first column starts at `x`: the ready nodes form a column, and the
/// next column starts `COLUMN_SPACING` cells and two halos past the widest
/// macro of this one. Nodes that wait for each other in a circle are never
/// placed.
pub open spec fn plan(nodes: Seq<Node>, table: Seq<Waiting>, x: int) -> Seq<((int, int, int), u32)>
    decreases table.len(),
{
    let column = ready_ids(table);
    if column.len() == 0 {
        Seq::empty()
    } else {
        proof {
            lemma_waiting_after_len(table, column);
        }
        column_plan(nodes, column, x) + plan(
            nodes,
            waiting_after(table, column),
            x + column_width(nodes, column) + COLUMN_SPACING + 2 * RESERVE_SPACE,
        )
    }
}

/// Whether the sweep places every node of `table`: no nodes wait for each
/// other in a circle.
pub open spec fn sweep_ends(table: Seq<Waiting>) -> bool
    decreases table.len(),
{
    let column = ready_ids(table);
    if table.len() == 0 {
        true
    } else if column.len() == 0 {
        false
    } else {
        proof {
            lemma_waiting_after_len(table, column);
        }
        sweep_ends(waiting_after(table, column))
    }
}

/// Whether the macro for `kind` at `anchor` leaves room in the grid for its
/// halo, for the row below it and for the column after it.
pub open spec fn roomy(kind: NodeType, anchor: (int, int, int)) -> bool {
    &&& 0 <= anchor.0 && 0 <= anchor.1 && 0 <= anchor.2
    &&& anchor.0 + macro_size(kind).0 + COLUMN_SPACING + 2 * RESERVE_SPACE < usize::MAX
    &&& anchor.1 + macro_size(kind).1 + ROW_SPACING < usize::MAX
    &&& anchor.2 + 1 < usize::MAX
}

/// The address that `anchor` stands for.
pub open spec fn address(anchor: (int, int, int)) -> Pos {
    (anchor.0 as usize, anchor.1 as usize, anchor.2 as usize)
}

/// What address `q` holds once the nodes of `placing` are placed, first to
/// last, where it held `before`.
pub open spec fn placed_all(
    nodes: Seq<Node>,
    placing: Seq<((int, int, int), u32)>,
    before: SpaceCell,
    q: Pos,
) -> SpaceCell
    decreases placing.len(),
{
    if placing.len() == 0 {
        before
    } else {
        placed_cell(
            kind_of(nodes, placing.last().1),
            address(placing.last().0),
            placed_all(nodes, placing.drop_last(), before, q),
            q,
        )
    }
}

/// Whether `record` is the record of the node `entry.1` placed at
/// `entry.0`.
pub open spec fn records(nodes: Seq<Node>, record: PlacedNode, entry: ((int, int, int), u32)) -> bool {
    &&& record.0 == address(entry.0)
    &&& record.1 == entry.1
    &&& describes(record.2, kind_of(nodes, entry.1), record.0)
}

/// Why a graph could not be laid out.
#[derive(Debug, Clone, Copy, PartialEq, Eq, Structural)]
pub enum LayoutError {
    /// Some nodes wait for each other in a circle.
    Cyclic,
    /// The macro library has no macro for a node.
    Unplaceable,
    /// A macro would lie too close to the border of the grid.
    OutOfGrid,
    /// An edge could not be routed.
    Route(RouteError),
}

/// The working table as the rows that it stands for.
pub open spec fn rows(table: Seq<(u32, Vec<u32>)>) -> Seq<Waiting> {
    Seq::new(table.len(), |i: int| (table[i].0, table[i].1@))
}

/// The ids of the rows that wait for no predecessor, in table order.
fn ready(table: &Vec<(u32, Vec<u32>)>) -> (column: Vec<u32>)
    ensures
        column@ == ready_ids(rows(table@)),
{
    let mut column: Vec<u32> = Vec::new();
    let mut i: usize = 0;
    let ghost all = rows(table@);
    while i < table.len()
        invariant
            0 <= i <= table.len(),
            all == rows(table@),
            column@ == ready_ids(all.take(i as int)),
        decreases table.len() - i,
    {
        proof {
            assert(all.take(i + 1).drop_last() =~= all.take(i as int));
            assert(all.take(i + 1).last() == all[i as int]);
        }
        if table[i].1.len() == 0 {
            column.push(table[i].0);
        }
        i += 1;
    }
    proof {
        assert(all.take(i as int) =~= all);
    }
    column
}

/// The predecessors `preds` without those that `column` holds.
fn strike(preds: &Vec<u32>, column: &Vec<u32>) -> (left: Vec<u32>)
    ensures
        left@ == still_waited_for(preds@, column@),
{
    let mut left: Vec<u32> = Vec::new();
    let mut i: usize = 0;
    while i < preds.len()
        invariant
            0 <= i <= preds.len(),
            left@ == still_waited_for(preds@.take(i as int), column@),
        decreases preds.len() - i,
    {
        proof {
            assert(preds@.take(i + 1).drop_last() =~= preds@.take(i as int));
            assert(preds@.take(i + 1).last() == preds@[i as int]);
        }
        if !crate::graph::general::contains_id(column, preds[i]) {
            left.push(preds[i]);
        }
        i += 1;
    }
    proof {
        assert(preds@.take(i as int) =~= preds@);
    }
    left
}

/// The table once `column` has been placed.
fn advance(table: &Vec<(u32, Vec<u32>)>, column: &Vec<u32>) -> (next: Vec<(u32, Vec<u32>)>)
    ensures
        rows(next@) == waiting_after(rows(table@), column@),
{
    let mut next: Vec<(u32, Vec<u32>)> = Vec::new();
    let mut i: usize = 0;
    let ghost all = rows(table@);
    proof {
        assert(rows(next@) =~= Seq::<Waiting>::empty());
    }
    while i < table.len()
        invariant
            0 <= i <= table.len(),
            all == rows(table@),
            rows(next@) == waiting_after(all.take(i as int), column@),
        decreases table.len() - i,
    {
        proof {
            assert(all.take(i + 1).drop_last() =~= all.take(i as int));
            assert(all.take(i + 1).last() == all[i as int]);
        }
        let ghost before = rows(next@);
        if table[i].1.len() != 0 {
            let left = strike(&table[i].1, column);
            next.push((table[i].0, left));
            proof {
                assert(rows(next@) =~= before.push(
                    (all[i as int].0, still_waited_for(all[i as int].1, column@)),
                ));
            }
        }
        i += 1;
    }
    proof {
        assert(all.take(i as int) =~= all);
    }
    next
}

/// Whether `placed` and `grid` are what the sweep makes of the graph: every
/// node placed where the plan puts it, in the plan's order, on a grid that
/// was empty before.
pub open spec fn laid_out(
    nodes: Seq<Node>,
    edges: Seq<Edge>,
    grid: spec_fn(Pos) -> SpaceCell,
    placed: Seq<PlacedNode>,
) -> bool {
    let table = pred_table(nodes, edges);
    let all = plan(nodes, table, 1);
    &&& sweep_ends(table)
    &&& placed.len() == all.len()
    &&& forall|i: int|
        0 <= i < all.len() ==> has_id(nodes, (#[trigger] all[i]).1) && placeable(
            kind_of(nodes, all[i].1),
        ) && roomy(kind_of(nodes, all[i].1), all[i].0)
    &&& forall|i: int| 0 <= i < all.len() ==> records(nodes, #[trigger] placed[i], all[i])
    &&& forall|q: Pos| #[trigger] grid(q) == placed_all(nodes, all, SpaceCell::Empty, q)
}

/// Whether the sweep fails on the graph with `error`.
pub open spec fn sweep_fails(nodes: Seq<Node>, edges: Seq<Edge>, error: LayoutError) -> bool {
    let table = pred_table(nodes, edges);
    let all = plan(nodes, table, 1);
    match error {
        LayoutError::Cyclic => !sweep_ends(table),
        LayoutError::Unplaceable => exists|i: int|
            0 <= i < all.len() && !(has_id(nodes, (#[trigger] all[i]).1) && placeable(
                kind_of(nodes, all[i].1),
            )),
        LayoutError::OutOfGrid => exists|i: int|
            0 <= i < all.len() && !roomy(kind_of(nodes, (#[trigger] all[i]).1), all[i].0),
        LayoutError::Route(_) => false,
    }
}

/// Whether the macro library can place a node of this kind.
fn can_place(kind: &NodeType) -> (yes: bool)
    ensures
        yes == placeable(*kind),
{
    match kind {
        NodeType::Splitter { port_count } => *port_count >= 1,
        NodeType::Operation { op } => match op {
            BuiltinOp::Not => false,
            _ => true,
        },
        _ => true,
    }
}

/// Whether the macro for `kind` at `(x, y, BASE_LAYER)` leaves room in the
/// grid.
fn has_room(kind: &NodeType, x: usize, y: usize) -> (yes: bool)
    requires
        placeable(*kind),
    ensures
        yes == roomy(*kind, (x as int, y as int, BASE_LAYER as int)),
{
    let (width, depth): (u64, u64) = match kind {
        NodeType::Splitter { port_count } => (3, 2 * (*port_count as u64) - 1),
        NodeType::Operation { op } => match op {
            BuiltinOp::Xor => (7, 4),
            BuiltinOp::And => (5, 3),
            _ => (3, 3),
        },
        _ => (1, 1),
    };
    let limit = usize::MAX as u128;
    (x as u128) + (width as u128) + (COLUMN_SPACING as u128) + 2 * (RESERVE_SPACE as u128) < limit
        && (y as u128) + (depth as u128) + (ROW_SPACING as u128) < limit
}

/// Places every node of `graph` on an empty grid, column after column.
pub fn place_nodes(graph: &Graph) -> (result: Result<(Space, Vec<PlacedNode>), LayoutError>)
    ensures
        result matches Ok(done) ==> laid_out(graph.nodes@, graph.edges@, done.0.grid(), done.1@),
        result matches Ok(done) ==> substrates_hold(done.0.grid()),
        result matches Err(e) ==> sweep_fails(graph.nodes@, graph.edges@, e),
        acyclic(graph.edges@) ==> !(result matches Err(LayoutError::Cyclic)),
{
    proof {
        if acyclic(graph.edges@) {
            lemma_acyclic_sweep_ends(graph.nodes@, graph.edges@);
        }
    }
    let ghost nodes = graph.nodes@;
    let ghost first_table = pred_table(nodes, graph.edges@);
    let ghost all = plan(nodes, first_table, 1);
    let mut space = Space::new();
    let mut placed: Vec<PlacedNode> = Vec::new();
    let mut table = graph.nodes_with_predecessors();
    let mut x_offset: usize = 1;
    let ghost mut done: Seq<((int, int, int), u32)> = Seq::empty();
    proof {
        assert(rows(table@) =~= first_table);
        assert(done + plan(nodes, rows(table@), 1) =~= all);
    }
    while table.len() > 0
        invariant
            nodes == graph.nodes@,
            all == plan(nodes, pred_table(nodes, graph.edges@), 1),
            acyclic(graph.edges@) ==> sweep_ends(pred_table(nodes, graph.edges@)),
            sweep_ends(rows(table@)) == sweep_ends(pred_table(nodes, graph.edges@)),
            done + plan(nodes, rows(table@), x_offset as int) == all,
            placed@.len() == done.len(),
            forall|i: int|
                0 <= i < done.len() ==> has_id(nodes, (#[trigger] done[i]).1) && placeable(
                    kind_of(nodes, done[i].1),
                ) && roomy(kind_of(nodes, done[i].1), done[i].0),
            forall|i: int| 0 <= i < done.len() ==> records(nodes, #[trigger] placed@[i], done[i]),
            forall|q: Pos| space.at(q) == placed_all(nodes, done, SpaceCell::Empty, q),
        decreases table.len(),
    {
        let column = ready(&table);
        if column.len() == 0 {
            return Err(LayoutError::Cyclic);
        }
        let ghost before = done;
        let ghost here = column_plan(nodes, column@, x_offset as int);
        let ghost later = plan(
            nodes,
            waiting_after(rows(table@), column@),
            x_offset + column_width(nodes, column@) + COLUMN_SPACING + 2 * RESERVE_SPACE,
        );
        proof {
            assert(all == before + (here + later));
        }
        let mut y_offset: usize = 1;
        let mut max_width: usize = 0;
        let mut k: usize = 0;
        while k < column.len()
            invariant
                0 <= k <= column.len(),
                nodes == graph.nodes@,
                all == plan(nodes, pred_table(nodes, graph.edges@), 1),
                here == column_plan(nodes, column@, x_offset as int),
                all == before + (here + later),
                done == before + here.take(k as int),
                y_offset == column_y(nodes, column@, k as int),
                max_width == column_width(nodes, column@.take(k as int)),
                k > 0 ==> x_offset + max_width + COLUMN_SPACING + 2 * RESERVE_SPACE < usize::MAX,
                placed@.len() == done.len(),
                forall|i: int|
                    0 <= i < done.len() ==> has_id(nodes, (#[trigger] done[i]).1) && placeable(
                        kind_of(nodes, done[i].1),
                    ) && roomy(kind_of(nodes, done[i].1), done[i].0),
                forall|i: int|
                    0 <= i < done.len() ==> records(nodes, #[trigger] placed@[i], done[i]),
                forall|q: Pos| space.at(q) == placed_all(nodes, done, SpaceCell::Empty, q),
            decreases column.len() - k,
        {
            let id = column[k];
            let ghost entry = here[k as int];
            proof {
                assert(entry == ((x_offset as int, y_offset as int, BASE_LAYER as int), id));
                assert(all[before.len() + k] == entry);
                assert(column@.take(k + 1).drop_last() =~= column@.take(k as int));
                assert(column@.take(k + 1).last() == id);
                lemma_first_with_id(nodes, id);
            }
            let looked_up = graph.get_node(id);
            if looked_up.is_none() {
                proof {
                    let at = before.len() + k;
                    let total = plan(graph.nodes@, pred_table(graph.nodes@, graph.edges@), 1);
                    assert(0 <= at < total.len());
                    assert(!has_id(graph.nodes@, total[at].1));
                }
                return Err(LayoutError::Unplaceable);
            }
            let found = looked_up.unwrap();
            if !can_place(&found.inner) {
                proof {
                    let at = before.len() + k;
                    let total = plan(graph.nodes@, pred_table(graph.nodes@, graph.edges@), 1);
                    assert(0 <= at < total.len());
                    assert(!placeable(kind_of(graph.nodes@, total[at].1)));
                }
                return Err(LayoutError::Unplaceable);
            }
            if !has_room(&found.inner, x_offset, y_offset) {
                proof {
                    let at = before.len() + k;
                    let total = plan(graph.nodes@, pred_table(graph.nodes@, graph.edges@), 1);
                    assert(0 <= at < total.len());
                    assert(!roomy(kind_of(graph.nodes@, total[at].1), total[at].0));
                }
                return Err(LayoutError::OutOfGrid);
            }
            let node = Node::new(id, found.inner.clone());
            let (size, data) = place_node(&mut space, node, x_offset, y_offset, BASE_LAYER);
            placed.push(PlacedNode((x_offset, y_offset, BASE_LAYER), id, data));
            proof {
                let longer = before + here.take(k + 1);
                assert(longer =~= done.push(entry));
                assert(longer.drop_last() =~= done);
                assert(longer.last() == entry);
                done = longer;
            }
            y_offset = y_offset + size.1 + ROW_SPACING;
            if size.0 > max_width {
                max_width = size.0;
            }
            k += 1;
        }
        proof {
            assert(column@.take(k as int) =~= column@);
            assert(here.take(k as int) =~= here);
            lemma_waiting_after_len(rows(table@), column@);
            assert(before + here + later =~= before + (here + later));
        }
        table = advance(&table, &column);
        x_offset = x_offset + max_width + COLUMN_SPACING + 2 * RESERVE_SPACE;
    }
    proof {
        assert(plan(nodes, rows(table@), x_offset as int) =~= Seq::empty());
        assert(done =~= all);
        lemma_laid_out_substrates(graph.nodes@, graph.edges@, space.grid(), placed@);
    }
    Ok((space, placed))
}

/// Whether the rectangles that two placed macros cover in the plane lie
/// apart.
pub open spec fn apart(nodes: Seq<Node>, a: ((int, int, int), u32), b: ((int, int, int), u32)) -> bool {
    let size_a = macro_size(kind_of(nodes, a.1));
    let size_b = macro_size(kind_of(nodes, b.1));
    ||| a.0.0 + size_a.0 <= b.0.0
    ||| b.0.0 + size_b.0 <= a.0.0
    ||| a.0.1 + size_a.1 <= b.0.1
    ||| b.0.1 + size_b.1 <= a.0.1
}

/// Whether the macro library can place every node of `ids`.
pub open spec fn all_placeable(nodes: Seq<Node>, ids: Seq<u32>) -> bool {
    forall|k: int| 0 <= k < ids.len() ==> placeable(kind_of(nodes, #[trigger] ids[k]))
}

/// A placeable macro is at least one cell wide and deep.
proof fn lemma_macro_size_positive(kind: NodeType)
    requires
        placeable(kind),
    ensures
        macro_size(kind).0 >= 1,
        macro_size(kind).1 >= 1,
{
}

/// Within a column every macro ends before the next begins.
proof fn lemma_column_rows(nodes: Seq<Node>, column: Seq<u32>, k: int, l: int)
    requires
        all_placeable(nodes, column),
        0 <= k < l <= column.len(),
    ensures
        column_y(nodes, column, k) + macro_size(kind_of(nodes, column[k])).1 <= column_y(
            nodes,
            column,
            l,
        ),
        column_y(nodes, column, k) >= 1,
    decreases l,
{
    lemma_macro_size_positive(kind_of(nodes, column[l - 1]));
    if k < l - 1 {
        lemma_column_rows(nodes, column, k, l - 1);
    } else if k > 0 {
        lemma_column_rows(nodes, column, k - 1, k);
    }
}

/// No macro of a column is wider than the column.
proof fn lemma_column_width(nodes: Seq<Node>, column: Seq<u32>, k: int)
    requires
        0 <= k < column.len(),
    ensures
        macro_size(kind_of(nodes, column[k])).0 <= column_width(nodes, column),
        column_width(nodes, column) >= 0,
    decreases column.len(),
{
    if k < column.len() - 1 {
        lemma_column_width(nodes, column.drop_last(), k);
        assert(column.drop_last()[k] == column[k]);
    } else if column.len() > 1 {
        lemma_column_width(nodes, column.drop_last(), 0);
    }
}

/// The ids of a plan are those of the ready rows of its table and of the
/// tables that follow; every macro of a plan that starts at `x` is anchored
/// at `x` or beyond.
proof fn lemma_plan_starts(nodes: Seq<Node>, table: Seq<Waiting>, x: int, i: int)
    requires
        0 <= i < plan(nodes, table, x).len(),
    ensures
        plan(nodes, table, x)[i].0.0 >= x,
    decreases table.len(),
{
    let column = ready_ids(table);
    if column.len() > 0 {
        lemma_waiting_after_len(table, column);
        let here = column_plan(nodes, column, x);
        if i >= here.len() {
            lemma_column_width(nodes, column, 0);
            lemma_plan_starts(
                nodes,
                waiting_after(table, column),
                x + column_width(nodes, column) + COLUMN_SPACING + 2 * RESERVE_SPACE,
                i - here.len(),
            );
        }
    }
}

/// The rectangles of any two macros of a plan lie apart, provided that the
/// macro library can place every node of the plan.
pub proof fn lemma_plan_apart(nodes: Seq<Node>, table: Seq<Waiting>, x: int, i: int, j: int)
    requires
        0 <= i < j < plan(nodes, table, x).len(),
        forall|k: int|
            0 <= k < plan(nodes, table, x).len() ==> placeable(
                kind_of(nodes, (#[trigger] plan(nodes, table, x)[k]).1),
            ),
    ensures
        apart(nodes, plan(nodes, table, x)[i], plan(nodes, table, x)[j]),
    decreases table.len(),
{
    let column = ready_ids(table);
    let all = plan(nodes, table, x);
    if column.len() > 0 {
        lemma_waiting_after_len(table, column);
        let here = column_plan(nodes, column, x);
        let next_x = x + column_width(nodes, column) + COLUMN_SPACING + 2 * RESERVE_SPACE;
        let later = plan(nodes, waiting_after(table, column), next_x);
        assert(all == here + later);
        assert forall|k: int| 0 <= k < column.len() implies placeable(
            kind_of(nodes, #[trigger] column[k]),
        ) by {
            assert(all[k] == here[k]);
        }
        if j < here.len() {
            assert(all[i] == here[i] && all[j] == here[j]);
            lemma_column_rows(nodes, column, i, j);
        } else if i < here.len() {
            assert(all[i] == here[i]);
            assert(all[j] == later[j - here.len()]);
            lemma_column_width(nodes, column, i);
            lemma_plan_starts(nodes, waiting_after(table, column), next_x, j - here.len());
        } else {
            assert forall|k: int| 0 <= k < later.len() implies placeable(
                kind_of(nodes, (#[trigger] later[k]).1),
            ) by {
                assert(all[k + here.len()] == later[k]);
            }
            assert(all[i] == later[i - here.len()]);
            assert(all[j] == later[j - here.len()]);
            lemma_plan_apart(
                nodes,
                waiting_after(table, column),
                next_x,
                i - here.len(),
                j - here.len(),
            );
        }
    }
}

/// No two macros of a plan stamp the same address: a block or a substrate
/// of one never lies where a block or a substrate of the other lies.
pub proof fn lemma_macros_disjoint(
    nodes: Seq<Node>,
    table: Seq<Waiting>,
    i: int,
    j: int,
    m: int,
    n: int,
)
    requires
        0 <= i < j < plan(nodes, table, 1).len(),
        forall|k: int|
            0 <= k < plan(nodes, table, 1).len() ==> placeable(
                kind_of(nodes, (#[trigger] plan(nodes, table, 1)[k]).1),
            ),
        0 <= m < macro_pieces(kind_of(nodes, plan(nodes, table, 1)[i].1)).len(),
        0 <= n < macro_pieces(kind_of(nodes, plan(nodes, table, 1)[j].1)).len(),
    ensures
        ({
            let a = plan(nodes, table, 1)[i];
            let b = plan(nodes, table, 1)[j];
            let piece_a = macro_pieces(kind_of(nodes, a.1))[m];
            let piece_b = macro_pieces(kind_of(nodes, b.1))[n];
            a.0.0 + piece_a.dx != b.0.0 + piece_b.dx || a.0.1 + piece_a.dy != b.0.1 + piece_b.dy
        }),
{
    let a = plan(nodes, table, 1)[i];
    let b = plan(nodes, table, 1)[j];
    lemma_plan_apart(nodes, table, 1, i, j);
    lemma_macro_within_bounds(kind_of(nodes, a.1), m);
    lemma_macro_within_bounds(kind_of(nodes, b.1), n);
}

/// Whether the macro library can place every node of `placing` where the
/// plan puts it.
pub open spec fn all_placed_well(nodes: Seq<Node>, placing: Seq<((int, int, int), u32)>) -> bool {
    forall|i: int|
        0 <= i < placing.len() ==> placeable(kind_of(nodes, (#[trigger] placing[i]).1)) && roomy(
            kind_of(nodes, placing[i].1),
            placing[i].0,
        )
}

/// Whether the macro of the `j`-th node of `placing` covers `q`.
pub open spec fn covered_by(
    nodes: Seq<Node>,
    placing: Seq<((int, int, int), u32)>,
    j: int,
    q: Pos,
) -> bool {
    covers_cell(macro_pieces(kind_of(nodes, placing[j].1)), address(placing[j].0), q)
}

/// On a grid that was empty, every block lies where a macro covers.
proof fn lemma_blocks_are_covered(nodes: Seq<Node>, placing: Seq<((int, int, int), u32)>, q: Pos)
    requires
        placed_all(nodes, placing, SpaceCell::Empty, q) is Used,
    ensures
        exists|j: int| 0 <= j < placing.len() && #[trigger] covered_by(nodes, placing, j, q),
    decreases placing.len(),
{
    if placing.len() > 0 {
        let rest = placing.drop_last();
        let last = placing.last();
        let kind = kind_of(nodes, last.1);
        if covers_cell(macro_pieces(kind), address(last.0), q) {
            assert(covered_by(nodes, placing, placing.len() - 1, q));
        } else {
            lemma_placed_elsewhere(
                kind,
                address(last.0),
                placed_all(nodes, rest, SpaceCell::Empty, q),
                q,
            );
            lemma_blocks_are_covered(nodes, rest, q);
            let j = choose|j: int| 0 <= j < rest.len() && #[trigger] covered_by(nodes, rest, j, q);
            assert(rest[j] == placing[j]);
            assert(covered_by(nodes, placing, j, q));
        }
    }
}

/// No two macros of a plan cover the same address.
proof fn lemma_covers_apart(nodes: Seq<Node>, table: Seq<Waiting>, i: int, j: int, q: Pos)
    requires
        0 <= i < j < plan(nodes, table, 1).len(),
        all_placed_well(nodes, plan(nodes, table, 1)),
        covered_by(nodes, plan(nodes, table, 1), i, q),
    ensures
        !covered_by(nodes, plan(nodes, table, 1), j, q),
{
    let all = plan(nodes, table, 1);
    if covered_by(nodes, all, j, q) {
        let pa = macro_pieces(kind_of(nodes, all[i].1));
        let pb = macro_pieces(kind_of(nodes, all[j].1));
        let m = choose|m: int|
            0 <= m < pa.len() && (q == piece_pos(#[trigger] pa[m], address(all[i].0)) || (
            pa[m].substrate && q == above(piece_pos(pa[m], address(all[i].0)))));
        let n = choose|n: int|
            0 <= n < pb.len() && (q == piece_pos(#[trigger] pb[n], address(all[j].0)) || (
            pb[n].substrate && q == above(piece_pos(pb[n], address(all[j].0)))));
        lemma_macros_disjoint(nodes, table, i, j, m, n);
        lemma_macro_within_bounds(kind_of(nodes, all[i].1), m);
        lemma_macro_within_bounds(kind_of(nodes, all[j].1), n);
    }
}

/// Once the first `upto` macros of a plan are placed on an empty grid,
/// every wire rests on a solid block.
proof fn lemma_placed_substrates(nodes: Seq<Node>, table: Seq<Waiting>, upto: int)
    requires
        0 <= upto <= plan(nodes, table, 1).len(),
        all_placed_well(nodes, plan(nodes, table, 1)),
    ensures
        substrates_hold(
            |q: Pos| placed_all(nodes, plan(nodes, table, 1).take(upto), SpaceCell::Empty, q),
        ),
    decreases upto,
{
    let all = plan(nodes, table, 1);
    let wire = SpaceCell::Used(SpaceBlock::Redstone);
    let solid = SpaceCell::Used(SpaceBlock::SolidBlock);
    if upto > 0 {
        lemma_placed_substrates(nodes, table, upto - 1);
        let now = all.take(upto);
        let rest = all.take(upto - 1);
        let last = all[upto - 1];
        let kind = kind_of(nodes, last.1);
        let anchor = address(last.0);
        let earlier = |q: Pos| placed_all(nodes, rest, SpaceCell::Empty, q);
        assert(now.drop_last() =~= rest);
        assert(now.last() == last);
        assert(placeable(kind) && roomy(kind, last.0));
        assert forall|q: Pos|
            q.2 < usize::MAX && (#[trigger] placed_all(nodes, now, SpaceCell::Empty, q))
                == wire implies placed_all(nodes, now, SpaceCell::Empty, above(q)) == solid by {
            let before = earlier(q);
            let over = earlier(above(q));
            if covers_cell(macro_pieces(kind), anchor, q) {
                lemma_placed_covered(kind, anchor, before, over, q);
            } else {
                lemma_placed_elsewhere(kind, anchor, before, q);
                assert(earlier(q) == wire);
                assert(earlier(above(q)) == solid);
                if covers_cell(macro_pieces(kind), anchor, above(q)) {
                    lemma_blocks_are_covered(nodes, rest, above(q));
                    let j = choose|j: int|
                        0 <= j < rest.len() && #[trigger] covered_by(nodes, rest, j, above(q));
                    assert(rest[j] == all[j]);
                    assert(covered_by(nodes, all, j, above(q)));
                    lemma_covers_apart(nodes, table, j, upto - 1, above(q));
                } else {
                    lemma_placed_elsewhere(kind, anchor, over, above(q));
                }
            }
        }
    }
}

/// Once the nodes of a graph are placed, every wire rests on a solid
/// block.
pub proof fn lemma_laid_out_substrates(
    nodes: Seq<Node>,
    edges: Seq<Edge>,
    grid: spec_fn(Pos) -> SpaceCell,
    placed: Seq<PlacedNode>,
)
    requires
        laid_out(nodes, edges, grid, placed),
    ensures
        substrates_hold(grid),
{
    let table = pred_table(nodes, edges);
    let all = plan(nodes, table, 1);
    lemma_placed_substrates(nodes, table, all.len() as int);
    assert(all.take(all.len() as int) =~= all);
    assert forall|q: Pos|
        q.2 < usize::MAX && #[trigger] grid(q) == SpaceCell::Used(
            SpaceBlock::Redstone,
        ) implies grid(above(q)) == SpaceCell::Used(SpaceBlock::SolidBlock) by {
        let placed_grid = |q: Pos| placed_all(nodes, all.take(all.len() as int), SpaceCell::Empty, q);
        assert(grid(q) == placed_grid(q));
        assert(grid(above(q)) == placed_grid(above(q)));
    }
}

/// Whether `table` has a row for the node `id`.
pub open spec fn has_row(table: Seq<Waiting>, id: u32) -> bool {
    exists|j: int| 0 <= j < table.len() && (#[trigger] table[j]).0 == id
}

/// Whether every row waits only for rows of the table, and only for rows
/// of lower rank than its own.
pub open spec fn ranked_rows(table: Seq<Waiting>, rank: spec_fn(u32) -> int) -> bool {
    forall|i: int, k: int|
        0 <= i < table.len() && 0 <= k < table[i].1.len() ==> rank((#[trigger] table[i].1[k]))
            < rank(table[i].0) && has_row(table, table[i].1[k])
}

/// The predecessors of a node are sources of edges into it.
proof fn lemma_pred_ids(nodes: Seq<Node>, edges: Seq<Edge>, target: u32, k: int)
    requires
        0 <= k < pred_ids(nodes, edges, target).len(),
    ensures
        has_id(nodes, pred_ids(nodes, edges, target)[k]),
        exists|i: int|
            0 <= i < edges.len() && (#[trigger] edges[i]).dest_id == target && edges[i].src_id
                == pred_ids(nodes, edges, target)[k],
    decreases edges.len(),
{
    if edges.len() > 0 {
        let rest = pred_ids(nodes, edges.drop_last(), target);
        if k < rest.len() {
            lemma_pred_ids(nodes, edges.drop_last(), target, k);
            let i = choose|i: int|
                0 <= i < edges.drop_last().len() && (#[trigger] edges.drop_last()[i]).dest_id
                    == target && edges.drop_last()[i].src_id == rest[k];
            assert(edges[i] == edges.drop_last()[i]);
        } else {
            assert(edges[edges.len() - 1] == edges.last());
        }
    }
}

/// In the table of a graph without a cycle, every row waits only for rows
/// of lower rank.
proof fn lemma_pred_table_ranked(nodes: Seq<Node>, edges: Seq<Edge>, rank: spec_fn(u32) -> int)
    requires
        respects(edges, rank),
    ensures
        ranked_rows(pred_table(nodes, edges), rank),
{
    let table = pred_table(nodes, edges);
    assert forall|i: int, k: int|
        0 <= i < table.len() && 0 <= k < table[i].1.len() implies rank((#[trigger] table[i].1[k]))
        < rank(table[i].0) && has_row(table, table[i].1[k]) by {
        let target = nodes[i].id;
        lemma_pred_ids(nodes, edges, target, k);
        let p = table[i].1[k];
        let e = choose|e: int|
            0 <= e < edges.len() && (#[trigger] edges[e]).dest_id == target && edges[e].src_id == p;
        assert(rank(edges[e].src_id) < rank(edges[e].dest_id));
        let j = choose|j: int| 0 <= j < nodes.len() && (#[trigger] nodes[j]).id == p;
        assert(table[j].0 == p);
    }
}

/// The id of every row that waits for nothing is a ready id.
proof fn lemma_ready_ids(table: Seq<Waiting>, i: int)
    requires
        0 <= i < table.len(),
        table[i].1.len() == 0,
    ensures
        ready_ids(table).contains(table[i].0),
    decreases table.len(),
{
    let rest = table.drop_last();
    let all = ready_ids(table);
    if i < rest.len() {
        assert(rest[i] == table[i]);
        lemma_ready_ids(rest, i);
        let fewer = ready_ids(rest);
        let k = choose|k: int| 0 <= k < fewer.len() && fewer[k] == rest[i].0;
        assert(all[k] == fewer[k]);
    } else {
        assert(all[all.len() - 1] == table[i].0);
    }
}

/// What is still waited for was waited for before and is not in the
/// column.
proof fn lemma_still_waited_for(preds: Seq<u32>, column: Seq<u32>, k: int)
    requires
        0 <= k < still_waited_for(preds, column).len(),
    ensures
        !column.contains(still_waited_for(preds, column)[k]),
        preds.contains(still_waited_for(preds, column)[k]),
    decreases preds.len(),
{
    if preds.len() > 0 {
        let rest = still_waited_for(preds.drop_last(), column);
        if k < rest.len() {
            lemma_still_waited_for(preds.drop_last(), column, k);
            let i = choose|i: int| 0 <= i < preds.drop_last().len() && preds.drop_last()[i] == rest[k];
            assert(preds[i] == rest[k]);
        } else {
            assert(preds[preds.len() - 1] == preds.last());
        }
    }
}

/// A row that was not ready has a row after the column.
proof fn lemma_waiting_row_stays(table: Seq<Waiting>, column: Seq<u32>, i: int)
    requires
        0 <= i < table.len(),
        table[i].1.len() > 0,
    ensures
        has_row(waiting_after(table, column), table[i].0),
    decreases table.len(),
{
    let rest = table.drop_last();
    let all = waiting_after(table, column);
    if i < rest.len() {
        assert(rest[i] == table[i]);
        lemma_waiting_row_stays(rest, column, i);
        let fewer = waiting_after(rest, column);
        let j = choose|j: int| 0 <= j < fewer.len() && (#[trigger] fewer[j]).0 == rest[i].0;
        assert(all[j] == fewer[j]);
    } else {
        assert(all[all.len() - 1].0 == table[i].0);
    }
}

/// The row from which a row after the column comes.
proof fn lemma_waiting_row_comes(table: Seq<Waiting>, column: Seq<u32>, j: int) -> (i: int)
    requires
        0 <= j < waiting_after(table, column).len(),
    ensures
        0 <= i < table.len(),
        table[i].1.len() > 0,
        waiting_after(table, column)[j] == (table[i].0, still_waited_for(table[i].1, column)),
    decreases table.len(),
{
    let rest = table.drop_last();
    let fewer = waiting_after(rest, column);
    if j < fewer.len() {
        let i = lemma_waiting_row_comes(rest, column, j);
        assert(table[i] == rest[i]);
        i
    } else {
        table.len() - 1
    }
}

/// Index of a row of the lowest rank.
pub open spec fn lowest_row(table: Seq<Waiting>, rank: spec_fn(u32) -> int) -> int
    decreases table.len(),
{
    if table.len() <= 1 {
        0
    } else {
        let rest = lowest_row(table.drop_last(), rank);
        if rank(table.last().0) < rank(table[rest].0) {
            table.len() - 1
        } else {
            rest
        }
    }
}

/// No row ranks lower than the row of the lowest rank.
proof fn lemma_lowest_row(table: Seq<Waiting>, rank: spec_fn(u32) -> int, i: int)
    requires
        0 <= i < table.len(),
    ensures
        0 <= lowest_row(table, rank) < table.len(),
        rank(table[lowest_row(table, rank)].0) <= rank(table[i].0),
    decreases table.len(),
{
    if table.len() > 1 {
        let rest = table.drop_last();
        lemma_lowest_row(rest, rank, 0);
        assert(rest[lowest_row(rest, rank)] == table[lowest_row(rest, rank)]);
        if i < rest.len() {
            lemma_lowest_row(rest, rank, i);
            assert(rest[i] == table[i]);
        }
    }
}

/// A table whose rows wait only for rows of lower rank has a row that
/// waits for nothing.
proof fn lemma_some_row_ready(table: Seq<Waiting>, rank: spec_fn(u32) -> int)
    requires
        ranked_rows(table, rank),
        table.len() > 0,
    ensures
        ready_ids(table).len() > 0,
{
    let m = lowest_row(table, rank);
    lemma_lowest_row(table, rank, 0);
    if table[m].1.len() > 0 {
        let p = table[m].1[0];
        assert(has_row(table, p));
        let j = choose|j: int| 0 <= j < table.len() && (#[trigger] table[j]).0 == p;
        lemma_lowest_row(table, rank, j);
    }
    lemma_ready_ids(table, m);
}

/// After a column, every row still waits only for rows of lower rank.
proof fn lemma_waiting_ranked(table: Seq<Waiting>, rank: spec_fn(u32) -> int)
    requires
        ranked_rows(table, rank),
    ensures
        ranked_rows(waiting_after(table, ready_ids(table)), rank),
{
    let column = ready_ids(table);
    let next = waiting_after(table, column);
    assert forall|i: int, k: int|
        0 <= i < next.len() && 0 <= k < next[i].1.len() implies rank((#[trigger] next[i].1[k]))
        < rank(next[i].0) && has_row(next, next[i].1[k]) by {
        let row = lemma_waiting_row_comes(table, column, i);
        let p = next[i].1[k];
        lemma_still_waited_for(table[row].1, column, k);
        let at = choose|at: int| 0 <= at < table[row].1.len() && table[row].1[at] == p;
        assert(rank(table[row].1[at]) < rank(table[row].0));
        assert(has_row(table, table[row].1[at]));
        let j = choose|j: int| 0 <= j < table.len() && (#[trigger] table[j]).0 == p;
        if table[j].1.len() == 0 {
            lemma_ready_ids(table, j);
        }
        lemma_waiting_row_stays(table, column, j);
    }
}

/// The sweep places every node of a table whose rows wait only for rows of
/// lower rank.
proof fn lemma_ranked_sweep_ends(table: Seq<Waiting>, rank: spec_fn(u32) -> int)
    requires
        ranked_rows(table, rank),
    ensures
        sweep_ends(table),
    decreases table.len(),
{
    if table.len() > 0 {
        let column = ready_ids(table);
        lemma_some_row_ready(table, rank);
        lemma_waiting_after_len(table, column);
        lemma_waiting_ranked(table, rank);
        lemma_ranked_sweep_ends(waiting_after(table, column), rank);
    }
}

/// The sweep places every node of a graph that has no cycle.
pub proof fn lemma_acyclic_sweep_ends(nodes: Seq<Node>, edges: Seq<Edge>)
    requires
        acyclic(edges),
    ensures
        sweep_ends(pred_table(nodes, edges)),
{
    let rank = choose|rank: spec_fn(u32) -> int| #[trigger] respects(edges, rank);
    lemma_pred_table_ranked(nodes, edges, rank);
    lemma_ranked_sweep_ends(pred_table(nodes, edges), rank);
}

/// In a layout whose edges were all routed tidily, every wire rests on a
/// solid block, and wires join the two ports of every edge.
pub proof fn lemma_tidy_layout(
    nodes: Seq<Node>,
    edges: Seq<Edge>,
    base: spec_fn(Pos) -> SpaceCell,
    placed: Seq<PlacedNode>,
    states: Seq<spec_fn(Pos) -> SpaceCell>,
    after: spec_fn(Pos) -> SpaceCell,
)
    requires
        laid_out(nodes, edges, base, placed),
        traces(states, base, after, edges, placed),
        tidy_trace(states, edges, placed),
    ensures
        substrates_hold(after),
        forall|k: int|
            0 <= k < edges.len() ==> (edge_ends(#[trigger] edges[k], placed) matches Ok(ends)
                && joined(after, ends.0, ends.1)),
{
    lemma_laid_out_substrates(nodes, edges, base, placed);
    lemma_tidy_routing(states, base, after, edges, placed);
}

/// A finished layout: the grid with every macro stamped and every edge
/// wired.
pub struct Layout {
    pub space: Space,
}

/// Whether routing the edges of the graph, after the sweep, can fail with
/// `error` at some edge.
pub open spec fn routing_fails(nodes: Seq<Node>, edges: Seq<Edge>, error: RouteError) -> bool {
    exists|
        placed: Seq<PlacedNode>,
        base: spec_fn(Pos) -> SpaceCell,
        mid: spec_fn(Pos) -> SpaceCell,
        after: spec_fn(Pos) -> SpaceCell,
        k: int,
    |
        #![trigger laid_out(nodes, edges, base, placed), edge_outcome(mid, after, edges[k], placed, Err::<(), RouteError>(error))]
        laid_out(nodes, edges, base, placed) && 0 <= k < edges.len() && all_routed(
            base,
            mid,
            edges.take(k),
            placed,
        ) && edge_outcome(mid, after, edges[k], placed, Err::<(), RouteError>(error))
}

/// Lays out `graph`: places every node by the column sweep, then routes
/// every edge in edge order.
pub fn generate_layout(graph: Graph) -> (result: Result<Layout, LayoutError>)
    ensures
        match result {
            Ok(layout) => exists|placed: Seq<PlacedNode>, base: spec_fn(Pos) -> SpaceCell|
                #![trigger laid_out(graph.nodes@, graph.edges@, base, placed)]
                laid_out(graph.nodes@, graph.edges@, base, placed) && all_routed(
                    base,
                    layout.space.grid(),
                    graph.edges@,
                    placed,
                ),
            Err(LayoutError::Route(e)) => routing_fails(graph.nodes@, graph.edges@, e),
            Err(e) => sweep_fails(graph.nodes@, graph.edges@, e),
        },
        acyclic(graph.edges@) ==> !(result matches Err(LayoutError::Cyclic)),
{
    let (space, placed) = match place_nodes(&graph) {
        Ok(done) => done,
        Err(e) => {
            return Err(e);
        },
    };
    let mut space = space;
    let ghost base = space.grid();
    match connect_nodes(&mut space, &graph, &placed) {
        Ok(()) => Ok(Layout { space }),
        Err(e) => {
            proof {
                let after = space.grid();
                let (k, mid) = choose|k: int, mid: spec_fn(Pos) -> SpaceCell|
                    0 <= k < graph.edges@.len() && #[trigger] all_routed(
                        base,
                        mid,
                        graph.edges@.take(k),
                        placed@,
                    ) && edge_outcome(
                        mid,
                        after,
                        graph.edges@[k],
                        placed@,
                        Err::<(), RouteError>(e),
                    );
                assert(laid_out(graph.nodes@, graph.edges@, base, placed@));
                assert(all_routed(base, mid, graph.edges@.take(k), placed@));
            }
            Err(LayoutError::Route(e))
        },
    }
}

} // verus!
