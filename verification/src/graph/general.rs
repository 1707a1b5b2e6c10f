//! The node and edge container shared by every stage of lowering.

use vstd::prelude::*;

verus! {

/// A directed connection from an output port of one node to an input port of
/// another.
#[derive(Debug, Clone, Copy, PartialEq, Eq, Structural)]
pub struct Edge {
    pub src_id: u32,
    pub src_port: u32,
    pub dest_id: u32,
    pub dest_port: u32,
}

/// A node: an identity and the stage-specific description of what it is.
#[derive(Debug)]
pub struct Node<T> {
    pub id: u32,
    pub inner: T,
}

/// Nodes and edges, both in insertion order.
#[derive(Debug)]
pub struct Graph<T> {
    pub nodes: Vec<Node<T>>,
    pub edges: Vec<Edge>,
}

/// Whether some node of `nodes` carries `id`.
pub open spec fn has_id<T>(nodes: Seq<Node<T>>, id: u32) -> bool {
    exists|i: int| 0 <= i < nodes.len() && #[trigger] nodes[i].id == id
}

/// Index of the first node carrying `id`; `nodes.len()` when there is none.
pub open spec fn first_with_id<T>(nodes: Seq<Node<T>>, id: u32) -> int
    decreases nodes.len(),
{
    if nodes.len() == 0 {
        0
    } else if nodes[0].id == id {
        0
    } else {
        1 + first_with_id(nodes.drop_first(), id)
    }
}

/// Index of the first edge equal to `edge`; `edges.len()` when there is none.
pub open spec fn first_edge(edges: Seq<Edge>, edge: Edge) -> int
    decreases edges.len(),
{
    if edges.len() == 0 {
        0
    } else if edges[0] == edge {
        0
    } else {
        1 + first_edge(edges.drop_first(), edge)
    }
}

/// The largest id among `nodes`; -1 when there is no node.
pub open spec fn max_node_id<T>(nodes: Seq<Node<T>>) -> int
    decreases nodes.len(),
{
    if nodes.len() == 0 {
        -1
    } else {
        let rest = max_node_id(nodes.drop_last());
        if nodes.last().id > rest {
            nodes.last().id as int
        } else {
            rest
        }
    }
}

/// `max_node_id` bounds every id and, where there is a node, is one of them.
pub proof fn lemma_max_node_id<T>(nodes: Seq<Node<T>>)
    ensures
        -1 <= max_node_id(nodes) <= u32::MAX,
        forall|i: int| 0 <= i < nodes.len() ==> (#[trigger] nodes[i]).id <= max_node_id(nodes),
        nodes.len() > 0 ==> has_id(nodes, max_node_id(nodes) as u32),
        nodes.len() == 0 ==> max_node_id(nodes) == -1,
    decreases nodes.len(),
{
    if nodes.len() > 0 {
        let rest = nodes.drop_last();
        lemma_max_node_id(rest);
        assert forall|i: int| 0 <= i < nodes.len() implies (#[trigger] nodes[i]).id
            <= max_node_id(nodes) by {
            if i < rest.len() {
                assert(rest[i] == nodes[i]);
            }
        }
        if nodes.last().id > max_node_id(rest) {
            assert(nodes[nodes.len() - 1].id == max_node_id(nodes));
        } else {
            let k = choose|k: int| 0 <= k < rest.len() && #[trigger] rest[k].id == max_node_id(
                rest,
            ) as u32;
            assert(nodes[k].id == max_node_id(nodes));
        }
    }
}

/// No output port drives more than one edge.
pub open spec fn fan_out_free(edges: Seq<Edge>) -> bool {
    forall|i: int, j: int|
        0 <= i < j < edges.len() ==> (#[trigger] edges[i]).source() != (#[trigger] edges[j]).source()
}

/// Whether `rank` rises along every edge.
pub open spec fn respects(edges: Seq<Edge>, rank: spec_fn(u32) -> int) -> bool {
    forall|i: int|
        0 <= i < edges.len() ==> rank((#[trigger] edges[i]).src_id) < rank(edges[i].dest_id)
}

/// Whether the edges form no cycle: the nodes can be ranked so that every
/// edge leads to a higher rank.
pub open spec fn acyclic(edges: Seq<Edge>) -> bool {
    exists|rank: spec_fn(u32) -> int| #[trigger] respects(edges, rank)
}

/// Whether every edge names nodes of `nodes` at both ends.
pub open spec fn ends_exist<T>(nodes: Seq<Node<T>>, edges: Seq<Edge>) -> bool {
    forall|i: int|
        0 <= i < edges.len() ==> has_id(nodes, (#[trigger] edges[i]).src_id) && has_id(
            nodes,
            edges[i].dest_id,
        )
}

/// `nodes` without the first node carrying `id`.
pub open spec fn without_node<T>(nodes: Seq<Node<T>>, id: u32) -> Seq<Node<T>> {
    if has_id(nodes, id) {
        nodes.remove(first_with_id(nodes, id))
    } else {
        nodes
    }
}

/// `edges` without the first edge equal to `edge`.
pub open spec fn without_edge(edges: Seq<Edge>, edge: Edge) -> Seq<Edge> {
    if edges.contains(edge) {
        edges.remove(first_edge(edges, edge))
    } else {
        edges
    }
}

/// The edges of `edges` that arrive at node `id`, in order.
pub open spec fn edges_into(edges: Seq<Edge>, id: u32) -> Seq<Edge> {
    edges.filter(|e: Edge| e.dest_id == id)
}

/// The edges of `edges` that leave node `id`, in order.
pub open spec fn edges_out_of(edges: Seq<Edge>, id: u32) -> Seq<Edge> {
    edges.filter(|e: Edge| e.src_id == id)
}

/// `first_with_id` is the least index whose node carries `id`.
pub proof fn lemma_first_with_id<T>(nodes: Seq<Node<T>>, id: u32)
    ensures
        0 <= first_with_id(nodes, id) <= nodes.len(),
        first_with_id(nodes, id) < nodes.len() ==> nodes[first_with_id(nodes, id)].id == id,
        forall|j: int| 0 <= j < first_with_id(nodes, id) ==> (#[trigger] nodes[j]).id != id,
    decreases nodes.len(),
{
    if nodes.len() > 0 && nodes[0].id != id {
        let rest = nodes.drop_first();
        lemma_first_with_id(rest, id);
        assert forall|j: int| 0 <= j < first_with_id(nodes, id) implies (#[trigger] nodes[j]).id
            != id by {
            if j > 0 {
                assert(rest[j - 1] == nodes[j]);
            }
        }
    }
}

/// `first_edge` is the least index holding `edge`.
pub proof fn lemma_first_edge(edges: Seq<Edge>, edge: Edge)
    ensures
        0 <= first_edge(edges, edge) <= edges.len(),
        first_edge(edges, edge) < edges.len() ==> edges[first_edge(edges, edge)] == edge,
        forall|j: int| 0 <= j < first_edge(edges, edge) ==> #[trigger] edges[j] != edge,
    decreases edges.len(),
{
    if edges.len() > 0 && edges[0] != edge {
        let rest = edges.drop_first();
        lemma_first_edge(rest, edge);
        assert forall|j: int| 0 <= j < first_edge(edges, edge) implies #[trigger] edges[j]
            != edge by {
            if j > 0 {
                assert(rest[j - 1] == edges[j]);
            }
        }
    }
}

/// An index that satisfies the two defining properties is `first_with_id`.
pub proof fn lemma_first_with_id_unique<T>(nodes: Seq<Node<T>>, id: u32, k: int)
    requires
        0 <= k <= nodes.len(),
        k < nodes.len() ==> nodes[k].id == id,
        forall|j: int| 0 <= j < k ==> (#[trigger] nodes[j]).id != id,
    ensures
        first_with_id(nodes, id) == k,
{
    lemma_first_with_id(nodes, id);
    let f = first_with_id(nodes, id);
    if f < k {
        assert(nodes[f].id != id);
    }
}

/// An index that satisfies the two defining properties is `first_edge`.
pub proof fn lemma_first_edge_unique(edges: Seq<Edge>, edge: Edge, k: int)
    requires
        0 <= k <= edges.len(),
        k < edges.len() ==> edges[k] == edge,
        forall|j: int| 0 <= j < k ==> #[trigger] edges[j] != edge,
    ensures
        first_edge(edges, edge) == k,
{
    lemma_first_edge(edges, edge);
    let f = first_edge(edges, edge);
    if f < k {
        assert(edges[f] != edge);
    }
}

/// `e` with both node ids moved up by `offset`.
pub open spec fn shift_edge(e: Edge, offset: u32) -> Edge {
    Edge {
        src_id: (e.src_id + offset) as u32,
        src_port: e.src_port,
        dest_id: (e.dest_id + offset) as u32,
        dest_port: e.dest_port,
    }
}

/// Every edge of `edges` moved by `offset`.
pub open spec fn shift_edges(edges: Seq<Edge>, offset: u32) -> Seq<Edge> {
    Seq::new(edges.len(), |i: int| shift_edge(edges[i], offset))
}

/// The ids of the distinct nodes of `nodes` that have an edge into `target`,
/// in the order in which `edges` first names them.
pub open spec fn pred_ids<T>(nodes: Seq<Node<T>>, edges: Seq<Edge>, target: u32) -> Seq<u32>
    decreases edges.len(),
{
    if edges.len() == 0 {
        Seq::empty()
    } else {
        let rest = pred_ids(nodes, edges.drop_last(), target);
        let e = edges.last();
        if e.dest_id == target && has_id(nodes, e.src_id) && !rest.contains(e.src_id) {
            rest.push(e.src_id)
        } else {
            rest
        }
    }
}

/// Whether `ids` holds `id`.
pub fn contains_id(ids: &Vec<u32>, id: u32) -> (found: bool)
    ensures
        found == ids@.contains(id),
{
    let mut i: usize = 0;
    while i < ids.len()
        invariant
            0 <= i <= ids.len(),
            forall|j: int| 0 <= j < i ==> ids@[j] != id,
        decreases ids.len() - i,
    {
        if ids[i] == id {
            return true;
        }
        i += 1;
    }
    false
}

impl<T> Node<T> {
    pub fn new(id: u32, inner: T) -> (node: Self)
        ensures
            node.id == id,
            node.inner == inner,
    {
        Self { id, inner }
    }
}

impl Edge {
    pub fn new(src_id: u32, src_port: u32, dest_id: u32, dest_port: u32) -> (edge: Self)
        ensures
            edge == (Edge { src_id, src_port, dest_id, dest_port }),
    {
        Self { src_id, src_port, dest_id, dest_port }
    }

    /// The output port this edge leaves from, as (node id, port).
    pub open spec fn source(self) -> (u32, u32) {
        (self.src_id, self.src_port)
    }

    /// The input port this edge arrives at, as (node id, port).
    pub open spec fn target(self) -> (u32, u32) {
        (self.dest_id, self.dest_port)
    }
}

impl<T> Graph<T> {
    /// Creates a graph from the given nodes and edges.
    pub fn new(nodes: Vec<Node<T>>, edges: Vec<Edge>) -> (graph: Self)
        ensures
            graph.nodes == nodes,
            graph.edges == edges,
    {
        Self { nodes, edges }
    }

    /// All edges that arrive at the node `target_id`, in edge order.
    pub fn edges_to_node(&self, target_id: u32) -> (found: Vec<Edge>)
        ensures
            found@ == edges_into(self.edges@, target_id),
    {
        let mut found: Vec<Edge> = Vec::new();
        let ghost pred = |e: Edge| e.dest_id == target_id;
        let mut i: usize = 0;
        while i < self.edges.len()
            invariant
                0 <= i <= self.edges.len(),
                pred == (|e: Edge| e.dest_id == target_id),
                found@ == self.edges@.take(i as int).filter(pred),
            decreases self.edges.len() - i,
        {
            let e = self.edges[i];
            proof {
                assert(self.edges@.take(i + 1).drop_last() =~= self.edges@.take(i as int));
                reveal(Seq::filter);
            }
            if e.dest_id == target_id {
                found.push(e);
            }
            i += 1;
        }
        proof {
            assert(self.edges@.take(i as int) =~= self.edges@);
        }
        found
    }

    /// All edges that leave the node `src_id`, in edge order.
    pub fn edges_from_node(&self, src_id: u32) -> (found: Vec<Edge>)
        ensures
            found@ == edges_out_of(self.edges@, src_id),
    {
        let mut found: Vec<Edge> = Vec::new();
        let ghost pred = |e: Edge| e.src_id == src_id;
        let mut i: usize = 0;
        while i < self.edges.len()
            invariant
                0 <= i <= self.edges.len(),
                pred == (|e: Edge| e.src_id == src_id),
                found@ == self.edges@.take(i as int).filter(pred),
            decreases self.edges.len() - i,
        {
            let e = self.edges[i];
            proof {
                assert(self.edges@.take(i + 1).drop_last() =~= self.edges@.take(i as int));
                reveal(Seq::filter);
            }
            if e.src_id == src_id {
                found.push(e);
            }
            i += 1;
        }
        proof {
            assert(self.edges@.take(i as int) =~= self.edges@);
        }
        found
    }

    /// The first node carrying `id`, if any.
    pub fn get_node(&self, id: u32) -> (found: Option<&Node<T>>)
        ensures
            found is Some <==> has_id(self.nodes@, id),
            found matches Some(n) ==> *n == self.nodes@[first_with_id(self.nodes@, id)],
    {
        let mut i: usize = 0;
        while i < self.nodes.len()
            invariant
                0 <= i <= self.nodes.len(),
                forall|j: int| 0 <= j < i ==> (#[trigger] self.nodes@[j]).id != id,
            decreases self.nodes.len() - i,
        {
            if self.nodes[i].id == id {
                proof {
                    lemma_first_with_id_unique(self.nodes@, id, i as int);
                }
                return Some(&self.nodes[i]);
            }
            i += 1;
        }
        None
    }

    pub fn add_node(&mut self, node: Node<T>)
        ensures
            final(self).nodes@ == old(self).nodes@.push(node),
            final(self).edges == old(self).edges,
    {
        self.nodes.push(node);
    }

    pub fn add_edge(&mut self, edge: Edge)
        ensures
            final(self).edges@ == old(self).edges@.push(edge),
            final(self).nodes == old(self).nodes,
    {
        self.edges.push(edge);
    }

    /// Removes the first node carrying `node`; leaves the graph alone when
    /// there is none. Edges are never touched.
    pub fn remove_node(&mut self, node: u32)
        ensures
            final(self).edges == old(self).edges,
            final(self).nodes@ == without_node(old(self).nodes@, node),
    {
        let mut i: usize = 0;
        while i < self.nodes.len()
            invariant
                0 <= i <= self.nodes.len(),
                *self == *old(self),
                forall|j: int| 0 <= j < i ==> (#[trigger] self.nodes@[j]).id != node,
            decreases self.nodes.len() - i,
        {
            if self.nodes[i].id == node {
                proof {
                    lemma_first_with_id_unique(self.nodes@, node, i as int);
                }
                self.nodes.remove(i);
                return ;
            }
            i += 1;
        }
    }

    /// Removes the first edge equal to `edge`; leaves the graph alone when
    /// there is none. Nodes are never touched.
    pub fn remove_edge(&mut self, edge: &Edge)
        ensures
            final(self).nodes == old(self).nodes,
            final(self).edges@ == without_edge(old(self).edges@, *edge),
    {
        let mut i: usize = 0;
        while i < self.edges.len()
            invariant
                0 <= i <= self.edges.len(),
                *self == *old(self),
                forall|j: int| 0 <= j < i ==> #[trigger] self.edges@[j] != *edge,
            decreases self.edges.len() - i,
        {
            if self.edges[i] == *edge {
                proof {
                    lemma_first_edge_unique(self.edges@, *edge, i as int);
                }
                self.edges.remove(i);
                return ;
            }
            i += 1;
        }
    }

    /// Shifts every id in the graph, in nodes and in edges, by `offset`.
    pub fn offset_ids(&mut self, offset: u32)
        requires
            forall|i: int|
                0 <= i < old(self).nodes@.len() ==> (#[trigger] old(self).nodes@[i]).id + offset
                    <= u32::MAX,
            forall|i: int|
                0 <= i < old(self).edges@.len() ==> (#[trigger] old(self).edges@[i]).src_id
                    + offset <= u32::MAX && old(self).edges@[i].dest_id + offset <= u32::MAX,
        ensures
            final(self).nodes@.len() == old(self).nodes@.len(),
            forall|i: int|
                0 <= i < old(self).nodes@.len() ==> (#[trigger] final(self).nodes@[i]).id == old(
                    self,
                ).nodes@[i].id + offset && final(self).nodes@[i].inner == old(self).nodes@[i].inner,
            final(self).edges@ == shift_edges(old(self).edges@, offset),
    {
        let mut i: usize = 0;
        while i < self.edges.len()
            invariant
                0 <= i <= self.edges.len(),
                self.nodes == old(self).nodes,
                self.edges@.len() == old(self).edges@.len(),
                forall|j: int|
                    0 <= j < i ==> #[trigger] self.edges@[j] == shift_edge(
                        old(self).edges@[j],
                        offset,
                    ),
                forall|j: int|
                    i <= j < self.edges@.len() ==> #[trigger] self.edges@[j] == old(self).edges@[j],
                forall|j: int|
                    0 <= j < old(self).edges@.len() ==> (#[trigger] old(self).edges@[j]).src_id
                        + offset <= u32::MAX && old(self).edges@[j].dest_id + offset <= u32::MAX,
            decreases self.edges.len() - i,
        {
            let e = self.edges[i];
            self.edges.set(
                i,
                Edge {
                    src_id: e.src_id + offset,
                    src_port: e.src_port,
                    dest_id: e.dest_id + offset,
                    dest_port: e.dest_port,
                },
            );
            i += 1;
        }
        assert(self.edges@ =~= shift_edges(old(self).edges@, offset));
        let mut k: usize = 0;
        while k < self.nodes.len()
            invariant
                0 <= k <= self.nodes.len(),
                self.edges@ == shift_edges(old(self).edges@, offset),
                self.nodes@.len() == old(self).nodes@.len(),
                forall|j: int|
                    0 <= j < k ==> (#[trigger] self.nodes@[j]).id == old(self).nodes@[j].id
                        + offset && self.nodes@[j].inner == old(self).nodes@[j].inner,
                forall|j: int|
                    k <= j < self.nodes@.len() ==> #[trigger] self.nodes@[j] == old(
                        self,
                    ).nodes@[j],
                forall|j: int|
                    0 <= j < old(self).nodes@.len() ==> (#[trigger] old(self).nodes@[j]).id
                        + offset <= u32::MAX,
            decreases self.nodes.len() - k,
        {
            let id = self.nodes[k].id;
            self.nodes[k].id = id + offset;
            k += 1;
        }
    }

    /// For every node, in node order, its id and the ids of the distinct
    /// nodes that feed it, in the order in which edges first name them.
    pub fn nodes_with_predecessors(&self) -> (table: Vec<(u32, Vec<u32>)>)
        ensures
            table@.len() == self.nodes@.len(),
            forall|i: int|
                0 <= i < table@.len() ==> (#[trigger] table@[i]).0 == self.nodes@[i].id
                    && table@[i].1@ == pred_ids(self.nodes@, self.edges@, self.nodes@[i].id),
    {
        let mut table: Vec<(u32, Vec<u32>)> = Vec::new();
        let mut i: usize = 0;
        while i < self.nodes.len()
            invariant
                0 <= i <= self.nodes.len(),
                table@.len() == i,
                forall|j: int|
                    0 <= j < i ==> (#[trigger] table@[j]).0 == self.nodes@[j].id && table@[j].1@
                        == pred_ids(self.nodes@, self.edges@, self.nodes@[j].id),
            decreases self.nodes.len() - i,
        {
            let target = self.nodes[i].id;
            let mut preds: Vec<u32> = Vec::new();
            let mut k: usize = 0;
            while k < self.edges.len()
                invariant
                    0 <= k <= self.edges.len(),
                    preds@ == pred_ids(self.nodes@, self.edges@.take(k as int), target),
                decreases self.edges.len() - k,
            {
                let e = self.edges[k];
                proof {
                    assert(self.edges@.take(k + 1).drop_last() =~= self.edges@.take(k as int));
                }
                if e.dest_id == target && self.get_node(e.src_id).is_some() && !contains_id(
                    &preds,
                    e.src_id,
                ) {
                    preds.push(e.src_id);
                }
                k += 1;
            }
            proof {
                assert(self.edges@.take(k as int) =~= self.edges@);
            }
            table.push((target, preds));
            i += 1;
        }
        table
    }

    /// The largest id in use. Adding one to it yields an id no node carries.
    pub fn max_id(&self) -> (max: u32)
        requires
            self.nodes@.len() > 0,
        ensures
            max == max_node_id(self.nodes@),
            has_id(self.nodes@, max),
            forall|i: int| 0 <= i < self.nodes@.len() ==> (#[trigger] self.nodes@[i]).id <= max,
    {
        let mut max: u32 = self.nodes[0].id;
        let mut i: usize = 1;
        proof {
            assert(self.nodes@.take(1).drop_last() =~= Seq::<Node<T>>::empty());
            assert(max_node_id(self.nodes@.take(1).drop_last()) == -1);
        }
        while i < self.nodes.len()
            invariant
                1 <= i <= self.nodes.len(),
                max == max_node_id(self.nodes@.take(i as int)),
            decreases self.nodes.len() - i,
        {
            proof {
                assert(self.nodes@.take(i + 1).drop_last() =~= self.nodes@.take(i as int));
            }
            if self.nodes[i].id > max {
                max = self.nodes[i].id;
            }
            i += 1;
        }
        proof {
            assert(self.nodes@.take(i as int) =~= self.nodes@);
            lemma_max_node_id(self.nodes@);
        }
        max
    }
}

} // verus!
