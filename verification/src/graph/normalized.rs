//! The normalized graph: primitive operations only, with every fan-out made
//! explicit by a splitter node. This is what placement and routing consume.

use vstd::prelude::*;

pub use super::general::Edge;
use super::general::{
    acyclic, edges_into, edges_out_of, fan_out_free, first_edge, lemma_first_edge, respects,
    without_edge, without_node,
};

verus! {

pub type Graph = super::general::Graph<NodeType>;

pub type Node = super::general::Node<NodeType>;

#[derive(Debug)]
pub enum NodeType {
    Input { name: String, number: u32 },
    Output { name: String, number: u32 },
    Variable { name: String },
    Splitter { port_count: u32 },
    Operation { op: BuiltinOp },
}

#[derive(Debug, Clone, Copy, PartialEq, Eq, Structural)]
pub enum BuiltinOp {
    Xor,
    And,
    Or,
    Not,
}

impl Clone for NodeType {
    fn clone(&self) -> (copy: Self)
        ensures
            copy == *self,
    {
        match self {
            NodeType::Input { name, number } => NodeType::Input {
                name: name.clone(),
                number: *number,
            },
            NodeType::Output { name, number } => NodeType::Output {
                name: name.clone(),
                number: *number,
            },
            NodeType::Variable { name } => NodeType::Variable { name: name.clone() },
            NodeType::Splitter { port_count } => NodeType::Splitter { port_count: *port_count },
            NodeType::Operation { op } => NodeType::Operation { op: *op },
        }
    }
}

impl NodeType {
    /// Inputs, outputs and variables only pass a signal on.
    pub open spec fn is_pass_through(self) -> bool {
        self is Input || self is Output || self is Variable
    }
}

/// A pass-through node with exactly one edge in and one edge out.
pub open spec fn removable(node: Node, edges: Seq<Edge>) -> bool {
    &&& node.inner.is_pass_through()
    &&& edges_into(edges, node.id).len() == 1
    &&& edges_out_of(edges, node.id).len() == 1
}

/// The ids of the removable nodes of `nodes`, in node order.
pub open spec fn removable_ids(nodes: Seq<Node>, edges: Seq<Edge>) -> Seq<u32>
    decreases nodes.len(),
{
    if nodes.len() == 0 {
        Seq::empty()
    } else {
        let rest = removable_ids(nodes.drop_last(), edges);
        if removable(nodes.last(), edges) {
            rest.push(nodes.last().id)
        } else {
            rest
        }
    }
}

/// The graph with node `id` taken out and its first edge in joined to its
/// first edge out. A node that lacks either edge stays.
pub open spec fn bypass(g: (Seq<Node>, Seq<Edge>), id: u32) -> (Seq<Node>, Seq<Edge>) {
    let ins = edges_into(g.1, id);
    let outs = edges_out_of(g.1, id);
    if ins.len() == 0 || outs.len() == 0 {
        g
    } else {
        let joined = Edge {
            src_id: ins[0].src_id,
            src_port: ins[0].src_port,
            dest_id: outs[0].dest_id,
            dest_port: outs[0].dest_port,
        };
        (without_node(g.0, id), without_edge(without_edge(g.1, ins[0]), outs[0]).push(joined))
    }
}

/// `bypass` applied for each id of `ids`, first to last.
pub open spec fn bypass_all(g: (Seq<Node>, Seq<Edge>), ids: Seq<u32>) -> (Seq<Node>, Seq<Edge>)
    decreases ids.len(),
{
    if ids.len() == 0 {
        g
    } else {
        bypass_all(bypass(g, ids[0]), ids.drop_first())
    }
}

/// Taking an edge out keeps a ranking valid.
proof fn lemma_without_edge_respects(edges: Seq<Edge>, edge: Edge, rank: spec_fn(u32) -> int)
    requires
        respects(edges, rank),
    ensures
        respects(without_edge(edges, edge), rank),
{
    if edges.contains(edge) {
        lemma_first_edge(edges, edge);
        let at = first_edge(edges, edge);
        let left = edges.remove(at);
        assert forall|i: int| 0 <= i < left.len() implies rank((#[trigger] left[i]).src_id) < rank(
            left[i].dest_id,
        ) by {
            if i < at {
                assert(left[i] == edges[i]);
            } else {
                assert(left[i] == edges[i + 1]);
            }
        }
    }
}

/// Taking a node out and joining its edges keeps a ranking valid.
pub proof fn lemma_bypass_respects(g: (Seq<Node>, Seq<Edge>), id: u32, rank: spec_fn(u32) -> int)
    requires
        respects(g.1, rank),
    ensures
        respects(bypass(g, id).1, rank),
{
    let ins = edges_into(g.1, id);
    let outs = edges_out_of(g.1, id);
    if ins.len() > 0 && outs.len() > 0 {
        broadcast use vstd::seq_lib::group_filter_ensures;

        assert(ins.contains(ins[0]));
        assert(outs.contains(outs[0]));
        g.1.lemma_filter_contains_rev(|e: Edge| e.dest_id == id, ins[0]);
        g.1.lemma_filter_contains_rev(|e: Edge| e.src_id == id, outs[0]);
        let a = choose|a: int| 0 <= a < g.1.len() && g.1[a] == ins[0];
        let b = choose|b: int| 0 <= b < g.1.len() && g.1[b] == outs[0];
        assert(rank(g.1[a].src_id) < rank(g.1[a].dest_id));
        assert(rank(g.1[b].src_id) < rank(g.1[b].dest_id));
        assert(ins[0].dest_id == id && outs[0].src_id == id);
        let one = without_edge(g.1, ins[0]);
        lemma_without_edge_respects(g.1, ins[0], rank);
        let two = without_edge(one, outs[0]);
        lemma_without_edge_respects(one, outs[0], rank);
        let all = bypass(g, id).1;
        assert forall|i: int| 0 <= i < all.len() implies rank((#[trigger] all[i]).src_id) < rank(
            all[i].dest_id,
        ) by {
            if i < two.len() {
                assert(all[i] == two[i]);
            }
        }
    }
}

/// Taking several nodes out, one after the other, keeps a ranking valid.
pub proof fn lemma_bypass_all_respects(
    g: (Seq<Node>, Seq<Edge>),
    ids: Seq<u32>,
    rank: spec_fn(u32) -> int,
)
    requires
        respects(g.1, rank),
    ensures
        respects(bypass_all(g, ids).1, rank),
    decreases ids.len(),
{
    if ids.len() > 0 {
        lemma_bypass_respects(g, ids[0], rank);
        lemma_bypass_all_respects(bypass(g, ids[0]), ids.drop_first(), rank);
    }
}

/// Taking an edge out of edges that share no source leaves edges that
/// share no source, none of which has the source of the edge taken out.
proof fn lemma_without_edge_fan_out_free(edges: Seq<Edge>, edge: Edge)
    requires
        fan_out_free(edges),
    ensures
        fan_out_free(without_edge(edges, edge)),
        forall|i: int|
            0 <= i < without_edge(edges, edge).len() ==> edges.contains(
                #[trigger] without_edge(edges, edge)[i],
            ),
        edges.contains(edge) ==> forall|i: int|
            0 <= i < without_edge(edges, edge).len() ==> (#[trigger] without_edge(
                edges,
                edge,
            )[i]).source() != edge.source(),
{
    if edges.contains(edge) {
        lemma_first_edge(edges, edge);
        let at = first_edge(edges, edge);
        let left = edges.remove(at);
        assert forall|i: int| 0 <= i < left.len() implies edges.contains(#[trigger] left[i])
            && left[i].source() != edge.source() by {
            let j = if i < at {
                i
            } else {
                i + 1
            };
            assert(left[i] == edges[j]);
            assert(edges[at] == edge);
            if j < at {
                assert(edges[j].source() != edges[at].source());
            } else {
                assert(edges[at].source() != edges[j].source());
            }
        }
        assert forall|i: int, j: int| 0 <= i < j < left.len() implies (#[trigger] left[i]).source()
            != (#[trigger] left[j]).source() by {
            let a = if i < at {
                i
            } else {
                i + 1
            };
            let b = if j < at {
                j
            } else {
                j + 1
            };
            assert(left[i] == edges[a] && left[j] == edges[b]);
        }
    }
}

/// Taking a node out and joining its edges leaves no output port with
/// more than one edge, if none had more before.
pub proof fn lemma_bypass_fan_out_free(g: (Seq<Node>, Seq<Edge>), id: u32)
    requires
        fan_out_free(g.1),
    ensures
        fan_out_free(bypass(g, id).1),
{
    let ins = edges_into(g.1, id);
    let outs = edges_out_of(g.1, id);
    if ins.len() > 0 && outs.len() > 0 {
        broadcast use vstd::seq_lib::group_filter_ensures;

        assert(ins.contains(ins[0]));
        g.1.lemma_filter_contains_rev(|e: Edge| e.dest_id == id, ins[0]);
        let one = without_edge(g.1, ins[0]);
        lemma_without_edge_fan_out_free(g.1, ins[0]);
        let two = without_edge(one, outs[0]);
        lemma_without_edge_fan_out_free(one, outs[0]);
        let all = bypass(g, id).1;
        let joined = all[all.len() - 1];
        assert(joined.source() == ins[0].source());
        assert forall|i: int| 0 <= i < two.len() implies (#[trigger] two[i]).source()
            != joined.source() by {
            assert(one.contains(two[i]));
            let j = choose|j: int| 0 <= j < one.len() && one[j] == two[i];
            assert(one[j].source() != ins[0].source());
        }
        assert forall|i: int, j: int| 0 <= i < j < all.len() implies (#[trigger] all[i]).source()
            != (#[trigger] all[j]).source() by {
            assert(all[i] == two[i]);
            if j < two.len() {
                assert(all[j] == two[j]);
            }
        }
    }
}

/// Taking several nodes out, one after the other, leaves no output port
/// with more than one edge, if none had more before.
pub proof fn lemma_bypass_all_fan_out_free(g: (Seq<Node>, Seq<Edge>), ids: Seq<u32>)
    requires
        fan_out_free(g.1),
    ensures
        fan_out_free(bypass_all(g, ids).1),
    decreases ids.len(),
{
    if ids.len() > 0 {
        lemma_bypass_fan_out_free(g, ids[0]);
        lemma_bypass_all_fan_out_free(bypass(g, ids[0]), ids.drop_first());
    }
}

impl Graph {
    /// Removes every pass-through node that had exactly one edge in and one
    /// edge out when the pass began, joining the two edges into one.
    pub fn optimize(&mut self)
        ensures
            (final(self).nodes@, final(self).edges@) == bypass_all(
                (old(self).nodes@, old(self).edges@),
                removable_ids(old(self).nodes@, old(self).edges@),
            ),
            acyclic(old(self).edges@) ==> acyclic(final(self).edges@),
            fan_out_free(old(self).edges@) ==> fan_out_free(final(self).edges@),
    {
        proof {
            if fan_out_free(self.edges@) {
                lemma_bypass_all_fan_out_free(
                    (self.nodes@, self.edges@),
                    removable_ids(self.nodes@, self.edges@),
                );
            }
            if acyclic(self.edges@) {
                let rank = choose|rank: spec_fn(u32) -> int| #[trigger] respects(self.edges@, rank);
                lemma_bypass_all_respects(
                    (self.nodes@, self.edges@),
                    removable_ids(self.nodes@, self.edges@),
                    rank,
                );
            }
        }
        let mut ids: Vec<u32> = Vec::new();
        let mut i: usize = 0;
        while i < self.nodes.len()
            invariant
                0 <= i <= self.nodes.len(),
                *self == *old(self),
                ids@ == removable_ids(self.nodes@.take(i as int), self.edges@),
            decreases self.nodes.len() - i,
        {
            proof {
                assert(self.nodes@.take(i + 1).drop_last() =~= self.nodes@.take(i as int));
            }
            let id = self.nodes[i].id;
            let pass_through = match &self.nodes[i].inner {
                NodeType::Input { .. } => true,
                NodeType::Output { .. } => true,
                NodeType::Variable { .. } => true,
                _ => false,
            };
            if pass_through {
                let ins = self.edges_to_node(id);
                let outs = self.edges_from_node(id);
                if ins.len() == 1 && outs.len() == 1 {
                    ids.push(id);
                }
            }
            i += 1;
        }
        proof {
            assert(self.nodes@.take(i as int) =~= self.nodes@);
        }
        let ghost start = (self.nodes@, self.edges@);
        let mut k: usize = 0;
        assert(ids@.skip(0) =~= ids@);
        while k < ids.len()
            invariant
                0 <= k <= ids.len(),
                bypass_all((self.nodes@, self.edges@), ids@.skip(k as int)) == bypass_all(
                    start,
                    ids@,
                ),
            decreases ids.len() - k,
        {
            let id = ids[k];
            proof {
                assert(ids@.skip(k as int)[0] == id);
                assert(ids@.skip(k as int).drop_first() =~= ids@.skip(k + 1));
            }
            let ins = self.edges_to_node(id);
            let outs = self.edges_from_node(id);
            if ins.len() > 0 && outs.len() > 0 {
                let input = ins[0];
                let output = outs[0];
                let joined = Edge::new(
                    input.src_id,
                    input.src_port,
                    output.dest_id,
                    output.dest_port,
                );
                self.remove_node(id);
                self.remove_edge(&input);
                self.remove_edge(&output);
                self.add_edge(joined);
            }
            k += 1;
        }
        proof {
            assert(ids@.skip(k as int) =~= Seq::<u32>::empty());
        }
    }
}

} // verus!
