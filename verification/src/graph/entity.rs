//! The entity graph: the graph of one user-defined entity, in which a node
//! may stand for an instance of another entity.

use vstd::prelude::*;

use super::builtin;
pub use super::general::Edge;
use super::general::{
    acyclic, edges_into, edges_out_of, ends_exist, has_id, lemma_max_node_id, max_node_id,
    respects, shift_edge, shift_edges,
};

verus! {

pub type Node = super::general::Node<NodeType>;

pub type Graph = super::general::Graph<NodeType>;

#[derive(Debug, Clone, Copy, PartialEq, Eq, Structural)]
pub enum BuiltinOp {
    Not,
    And,
    Xor,
    Or,
}

#[derive(Debug)]
pub enum NodeType {
    Input { name: String, number: u32 },
    Output { name: String, number: u32 },
    Variable { name: String },
    BuiltinOp { op: BuiltinOp },
    EntityOp { name: String },
}

impl Clone for NodeType {
    fn clone(&self) -> (copy: Self)
        ensures
            copy == *self,
    {
        match self {
            NodeType::Input { name, number } => NodeType::Input {
                name: name.clone(),
                number: *number,
            },
            NodeType::Output { name, number } => NodeType::Output {
                name: name.clone(),
                number: *number,
            },
            NodeType::Variable { name } => NodeType::Variable { name: name.clone() },
            NodeType::BuiltinOp { op } => NodeType::BuiltinOp { op: *op },
            NodeType::EntityOp { name } => NodeType::EntityOp { name: name.clone() },
        }
    }
}

/// Why instances could not be inlined.
#[derive(Debug, Clone, Copy, PartialEq, Eq, Structural)]
pub enum InlineError {
    /// An instance names an entity that is not among the entities given.
    UnknownEntity,
    /// An edge uses a port of an instance that the entity does not have.
    PortOutOfRange,
    /// The ids of an inlined graph would not fit into 32 bits.
    IdOverflow,
    /// Instances were left after as many were inlined as allowed; entities
    /// that contain each other never run out of instances.
    TooManyInstances,
}

/// Index of the first node that stands for an instance; `nodes.len()` when
/// there is none.
pub open spec fn first_instance(nodes: Seq<Node>) -> int
    decreases nodes.len(),
{
    if nodes.len() == 0 {
        0
    } else if nodes[0].inner is EntityOp {
        0
    } else {
        1 + first_instance(nodes.drop_first())
    }
}

/// `first_instance` is the least index whose node is an instance.
pub proof fn lemma_first_instance(nodes: Seq<Node>)
    ensures
        0 <= first_instance(nodes) <= nodes.len(),
        first_instance(nodes) < nodes.len() ==> nodes[first_instance(nodes)].inner is EntityOp,
        forall|j: int| 0 <= j < first_instance(nodes) ==> !((#[trigger] nodes[j]).inner is EntityOp),
    decreases nodes.len(),
{
    if nodes.len() > 0 && !(nodes[0].inner is EntityOp) {
        let rest = nodes.drop_first();
        lemma_first_instance(rest);
        assert forall|j: int| 0 <= j < first_instance(nodes) implies !((
        #[trigger] nodes[j]).inner is EntityOp) by {
            if j > 0 {
                assert(rest[j - 1] == nodes[j]);
            }
        }
    }
}

/// Index of the last entity of `entities` with the name `name`; -1 when
/// there is none.
pub open spec fn entity_index(entities: Seq<(String, Graph)>, name: Seq<char>) -> int
    decreases entities.len(),
{
    if entities.len() == 0 {
        -1
    } else if entities.last().0@ == name {
        entities.len() - 1
    } else {
        entity_index(entities.drop_last(), name)
    }
}

/// The ids of the input nodes that no edge arrives at, in node order.
pub open spec fn open_inputs(nodes: Seq<Node>, edges: Seq<Edge>) -> Seq<u32>
    decreases nodes.len(),
{
    if nodes.len() == 0 {
        Seq::empty()
    } else {
        let rest = open_inputs(nodes.drop_last(), edges);
        let node = nodes.last();
        if node.inner is Input && edges_into(edges, node.id).len() == 0 {
            rest.push(node.id)
        } else {
            rest
        }
    }
}

/// The ids of the output nodes that no edge leaves, in node order.
pub open spec fn open_outputs(nodes: Seq<Node>, edges: Seq<Edge>) -> Seq<u32>
    decreases nodes.len(),
{
    if nodes.len() == 0 {
        Seq::empty()
    } else {
        let rest = open_outputs(nodes.drop_last(), edges);
        let node = nodes.last();
        if node.inner is Output && edges_out_of(edges, node.id).len() == 0 {
            rest.push(node.id)
        } else {
            rest
        }
    }
}

/// Every node of `nodes` with its id moved up by `offset`.
pub open spec fn shift_nodes(nodes: Seq<Node>, offset: u32) -> Seq<Node> {
    Seq::new(
        nodes.len(),
        |i: int| Node { id: (nodes[i].id + offset) as u32, inner: nodes[i].inner },
    )
}

/// Whether every id of the graph stays within 32 bits when moved up by
/// `offset`.
pub open spec fn shift_fits(nodes: Seq<Node>, edges: Seq<Edge>, offset: int) -> bool {
    &&& 0 <= offset <= u32::MAX
    &&& forall|i: int| 0 <= i < nodes.len() ==> (#[trigger] nodes[i]).id + offset <= u32::MAX
    &&& forall|i: int|
        0 <= i < edges.len() ==> (#[trigger] edges[i]).src_id + offset <= u32::MAX
            && edges[i].dest_id + offset <= u32::MAX
}

/// Whether every edge at the instance `id` uses a port that exists, where
/// the entity has `ins` inputs and `outs` outputs.
pub open spec fn ports_exist(edges: Seq<Edge>, id: u32, ins: nat, outs: nat) -> bool {
    forall|i: int|
        0 <= i < edges.len() ==> ((#[trigger] edges[i]).dest_id == id ==> edges[i].dest_port < ins)
            && (edges[i].src_id == id ==> edges[i].src_port < outs)
}

/// `e` with the instance `id` taken out of it: where it arrived at port p of
/// the instance it arrives at the p-th input, and where it left port p of
/// the instance it leaves the p-th output.
pub open spec fn rewire(e: Edge, id: u32, ins: Seq<u32>, outs: Seq<u32>) -> Edge {
    let into = if e.dest_id == id {
        Edge { dest_id: ins[e.dest_port as int], dest_port: 0, ..e }
    } else {
        e
    };
    if e.src_id == id {
        Edge { src_id: outs[e.src_port as int], src_port: 0, ..into }
    } else {
        into
    }
}

/// Every edge of `edges` rewired.
pub open spec fn rewire_all(edges: Seq<Edge>, id: u32, ins: Seq<u32>, outs: Seq<u32>) -> Seq<Edge> {
    Seq::new(edges.len(), |i: int| rewire(edges[i], id, ins, outs))
}

/// The graph after its first instance has been inlined: the instance's
/// node is taken out; a copy of the entity's graph, its ids moved past
/// every id that is left, is put in; and the edges at the instance are
/// rewired to the copy's inputs and outputs. A graph without instances
/// stays as it is.
pub open spec fn inline_step(
    g: (Seq<Node>, Seq<Edge>),
    entities: Seq<(String, Graph)>,
) -> Result<(Seq<Node>, Seq<Edge>), InlineError> {
    let at = first_instance(g.0);
    if at >= g.0.len() {
        Ok(g)
    } else {
        let instance = g.0[at];
        let which = entity_index(entities, instance.inner->EntityOp_name@);
        if which < 0 {
            Err(InlineError::UnknownEntity)
        } else {
            let rest = g.0.remove(at);
            let offset = max_node_id(rest) + 1;
            let entity = entities[which].1;
            if !shift_fits(entity.nodes@, entity.edges@, offset) {
                Err(InlineError::IdOverflow)
            } else {
                let nodes = shift_nodes(entity.nodes@, offset as u32);
                let edges = shift_edges(entity.edges@, offset as u32);
                let ins = open_inputs(nodes, edges);
                let outs = open_outputs(nodes, edges);
                if !ports_exist(g.1, instance.id, ins.len(), outs.len()) {
                    Err(InlineError::PortOutOfRange)
                } else {
                    Ok((rest + nodes, rewire_all(g.1, instance.id, ins, outs) + edges))
                }
            }
        }
    }
}

/// The graph after `steps` instances have been inlined, or fewer where
/// none was left.
pub open spec fn inline_steps(
    g: (Seq<Node>, Seq<Edge>),
    entities: Seq<(String, Graph)>,
    steps: nat,
) -> Result<(Seq<Node>, Seq<Edge>), InlineError>
    decreases steps,
{
    if steps == 0 {
        Ok(g)
    } else {
        match inline_step(g, entities) {
            Ok(next) => inline_steps(next, entities, (steps - 1) as nat),
            Err(e) => Err(e),
        }
    }
}

/// A graph without instances stays as it is, however many steps are taken.
pub proof fn lemma_inline_done(g: (Seq<Node>, Seq<Edge>), entities: Seq<(String, Graph)>, steps: nat)
    requires
        first_instance(g.0) >= g.0.len(),
    ensures
        inline_steps(g, entities, steps) == Ok::<(Seq<Node>, Seq<Edge>), InlineError>(g),
    decreases steps,
{
    if steps > 0 {
        lemma_inline_done(g, entities, (steps - 1) as nat);
    }
}

/// Whether every graph of `entities` names only its own nodes and has no
/// cycle.
pub open spec fn sound_library(entities: Seq<(String, Graph)>) -> bool {
    forall|i: int|
        0 <= i < entities.len() ==> ends_exist(
            (#[trigger] entities[i]).1.nodes@,
            entities[i].1.edges@,
        ) && acyclic(entities[i].1.edges@)
}

/// The highest rank of the ids up to `upto`.
pub open spec fn top_rank(rank: spec_fn(u32) -> int, upto: nat) -> int
    decreases upto,
{
    if upto == 0 {
        rank(0)
    } else {
        let rest = top_rank(rank, (upto - 1) as nat);
        if rank(upto as u32) > rest {
            rank(upto as u32)
        } else {
            rest
        }
    }
}

/// The lowest rank of the ids up to `upto`.
pub open spec fn low_rank(rank: spec_fn(u32) -> int, upto: nat) -> int
    decreases upto,
{
    if upto == 0 {
        rank(0)
    } else {
        let rest = low_rank(rank, (upto - 1) as nat);
        if rank(upto as u32) < rest {
            rank(upto as u32)
        } else {
            rest
        }
    }
}

/// Every rank of an id up to `upto` lies between the lowest and the
/// highest.
proof fn lemma_rank_bounds(rank: spec_fn(u32) -> int, upto: nat, v: u32)
    requires
        v <= upto <= u32::MAX,
    ensures
        low_rank(rank, upto) <= rank(v) <= top_rank(rank, upto),
    decreases upto,
{
    if upto > 0 && v < upto {
        lemma_rank_bounds(rank, (upto - 1) as nat, v);
    }
}

/// The ids of open inputs and open outputs are ids of nodes.
proof fn lemma_open_ports(nodes: Seq<Node>, edges: Seq<Edge>)
    ensures
        forall|k: int|
            0 <= k < open_inputs(nodes, edges).len() ==> has_id(
                nodes,
                #[trigger] open_inputs(nodes, edges)[k],
            ),
        forall|k: int|
            0 <= k < open_outputs(nodes, edges).len() ==> has_id(
                nodes,
                #[trigger] open_outputs(nodes, edges)[k],
            ),
    decreases nodes.len(),
{
    if nodes.len() > 0 {
        let rest = nodes.drop_last();
        lemma_open_ports(rest, edges);
        assert forall|id: u32| has_id(rest, id) implies has_id(nodes, id) by {
            let i = choose|i: int| 0 <= i < rest.len() && (#[trigger] rest[i]).id == id;
            assert(nodes[i].id == id);
        }
        assert(nodes[nodes.len() - 1].id == nodes.last().id);
        let ins = open_inputs(nodes, edges);
        let outs = open_outputs(nodes, edges);
        assert forall|k: int| 0 <= k < ins.len() implies has_id(nodes, #[trigger] ins[k]) by {
            if k < open_inputs(rest, edges).len() {
                assert(ins[k] == open_inputs(rest, edges)[k]);
                assert(has_id(rest, open_inputs(rest, edges)[k]));
            }
        }
        assert forall|k: int| 0 <= k < outs.len() implies has_id(nodes, #[trigger] outs[k]) by {
            if k < open_outputs(rest, edges).len() {
                assert(outs[k] == open_outputs(rest, edges)[k]);
                assert(has_id(rest, open_outputs(rest, edges)[k]));
            }
        }
    }
}

/// The rank that inlining gives: a node that was there keeps its place
/// among the others, and the nodes of the copy take the place of the
/// instance, in their own order.
pub open spec fn inlined_rank(
    rank: spec_fn(u32) -> int,
    inner: spec_fn(u32) -> int,
    instance: u32,
    offset: int,
) -> spec_fn(u32) -> int {
    let low = low_rank(inner, u32::MAX as nat);
    let span = top_rank(inner, u32::MAX as nat) - low + 2;
    |v: u32|
        if v < offset {
            span * rank(v)
        } else {
            span * rank(instance) + 1 + (inner((v - offset) as u32) - low)
        }
}

/// Inlining an instance keeps a graph sound: afterwards it still names
/// only its own nodes and has no cycle, provided that the same holds of
/// the graph that is inlined.
pub proof fn lemma_inline_step_sound(g: (Seq<Node>, Seq<Edge>), entities: Seq<(String, Graph)>)
    requires
        ends_exist(g.0, g.1),
        acyclic(g.1),
        sound_library(entities),
        inline_step(g, entities) is Ok,
    ensures
        ends_exist(inline_step(g, entities)->Ok_0.0, inline_step(g, entities)->Ok_0.1),
        acyclic(inline_step(g, entities)->Ok_0.1),
{
    let at = first_instance(g.0);
    lemma_first_instance(g.0);
    if at < g.0.len() {
        let instance = g.0[at];
        let id = instance.id;
        let which = entity_index(entities, instance.inner->EntityOp_name@);
        lemma_entity_index(entities, instance.inner->EntityOp_name@);
        let rest = g.0.remove(at);
        let offset = max_node_id(rest) + 1;
        lemma_max_node_id(rest);
        let entity = entities[which].1;
        let nodes = shift_nodes(entity.nodes@, offset as u32);
        let edges = shift_edges(entity.edges@, offset as u32);
        let ins = open_inputs(nodes, edges);
        let outs = open_outputs(nodes, edges);
        lemma_open_ports(nodes, edges);
        let next = inline_step(g, entities)->Ok_0;
        let wired = rewire_all(g.1, id, ins, outs);
        assert(next.0 == rest + nodes);
        assert(next.1 == wired + edges);
        let rank = choose|rank: spec_fn(u32) -> int| #[trigger] respects(g.1, rank);
        let inner = choose|inner: spec_fn(u32) -> int| #[trigger] respects(entity.edges@, inner);
        let low = low_rank(inner, u32::MAX as nat);
        let span = top_rank(inner, u32::MAX as nat) - low + 2;
        let higher = inlined_rank(rank, inner, id, offset);
        lemma_rank_bounds(inner, u32::MAX as nat, 0);
        // nodes that stay lie below the offset, nodes of the copy at or above it
        assert forall|x: u32| has_id(g.0, x) && x != id implies has_id(rest, x) && x < offset by {
            let i = choose|i: int| 0 <= i < g.0.len() && (#[trigger] g.0[i]).id == x;
            let j = if i < at {
                i
            } else {
                i - 1
            };
            assert(rest[j] == g.0[i]);
            assert(rest[j].id == x);
        }
        assert forall|x: u32| has_id(rest, x) implies has_id(next.0, x) by {
            let i = choose|i: int| 0 <= i < rest.len() && (#[trigger] rest[i]).id == x;
            assert(next.0[i].id == x);
        }
        assert forall|x: u32| has_id(nodes, x) implies has_id(next.0, x) && x >= offset by {
            let i = choose|i: int| 0 <= i < nodes.len() && (#[trigger] nodes[i]).id == x;
            assert(next.0[rest.len() + i].id == x);
        }
        assert forall|x: u32| has_id(entity.nodes@, x) implies has_id(nodes, (x + offset) as u32) by {
            let i = choose|i: int|
                0 <= i < entity.nodes@.len() && (#[trigger] entity.nodes@[i]).id == x;
            assert(nodes[i].id == x + offset);
        }
        assert forall|i: int| 0 <= i < next.1.len() implies has_id(
            next.0,
            (#[trigger] next.1[i]).src_id,
        ) && has_id(next.0, next.1[i].dest_id) && higher(next.1[i].src_id) < higher(
            next.1[i].dest_id,
        ) by {
            if i < wired.len() {
                let e = g.1[i];
                assert(next.1[i] == rewire(e, id, ins, outs));
                assert(has_id(g.0, e.src_id) && has_id(g.0, e.dest_id));
                assert(rank(e.src_id) < rank(e.dest_id));
                let a = next.1[i].src_id;
                let b = next.1[i].dest_id;
                assert(ports_exist(g.1, id, ins.len(), outs.len()));
                assert(span >= 2);
                assert(span * rank(e.src_id) + span <= span * rank(e.dest_id)) by (nonlinear_arith)
                    requires
                        rank(e.src_id) < rank(e.dest_id),
                        span >= 2,
                ;
                if e.src_id == id {
                    assert(e.src_port < outs.len());
                    assert(a == outs[e.src_port as int]);
                    assert(has_id(nodes, a));
                    lemma_rank_bounds(inner, u32::MAX as nat, (a - offset) as u32);
                    assert(higher(a) == span * rank(id) + 1 + (inner((a - offset) as u32) - low));
                    assert(higher(a) <= span * rank(id) + span - 1);
                } else {
                    assert(a == e.src_id);
                    assert(has_id(rest, a));
                    assert(higher(a) == span * rank(a));
                }
                if e.dest_id == id {
                    assert(e.dest_port < ins.len());
                    assert(b == ins[e.dest_port as int]);
                    assert(has_id(nodes, b));
                    lemma_rank_bounds(inner, u32::MAX as nat, (b - offset) as u32);
                    assert(higher(b) == span * rank(id) + 1 + (inner((b - offset) as u32) - low));
                    assert(higher(b) >= span * rank(id) + 1);
                } else {
                    assert(b == e.dest_id);
                    assert(has_id(rest, b));
                    assert(higher(b) == span * rank(b));
                }
                assert(has_id(next.0, a));
                assert(has_id(next.0, b));
                assert(higher(a) < higher(b));
            } else {
                let k = i - wired.len();
                let e = entity.edges@[k];
                assert(next.1[i] == shift_edge(e, offset as u32));
                assert(has_id(entity.nodes@, e.src_id) && has_id(entity.nodes@, e.dest_id));
                assert(inner(e.src_id) < inner(e.dest_id));
                assert(has_id(nodes, (e.src_id + offset) as u32));
                assert(has_id(nodes, (e.dest_id + offset) as u32));
                let a = next.1[i].src_id;
                let b = next.1[i].dest_id;
                assert(a == e.src_id + offset);
                assert(b == e.dest_id + offset);
                assert(has_id(next.0, a));
                assert(has_id(next.0, b));
                assert(higher(a) == span * rank(id) + 1 + (inner(e.src_id) - low));
                assert(higher(b) == span * rank(id) + 1 + (inner(e.dest_id) - low));
            }
        }
        assert(respects(next.1, higher));
    }
}

/// An entity that is found is one of the entities.
proof fn lemma_entity_index(entities: Seq<(String, Graph)>, name: Seq<char>)
    ensures
        -1 <= entity_index(entities, name) < entities.len(),
    decreases entities.len(),
{
    if entities.len() > 0 && entities.last().0@ != name {
        lemma_entity_index(entities.drop_last(), name);
    }
}

/// Inlining instances keeps a graph sound.
pub proof fn lemma_inline_steps_sound(
    g: (Seq<Node>, Seq<Edge>),
    entities: Seq<(String, Graph)>,
    steps: nat,
)
    requires
        ends_exist(g.0, g.1),
        acyclic(g.1),
        sound_library(entities),
        inline_steps(g, entities, steps) is Ok,
    ensures
        ends_exist(inline_steps(g, entities, steps)->Ok_0.0, inline_steps(g, entities, steps)->Ok_0.1),
        acyclic(inline_steps(g, entities, steps)->Ok_0.1),
    decreases steps,
{
    if steps > 0 {
        lemma_inline_step_sound(g, entities);
        lemma_inline_steps_sound(inline_step(g, entities)->Ok_0, entities, (steps - 1) as nat);
    }
}

/// The builtin operation that stands for `op`.
pub open spec fn plain_op(op: BuiltinOp) -> builtin::BuiltinOp {
    match op {
        BuiltinOp::And => builtin::BuiltinOp::And,
        BuiltinOp::Not => builtin::BuiltinOp::Not,
        BuiltinOp::Xor => builtin::BuiltinOp::Xor,
        BuiltinOp::Or => builtin::BuiltinOp::Or,
    }
}

/// The builtin node that stands for `node`, which must not be an instance.
pub open spec fn plain_node(node: Node) -> builtin::Node {
    builtin::Node {
        id: node.id,
        inner: match node.inner {
            NodeType::Input { name, number } => builtin::NodeType::Input { name, number },
            NodeType::Output { name, number } => builtin::NodeType::Output { name, number },
            NodeType::Variable { name } => builtin::NodeType::Variable { name },
            NodeType::BuiltinOp { op } => builtin::NodeType::BuiltinOp { op: plain_op(op) },
            NodeType::EntityOp { name } => builtin::NodeType::Variable { name },
        },
    }
}

/// Every node of `nodes` as a builtin node.
pub open spec fn plain_nodes(nodes: Seq<Node>) -> Seq<builtin::Node> {
    Seq::new(nodes.len(), |i: int| plain_node(nodes[i]))
}

/// Turning nodes into builtin nodes keeps their ids, and so keeps every
/// edge between nodes.
pub proof fn lemma_plain_nodes_ids(nodes: Seq<Node>, edges: Seq<Edge>)
    requires
        ends_exist(nodes, edges),
    ensures
        ends_exist(plain_nodes(nodes), edges),
{
    assert forall|x: u32| has_id(nodes, x) implies has_id(plain_nodes(nodes), x) by {
        let i = choose|i: int| 0 <= i < nodes.len() && (#[trigger] nodes[i]).id == x;
        assert(plain_nodes(nodes)[i].id == x);
    }
    assert forall|i: int| 0 <= i < edges.len() implies has_id(
        plain_nodes(nodes),
        (#[trigger] edges[i]).src_id,
    ) && has_id(plain_nodes(nodes), edges[i].dest_id) by {
        assert(has_id(nodes, edges[i].src_id) && has_id(nodes, edges[i].dest_id));
    }
}

/// Index of the first node that stands for an instance.
fn find_instance(nodes: &Vec<Node>) -> (at: usize)
    ensures
        at == first_instance(nodes@),
        at <= nodes@.len(),
{
    let mut i: usize = 0;
    proof {
        lemma_first_instance(nodes@);
    }
    while i < nodes.len()
        invariant
            0 <= i <= nodes.len(),
            i <= first_instance(nodes@) <= nodes@.len(),
            first_instance(nodes@) < nodes@.len() ==> nodes@[first_instance(nodes@)].inner is EntityOp,
        decreases nodes.len() - i,
    {
        match &nodes[i].inner {
            NodeType::EntityOp { .. } => {
                proof {
                    lemma_first_instance(nodes@);
                }
                return i;
            },
            _ => {},
        }
        i += 1;
    }
    i
}

/// Index of the last entity with the name `name`.
fn find_entity(entities: &Vec<(String, Graph)>, name: &String) -> (at: Option<usize>)
    ensures
        match at {
            Some(i) => i == entity_index(entities@, name@) && i < entities@.len(),
            None => entity_index(entities@, name@) < 0,
        },
{
    let mut i: usize = entities.len();
    proof {
        assert(entities@.take(i as int) =~= entities@);
    }
    while i > 0
        invariant
            0 <= i <= entities.len(),
            entity_index(entities@, name@) == entity_index(entities@.take(i as int), name@),
        decreases i,
    {
        proof {
            assert(entities@.take(i as int).drop_last() =~= entities@.take(i - 1));
            assert(entities@.take(i as int).last() == entities@[i - 1]);
        }
        if entities[i - 1].0 == *name {
            return Some(i - 1);
        }
        i -= 1;
    }
    None
}

/// A copy of `graph`.
fn copy_graph(graph: &Graph) -> (copy: Graph)
    ensures
        copy.nodes@ == graph.nodes@,
        copy.edges@ == graph.edges@,
{
    let mut nodes: Vec<Node> = Vec::new();
    let mut i: usize = 0;
    while i < graph.nodes.len()
        invariant
            0 <= i <= graph.nodes.len(),
            nodes@ == graph.nodes@.take(i as int),
        decreases graph.nodes.len() - i,
    {
        nodes.push(Node::new(graph.nodes[i].id, graph.nodes[i].inner.clone()));
        proof {
            assert(nodes@ =~= graph.nodes@.take(i + 1));
        }
        i += 1;
    }
    let mut edges: Vec<Edge> = Vec::new();
    let mut k: usize = 0;
    while k < graph.edges.len()
        invariant
            0 <= k <= graph.edges.len(),
            nodes@ == graph.nodes@.take(graph.nodes@.len() as int),
            edges@ == graph.edges@.take(k as int),
        decreases graph.edges.len() - k,
    {
        edges.push(graph.edges[k]);
        proof {
            assert(edges@ =~= graph.edges@.take(k + 1));
        }
        k += 1;
    }
    proof {
        assert(graph.nodes@.take(graph.nodes@.len() as int) =~= graph.nodes@);
        assert(graph.edges@.take(k as int) =~= graph.edges@);
    }
    Graph::new(nodes, edges)
}

/// Whether every id of `graph` stays within 32 bits when moved up by
/// `offset`.
fn can_shift(graph: &Graph, offset: u32) -> (yes: bool)
    ensures
        yes == shift_fits(graph.nodes@, graph.edges@, offset as int),
{
    let room = u32::MAX - offset;
    let mut i: usize = 0;
    while i < graph.nodes.len()
        invariant
            0 <= i <= graph.nodes.len(),
            room == u32::MAX - offset,
            forall|j: int| 0 <= j < i ==> (#[trigger] graph.nodes@[j]).id + offset <= u32::MAX,
        decreases graph.nodes.len() - i,
    {
        if graph.nodes[i].id > room {
            return false;
        }
        i += 1;
    }
    let mut k: usize = 0;
    while k < graph.edges.len()
        invariant
            0 <= k <= graph.edges.len(),
            room == u32::MAX - offset,
            forall|j: int|
                0 <= j < graph.nodes@.len() ==> (#[trigger] graph.nodes@[j]).id + offset
                    <= u32::MAX,
            forall|j: int|
                0 <= j < k ==> (#[trigger] graph.edges@[j]).src_id + offset <= u32::MAX
                    && graph.edges@[j].dest_id + offset <= u32::MAX,
        decreases graph.edges.len() - k,
    {
        if graph.edges[k].src_id > room || graph.edges[k].dest_id > room {
            return false;
        }
        k += 1;
    }
    true
}

/// Whether every edge at the instance `id` uses a port that exists.
fn check_ports(edges: &Vec<Edge>, id: u32, ins: usize, outs: usize) -> (yes: bool)
    ensures
        yes == ports_exist(edges@, id, ins as nat, outs as nat),
{
    let mut i: usize = 0;
    while i < edges.len()
        invariant
            0 <= i <= edges.len(),
            forall|j: int|
                0 <= j < i ==> ((#[trigger] edges@[j]).dest_id == id ==> edges@[j].dest_port < ins)
                    && (edges@[j].src_id == id ==> edges@[j].src_port < outs),
        decreases edges.len() - i,
    {
        let e = edges[i];
        if (e.dest_id == id && e.dest_port as usize >= ins) || (e.src_id == id && e.src_port as usize
            >= outs) {
            return false;
        }
        i += 1;
    }
    true
}

impl Graph {
    /// The ids of the input nodes that no edge arrives at, in node order.
    pub fn inputs(&self) -> (ids: Vec<u32>)
        ensures
            ids@ == open_inputs(self.nodes@, self.edges@),
    {
        let mut ids: Vec<u32> = Vec::new();
        let mut i: usize = 0;
        while i < self.nodes.len()
            invariant
                0 <= i <= self.nodes.len(),
                ids@ == open_inputs(self.nodes@.take(i as int), self.edges@),
            decreases self.nodes.len() - i,
        {
            proof {
                assert(self.nodes@.take(i + 1).drop_last() =~= self.nodes@.take(i as int));
                assert(self.nodes@.take(i + 1).last() == self.nodes@[i as int]);
            }
            let is_input = match &self.nodes[i].inner {
                NodeType::Input { .. } => true,
                _ => false,
            };
            if is_input && self.edges_to_node(self.nodes[i].id).len() == 0 {
                ids.push(self.nodes[i].id);
            }
            i += 1;
        }
        proof {
            assert(self.nodes@.take(i as int) =~= self.nodes@);
        }
        ids
    }

    /// The ids of the output nodes that no edge leaves, in node order.
    pub fn outputs(&self) -> (ids: Vec<u32>)
        ensures
            ids@ == open_outputs(self.nodes@, self.edges@),
    {
        let mut ids: Vec<u32> = Vec::new();
        let mut i: usize = 0;
        while i < self.nodes.len()
            invariant
                0 <= i <= self.nodes.len(),
                ids@ == open_outputs(self.nodes@.take(i as int), self.edges@),
            decreases self.nodes.len() - i,
        {
            proof {
                assert(self.nodes@.take(i + 1).drop_last() =~= self.nodes@.take(i as int));
                assert(self.nodes@.take(i + 1).last() == self.nodes@[i as int]);
            }
            let is_output = match &self.nodes[i].inner {
                NodeType::Output { .. } => true,
                _ => false,
            };
            if is_output && self.edges_from_node(self.nodes[i].id).len() == 0 {
                ids.push(self.nodes[i].id);
            }
            i += 1;
        }
        proof {
            assert(self.nodes@.take(i as int) =~= self.nodes@);
        }
        ids
    }

    /// Inlines the first instance of the graph, which is the node at `at`.
    fn inline_first(&mut self, entities: &Vec<(String, Graph)>, at: usize) -> (result: Result<
        (),
        InlineError,
    >)
        requires
            at == first_instance(old(self).nodes@),
            at < old(self).nodes@.len(),
        ensures
            match inline_step((old(self).nodes@, old(self).edges@), entities@) {
                Ok(next) => result is Ok && final(self).nodes@ == next.0 && final(self).edges@
                    == next.1,
                Err(e) => result == Err::<(), InlineError>(e),
            },
    {
        proof {
            lemma_first_instance(self.nodes@);
        }
        let ghost before = (self.nodes@, self.edges@);
        let instance = self.nodes.remove(at);
        let which = match &instance.inner {
            NodeType::EntityOp { name } => find_entity(entities, name),
            _ => None,
        };
        let which = match which {
            Some(which) => which,
            None => {
                return Err(InlineError::UnknownEntity);
            },
        };
        let highest = if self.nodes.len() == 0 {
            None
        } else {
            Some(self.max_id())
        };
        proof {
            super::general::lemma_max_node_id(self.nodes@);
        }
        let offset = match highest {
            None => 0,
            Some(highest) => {
                if highest == u32::MAX {
                    return Err(InlineError::IdOverflow);
                }
                highest + 1
            },
        };
        if !can_shift(&entities[which].1, offset) {
            return Err(InlineError::IdOverflow);
        }
        let mut copy = copy_graph(&entities[which].1);
        copy.offset_ids(offset);
        proof {
            assert(copy.nodes@ =~= shift_nodes(entities@[which as int].1.nodes@, offset));
        }
        let ins = copy.inputs();
        let outs = copy.outputs();
        let id = instance.id;
        let ghost old_edges = self.edges@;
        if !check_ports(&self.edges, id, ins.len(), outs.len()) {
            return Err(InlineError::PortOutOfRange);
        }
        let mut i: usize = 0;
        while i < self.edges.len()
            invariant
                0 <= i <= self.edges.len(),
                self.nodes@ == before.0.remove(at as int),
                self.edges@.len() == old_edges.len(),
                ports_exist(old_edges, id, ins@.len(), outs@.len()),
                forall|j: int|
                    0 <= j < i ==> #[trigger] self.edges@[j] == rewire(old_edges[j], id, ins@, outs@),
                forall|j: int| i <= j < old_edges.len() ==> #[trigger] self.edges@[j] == old_edges[j],
            decreases self.edges.len() - i,
        {
            let e = self.edges[i];
            let mut dest_id = e.dest_id;
            let mut dest_port = e.dest_port;
            let mut src_id = e.src_id;
            let mut src_port = e.src_port;
            proof {
                assert(old_edges[i as int] == e);
            }
            if e.dest_id == id {
                dest_id = ins[e.dest_port as usize];
                dest_port = 0;
            }
            if e.src_id == id {
                src_id = outs[e.src_port as usize];
                src_port = 0;
            }
            self.edges.set(i, Edge { src_id, src_port, dest_id, dest_port });
            i += 1;
        }
        proof {
            assert(self.edges@ =~= rewire_all(old_edges, id, ins@, outs@));
        }
        let mut more_nodes = copy.nodes;
        let mut more_edges = copy.edges;
        self.nodes.append(&mut more_nodes);
        self.edges.append(&mut more_edges);
        Ok(())
    }

    /// Inlines instances, first node first, until none is left, and returns
    /// the graph that results. At most `limit` instances are inlined.
    /// Of several entities with one name the last counts.
    pub fn into_builtin(self, entities: &Vec<(String, Graph)>, limit: u32) -> (result: Result<
        builtin::Graph,
        InlineError,
    >)
        ensures
            match inline_steps((self.nodes@, self.edges@), entities@, limit as nat) {
                Ok(last) => if first_instance(last.0) < last.0.len() {
                    result == Err::<builtin::Graph, InlineError>(InlineError::TooManyInstances)
                } else {
                    result matches Ok(plain) && plain.nodes@ == plain_nodes(last.0) && plain.edges@
                        == last.1
                },
                Err(e) => result == Err::<builtin::Graph, InlineError>(e),
            },
            ends_exist(self.nodes@, self.edges@) && acyclic(self.edges@) && sound_library(
                entities@,
            ) ==> (result matches Ok(plain) ==> ends_exist(plain.nodes@, plain.edges@) && acyclic(
                plain.edges@,
            )),
    {
        proof {
            if ends_exist(self.nodes@, self.edges@) && acyclic(self.edges@) && sound_library(
                entities@,
            ) && inline_steps((self.nodes@, self.edges@), entities@, limit as nat) is Ok {
                lemma_inline_steps_sound((self.nodes@, self.edges@), entities@, limit as nat);
                let last = inline_steps((self.nodes@, self.edges@), entities@, limit as nat)->Ok_0;
                lemma_plain_nodes_ids(last.0, last.1);
            }
        }
        let ghost start = (self.nodes@, self.edges@);
        let mut graph = self;
        let mut steps: u32 = 0;
        while steps < limit
            invariant
                steps <= limit,
                start == (self.nodes@, self.edges@),
                inline_steps(start, entities@, limit as nat) == inline_steps(
                    (graph.nodes@, graph.edges@),
                    entities@,
                    (limit - steps) as nat,
                ),
            ensures
                inline_steps(start, entities@, limit as nat) == Ok::<
                    (Seq<Node>, Seq<Edge>),
                    InlineError,
                >((graph.nodes@, graph.edges@)),
            decreases limit - steps,
        {
            let at = find_instance(&graph.nodes);
            if at >= graph.nodes.len() {
                proof {
                    lemma_inline_done(
                        (graph.nodes@, graph.edges@),
                        entities@,
                        (limit - steps) as nat,
                    );
                }
                break ;
            }
            let ghost current = (graph.nodes@, graph.edges@);
            let ghost left = (limit - steps) as nat;
            proof {
                assert(inline_steps(current, entities@, left) == match inline_step(
                    current,
                    entities@,
                ) {
                    Ok(next) => inline_steps(next, entities@, (left - 1) as nat),
                    Err(e) => Err(e),
                });
            }
            match graph.inline_first(entities, at) {
                Ok(()) => {},
                Err(e) => {
                    return Err(e);
                },
            }
            steps += 1;
        }
        let at = find_instance(&graph.nodes);
        if at < graph.nodes.len() {
            return Err(InlineError::TooManyInstances);
        }
        proof {
            lemma_first_instance(graph.nodes@);
        }
        let mut nodes: Vec<builtin::Node> = Vec::new();
        let mut i: usize = 0;
        while i < graph.nodes.len()
            invariant
                0 <= i <= graph.nodes.len(),
                nodes@ == plain_nodes(graph.nodes@.take(i as int)),
            decreases graph.nodes.len() - i,
        {
            let inner = match &graph.nodes[i].inner {
                NodeType::Input { name, number } => builtin::NodeType::Input {
                    name: name.clone(),
                    number: *number,
                },
                NodeType::Output { name, number } => builtin::NodeType::Output {
                    name: name.clone(),
                    number: *number,
                },
                NodeType::Variable { name } => builtin::NodeType::Variable { name: name.clone() },
                NodeType::BuiltinOp { op } => builtin::NodeType::BuiltinOp {
                    op: match op {
                        BuiltinOp::And => builtin::BuiltinOp::And,
                        BuiltinOp::Not => builtin::BuiltinOp::Not,
                        BuiltinOp::Xor => builtin::BuiltinOp::Xor,
                        BuiltinOp::Or => builtin::BuiltinOp::Or,
                    },
                },
                NodeType::EntityOp { name } => builtin::NodeType::Variable { name: name.clone() },
            };
            nodes.push(builtin::Node::new(graph.nodes[i].id, inner));
            proof {
                assert(nodes@ =~= plain_nodes(graph.nodes@.take(i + 1)));
            }
            i += 1;
        }
        proof {
            assert(graph.nodes@.take(i as int) =~= graph.nodes@);
        }
        Ok(builtin::Graph::new(nodes, graph.edges))
    }
}

} // verus!
