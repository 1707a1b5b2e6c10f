//! From meaning to graph: every entity as the graph of its ports,
//! operations and variables.

use vstd::prelude::*;

use super::semantics::{Behaviour, BehaviourValue, BuiltinOp, Entity, Operand, Port, Variable};
use crate::graph::builtin::{lower_nodes, split_all, splitter_node};
use crate::graph::entity;
use crate::graph::entity::{first_instance, plain_nodes, Edge, Graph, Node, NodeType};
use crate::graph::general::{acyclic, ends_exist, has_id, respects};
use crate::graph::normalized;

verus! {

/// Why an entity could not be turned into a graph.
#[derive(Debug, Clone, Copy, PartialEq, Eq, Structural)]
pub enum GraphError {
    /// A statement uses a port or variable that the entity does not have.
    UnknownName,
    /// The entity needs more nodes than there are ids.
    TooManyNodes,
}

/// The id that was last given to the name `name` in `table`, if any.
pub open spec fn last_id(table: Seq<(String, u32)>, name: Seq<char>) -> Option<u32>
    decreases table.len(),
{
    if table.len() == 0 {
        None
    } else if table.last().0@ == name {
        Some(table.last().1)
    } else {
        last_id(table.drop_last(), name)
    }
}

/// The node that the operand `arg` reads from: the input node of the port,
/// or the node of the variable.
pub open spec fn operand_source(
    arg: Operand,
    in_ids: Seq<(String, u32)>,
    var_ids: Seq<(String, u32)>,
) -> Option<u32> {
    match arg {
        Operand::Port(p) => last_id(in_ids, p.name@),
        Operand::Variable(v) => last_id(var_ids, v.name@),
    }
}

/// The edges that feed the arguments to the node `node_id`: the `k`-th
/// argument arrives at input port `k`.
pub open spec fn argument_edges(
    arguments: Seq<Operand>,
    node_id: u32,
    in_ids: Seq<(String, u32)>,
    var_ids: Seq<(String, u32)>,
) -> Result<Seq<Edge>, GraphError>
    decreases arguments.len(),
{
    if arguments.len() == 0 {
        Ok(Seq::empty())
    } else {
        match argument_edges(arguments.drop_last(), node_id, in_ids, var_ids) {
            Err(e) => Err(e),
            Ok(rest) => match operand_source(arguments.last(), in_ids, var_ids) {
                None => Err(GraphError::UnknownName),
                Some(src) => Ok(
                    rest.push(
                        Edge {
                            src_id: src,
                            src_port: 0,
                            dest_id: node_id,
                            dest_port: (arguments.len() - 1) as u32,
                        },
                    ),
                ),
            },
        }
    }
}

/// The output ports of the variables `vars`: for each the node that was
/// last given to its name, at port 0.
pub open spec fn variable_sources(vars: Seq<Variable>, var_ids: Seq<(String, u32)>) -> Result<
    Seq<(u32, u32)>,
    GraphError,
>
    decreases vars.len(),
{
    if vars.len() == 0 {
        Ok(Seq::empty())
    } else {
        match variable_sources(vars.drop_last(), var_ids) {
            Err(e) => Err(e),
            Ok(rest) => match last_id(var_ids, vars.last().name@) {
                None => Err(GraphError::UnknownName),
                Some(src) => Ok(rest.push((src, 0u32))),
            },
        }
    }
}

/// The operation of the graph that stands for `op`.
pub open spec fn graph_op(op: BuiltinOp) -> entity::BuiltinOp {
    match op {
        BuiltinOp::And => entity::BuiltinOp::And,
        BuiltinOp::Xor => entity::BuiltinOp::Xor,
        BuiltinOp::Not => entity::BuiltinOp::Not,
        BuiltinOp::Or => entity::BuiltinOp::Or,
    }
}

/// What a value contributes to the graph when it is given the id
/// `node_id`: its node, if it has one; the edges that arrive at the node;
/// and the output ports at which its results appear.
pub open spec fn value_graph(
    value: BehaviourValue,
    node_id: u32,
    in_ids: Seq<(String, u32)>,
    var_ids: Seq<(String, u32)>,
) -> Result<(Option<Node>, Seq<Edge>, Seq<(u32, u32)>), GraphError> {
    match value {
        BehaviourValue::BuiltinOp { op, arguments } => match argument_edges(
            arguments@,
            node_id,
            in_ids,
            var_ids,
        ) {
            Err(e) => Err(e),
            Ok(edges) => Ok(
                (
                    Some(Node { id: node_id, inner: NodeType::BuiltinOp { op: graph_op(op) } }),
                    edges,
                    seq![(node_id, 0u32)],
                ),
            ),
        },
        BehaviourValue::EntityOp { op, arguments, port_count } => match argument_edges(
            arguments@,
            node_id,
            in_ids,
            var_ids,
        ) {
            Err(e) => Err(e),
            Ok(edges) => Ok(
                (
                    Some(Node { id: node_id, inner: NodeType::EntityOp { name: op } }),
                    edges,
                    Seq::new(port_count as nat, |p: int| (node_id, p as u32)),
                ),
            ),
        },
        BehaviourValue::Variables { vars } => match variable_sources(vars@, var_ids) {
            Err(e) => Err(e),
            Ok(sources) => Ok((None, Seq::empty(), sources)),
        },
    }
}

/// The id in `table` that was last given to `name`.
fn lookup(table: &Vec<(String, u32)>, name: &String) -> (id: Option<u32>)
    ensures
        id == last_id(table@, name@),
{
    let mut i: usize = table.len();
    proof {
        assert(table@.take(i as int) =~= table@);
    }
    while i > 0
        invariant
            0 <= i <= table.len(),
            last_id(table@, name@) == last_id(table@.take(i as int), name@),
        decreases i,
    {
        proof {
            assert(table@.take(i as int).drop_last() =~= table@.take(i - 1));
            assert(table@.take(i as int).last() == table@[i - 1]);
        }
        if table[i - 1].0 == *name {
            return Some(table[i - 1].1);
        }
        i -= 1;
    }
    None
}

/// A list of arguments that fails up to some argument fails as a whole.
proof fn lemma_argument_edges_fail(
    arguments: Seq<Operand>,
    node_id: u32,
    in_ids: Seq<(String, u32)>,
    var_ids: Seq<(String, u32)>,
    upto: int,
)
    requires
        0 <= upto <= arguments.len(),
        argument_edges(arguments.take(upto), node_id, in_ids, var_ids) is Err,
    ensures
        argument_edges(arguments, node_id, in_ids, var_ids) == argument_edges(
            arguments.take(upto),
            node_id,
            in_ids,
            var_ids,
        ),
    decreases arguments.len() - upto,
{
    if upto < arguments.len() {
        assert(arguments.take(upto + 1).drop_last() =~= arguments.take(upto));
        lemma_argument_edges_fail(arguments, node_id, in_ids, var_ids, upto + 1);
    } else {
        assert(arguments.take(upto) =~= arguments);
    }
}

/// A list of variables that fails up to some variable fails as a whole.
proof fn lemma_variable_sources_fail(vars: Seq<Variable>, var_ids: Seq<(String, u32)>, upto: int)
    requires
        0 <= upto <= vars.len(),
        variable_sources(vars.take(upto), var_ids) is Err,
    ensures
        variable_sources(vars, var_ids) == variable_sources(vars.take(upto), var_ids),
    decreases vars.len() - upto,
{
    if upto < vars.len() {
        assert(vars.take(upto + 1).drop_last() =~= vars.take(upto));
        lemma_variable_sources_fail(vars, var_ids, upto + 1);
    } else {
        assert(vars.take(upto) =~= vars);
    }
}

/// The edges that feed `arguments` to the node `node_id`.
fn edges_for(
    arguments: &Vec<Operand>,
    node_id: u32,
    in_ids: &Vec<(String, u32)>,
    var_ids: &Vec<(String, u32)>,
) -> (result: Result<Vec<Edge>, GraphError>)
    ensures
        match argument_edges(arguments@, node_id, in_ids@, var_ids@) {
            Ok(edges) => result matches Ok(made) && made@ == edges,
            Err(e) => result == Err::<Vec<Edge>, GraphError>(e),
        },
{
    let mut edges: Vec<Edge> = Vec::new();
    let mut i: usize = 0;
    while i < arguments.len()
        invariant
            0 <= i <= arguments.len(),
            argument_edges(arguments@.take(i as int), node_id, in_ids@, var_ids@) == Ok::<
                Seq<Edge>,
                GraphError,
            >(edges@),
        decreases arguments.len() - i,
    {
        proof {
            assert(arguments@.take(i + 1).drop_last() =~= arguments@.take(i as int));
            assert(arguments@.take(i + 1).last() == arguments@[i as int]);
        }
        let src = match &arguments[i] {
            Operand::Port(p) => lookup(in_ids, &p.name),
            Operand::Variable(v) => lookup(var_ids, &v.name),
        };
        match src {
            Some(src) => {
                edges.push(Edge::new(src, 0, node_id, i as u32));
            },
            None => {
                proof {
                    lemma_argument_edges_fail(arguments@, node_id, in_ids@, var_ids@, i + 1);
                }
                return Err(GraphError::UnknownName);
            },
        }
        i += 1;
    }
    proof {
        assert(arguments@.take(i as int) =~= arguments@);
    }
    Ok(edges)
}

/// The output ports of the variables `vars`.
fn sources_for(vars: &Vec<Variable>, var_ids: &Vec<(String, u32)>) -> (result: Result<
    Vec<(u32, u32)>,
    GraphError,
>)
    ensures
        match variable_sources(vars@, var_ids@) {
            Ok(sources) => result matches Ok(made) && made@ == sources,
            Err(e) => result == Err::<Vec<(u32, u32)>, GraphError>(e),
        },
{
    let mut sources: Vec<(u32, u32)> = Vec::new();
    let mut i: usize = 0;
    while i < vars.len()
        invariant
            0 <= i <= vars.len(),
            variable_sources(vars@.take(i as int), var_ids@) == Ok::<Seq<(u32, u32)>, GraphError>(
                sources@,
            ),
        decreases vars.len() - i,
    {
        proof {
            assert(vars@.take(i + 1).drop_last() =~= vars@.take(i as int));
            assert(vars@.take(i + 1).last() == vars@[i as int]);
        }
        match lookup(var_ids, &vars[i].name) {
            Some(src) => {
                sources.push((src, 0));
            },
            None => {
                proof {
                    lemma_variable_sources_fail(vars@, var_ids@, i + 1);
                }
                return Err(GraphError::UnknownName);
            },
        }
        i += 1;
    }
    proof {
        assert(vars@.take(i as int) =~= vars@);
    }
    Ok(sources)
}

impl BehaviourValue {
    /// What the value contributes to the graph when it is given the id
    /// `node_id`.
    pub fn to_graph(
        &self,
        node_id: u32,
        in_ports: &Vec<(String, u32)>,
        var_ids: &Vec<(String, u32)>,
    ) -> (result: Result<(Option<Node>, Vec<Edge>, Vec<(u32, u32)>), GraphError>)
        ensures
            match value_graph(*self, node_id, in_ports@, var_ids@) {
                Ok(parts) => result matches Ok(made) && made.0 == parts.0 && made.1@ == parts.1
                    && made.2@ == parts.2,
                Err(e) => result == Err::<(Option<Node>, Vec<Edge>, Vec<(u32, u32)>), GraphError>(
                    e,
                ),
            },
    {
        match self {
            BehaviourValue::BuiltinOp { op, arguments } => {
                let edges = match edges_for(arguments, node_id, in_ports, var_ids) {
                    Ok(edges) => edges,
                    Err(e) => {
                        return Err(e);
                    },
                };
                let kind = match op {
                    BuiltinOp::And => entity::BuiltinOp::And,
                    BuiltinOp::Xor => entity::BuiltinOp::Xor,
                    BuiltinOp::Not => entity::BuiltinOp::Not,
                    BuiltinOp::Or => entity::BuiltinOp::Or,
                };
                let node = Node::new(node_id, NodeType::BuiltinOp { op: kind });
                let sources = vec![(node_id, 0u32)];
                proof {
                    assert(sources@ =~= seq![(node_id, 0u32)]);
                }
                Ok((Some(node), edges, sources))
            },
            BehaviourValue::EntityOp { op, arguments, port_count } => {
                let edges = match edges_for(arguments, node_id, in_ports, var_ids) {
                    Ok(edges) => edges,
                    Err(e) => {
                        return Err(e);
                    },
                };
                let node = Node::new(node_id, NodeType::EntityOp { name: op.clone() });
                let mut sources: Vec<(u32, u32)> = Vec::new();
                let mut p: u32 = 0;
                while p < *port_count
                    invariant
                        0 <= p <= *port_count,
                        sources@ == Seq::new(p as nat, |k: int| (node_id, k as u32)),
                    decreases *port_count - p,
                {
                    sources.push((node_id, p));
                    proof {
                        assert(sources@ =~= Seq::new((p + 1) as nat, |k: int| (node_id, k as u32)));
                    }
                    p += 1;
                }
                Ok((Some(node), edges, sources))
            },
            BehaviourValue::Variables { vars } => {
                match sources_for(vars, var_ids) {
                    Ok(sources) => Ok((None, Vec::new(), sources)),
                    Err(e) => Err(e),
                }
            },
        }
    }
}

/// The nodes of the ports `ports`, input nodes if `input` and output nodes
/// otherwise: the `k`-th port has the number `k` and the id
/// `first_id + k`.
pub open spec fn port_nodes(ports: Seq<Port>, first_id: int, input: bool) -> Seq<Node> {
    Seq::new(
        ports.len(),
        |k: int|
            Node {
                id: (first_id + k) as u32,
                inner: if input {
                    NodeType::Input { name: ports[k].name, number: k as u32 }
                } else {
                    NodeType::Output { name: ports[k].name, number: k as u32 }
                },
            },
    )
}

/// The ids of the nodes of the ports `ports`, by name.
pub open spec fn port_ids(ports: Seq<Port>, first_id: int) -> Seq<(String, u32)> {
    Seq::new(ports.len(), |k: int| (ports[k].name, (first_id + k) as u32))
}

/// The graph of the statements read so far: the next free id, the node of
/// every variable by name, and the nodes and edges made.
pub struct Made {
    pub next_id: int,
    pub var_ids: Seq<(String, u32)>,
    pub nodes: Seq<Node>,
    pub edges: Seq<Edge>,
}

/// The smaller of two lengths.
pub open spec fn shorter(a: nat, b: nat) -> nat {
    if a <= b {
        a
    } else {
        b
    }
}

/// The edges that lead the results at `sources` to the output nodes of the
/// ports `targets`, the `k`-th result to the `k`-th port.
pub open spec fn port_edges(
    targets: Seq<Port>,
    sources: Seq<(u32, u32)>,
    out_ids: Seq<(String, u32)>,
    upto: nat,
) -> Result<Seq<Edge>, GraphError>
    decreases upto,
{
    if upto == 0 {
        Ok(Seq::empty())
    } else {
        match port_edges(targets, sources, out_ids, (upto - 1) as nat) {
            Err(e) => Err(e),
            Ok(rest) => match last_id(out_ids, targets[upto - 1].name@) {
                None => Err(GraphError::UnknownName),
                Some(port) => Ok(
                    rest.push(
                        Edge {
                            src_id: sources[upto - 1].0,
                            src_port: sources[upto - 1].1,
                            dest_id: port,
                            dest_port: 0,
                        },
                    ),
                ),
            },
        }
    }
}

/// The graph once the statement `stmt` has been added: its value takes the
/// next free id, whether it has a node or not; every variable that it
/// assigns takes an id and a node of its own, fed by the result that it
/// stands for; and every port that it assigns is fed by the result that it
/// takes. Targets beyond the results, and results beyond the targets, are
/// left out.
pub open spec fn add_statement(
    made: Made,
    stmt: Behaviour,
    in_ids: Seq<(String, u32)>,
    out_ids: Seq<(String, u32)>,
) -> Result<Made, GraphError> {
    let value = match stmt {
        Behaviour::VarAssign { value, .. } => value,
        Behaviour::PortAssign { value, .. } => value,
    };
    if made.next_id > u32::MAX {
        Err(GraphError::TooManyNodes)
    } else {
        match value_graph(value, made.next_id as u32, in_ids, made.var_ids) {
            Err(e) => Err(e),
            Ok((node, edges, sources)) => {
                let nodes = match node {
                    Some(node) => made.nodes.push(node),
                    None => made.nodes,
                };
                let first = made.next_id + 1;
                match stmt {
                    Behaviour::VarAssign { targets, .. } => {
                        let n = shorter(targets@.len(), sources.len());
                        if first + n > u32::MAX + 1 {
                            Err(GraphError::TooManyNodes)
                        } else {
                            Ok(
                                Made {
                                    next_id: first + n,
                                    var_ids: made.var_ids + Seq::new(
                                        n,
                                        |k: int| (targets@[k].name, (first + k) as u32),
                                    ),
                                    nodes: nodes + Seq::new(
                                        n,
                                        |k: int|
                                            Node {
                                                id: (first + k) as u32,
                                                inner: NodeType::Variable { name: targets@[k].name },
                                            },
                                    ),
                                    edges: made.edges + edges + Seq::new(
                                        n,
                                        |k: int|
                                            Edge {
                                                src_id: sources[k].0,
                                                src_port: sources[k].1,
                                                dest_id: (first + k) as u32,
                                                dest_port: 0,
                                            },
                                    ),
                                },
                            )
                        }
                    },
                    Behaviour::PortAssign { targets, .. } => match port_edges(
                        targets@,
                        sources,
                        out_ids,
                        shorter(targets@.len(), sources.len()),
                    ) {
                        Err(e) => Err(e),
                        Ok(more) => Ok(
                            Made {
                                next_id: first,
                                var_ids: made.var_ids,
                                nodes,
                                edges: made.edges + edges + more,
                            },
                        ),
                    },
                }
            },
        }
    }
}

/// The graph once the statements `stmts` have been added, first to last.
pub open spec fn add_statements(
    made: Made,
    stmts: Seq<Behaviour>,
    in_ids: Seq<(String, u32)>,
    out_ids: Seq<(String, u32)>,
) -> Result<Made, GraphError>
    decreases stmts.len(),
{
    if stmts.len() == 0 {
        Ok(made)
    } else {
        match add_statements(made, stmts.drop_last(), in_ids, out_ids) {
            Err(e) => Err(e),
            Ok(so_far) => add_statement(so_far, stmts.last(), in_ids, out_ids),
        }
    }
}

/// The graph of an entity: an input node for every input port, then an
/// output node for every output port, then the nodes of the statements;
/// ids are given out in that order, from 0.
pub open spec fn entity_graph(e: Entity) -> Result<(Seq<Node>, Seq<Edge>), GraphError> {
    let ins = e.in_ports@.len();
    let outs = e.out_ports@.len();
    if ins + outs > u32::MAX {
        Err(GraphError::TooManyNodes)
    } else {
        match add_statements(
            Made {
                next_id: (ins + outs) as int,
                var_ids: Seq::empty(),
                nodes: Seq::empty(),
                edges: Seq::empty(),
            },
            e.behaviour@,
            port_ids(e.in_ports@, 0),
            port_ids(e.out_ports@, ins as int),
        ) {
            Err(e) => Err(e),
            Ok(made) => Ok(
                (
                    port_nodes(e.in_ports@, 0, true) + port_nodes(e.out_ports@, ins as int, false)
                        + made.nodes,
                    made.edges,
                ),
            ),
        }
    }
}

/// Whether no node of `nodes` is an input or an output.
pub open spec fn inner_only(nodes: Seq<Node>) -> bool {
    forall|k: int|
        0 <= k < nodes.len() ==> !((#[trigger] nodes[k]).inner is Input) && !(nodes[k].inner
            is Output)
}

/// Statements add no input and no output node.
pub proof fn lemma_statements_add_inner_nodes(
    made: Made,
    stmts: Seq<Behaviour>,
    in_ids: Seq<(String, u32)>,
    out_ids: Seq<(String, u32)>,
)
    requires
        inner_only(made.nodes),
        add_statements(made, stmts, in_ids, out_ids) is Ok,
    ensures
        inner_only(add_statements(made, stmts, in_ids, out_ids)->Ok_0.nodes),
    decreases stmts.len(),
{
    if stmts.len() > 0 {
        lemma_statements_add_inner_nodes(made, stmts.drop_last(), in_ids, out_ids);
    }
}

/// A statement list that fails up to some statement fails as a whole, in
/// the same way.
proof fn lemma_add_statements_fail(
    made: Made,
    stmts: Seq<Behaviour>,
    in_ids: Seq<(String, u32)>,
    out_ids: Seq<(String, u32)>,
    upto: int,
)
    requires
        0 <= upto <= stmts.len(),
        add_statements(made, stmts.take(upto), in_ids, out_ids) is Err,
    ensures
        add_statements(made, stmts, in_ids, out_ids) == add_statements(
            made,
            stmts.take(upto),
            in_ids,
            out_ids,
        ),
    decreases stmts.len() - upto,
{
    if upto < stmts.len() {
        assert(stmts.take(upto + 1).drop_last() =~= stmts.take(upto));
        lemma_add_statements_fail(made, stmts, in_ids, out_ids, upto + 1);
    } else {
        assert(stmts.take(upto) =~= stmts);
    }
}

/// The nodes and the ids of the ports `ports`.
fn make_ports(ports: &Vec<Port>, first_id: u32, input: bool) -> (made: (Vec<Node>, Vec<(String, u32)>))
    requires
        first_id + ports@.len() <= u32::MAX,
    ensures
        made.0@ == port_nodes(ports@, first_id as int, input),
        made.1@ == port_ids(ports@, first_id as int),
{
    let mut nodes: Vec<Node> = Vec::new();
    let mut ids: Vec<(String, u32)> = Vec::new();
    let mut i: usize = 0;
    while i < ports.len()
        invariant
            0 <= i <= ports.len(),
            first_id + ports@.len() <= u32::MAX,
            nodes@ == port_nodes(ports@, first_id as int, input).take(i as int),
            ids@ == port_ids(ports@, first_id as int).take(i as int),
        decreases ports.len() - i,
    {
        let id = first_id + i as u32;
        let inner = if input {
            NodeType::Input { name: ports[i].name.clone(), number: i as u32 }
        } else {
            NodeType::Output { name: ports[i].name.clone(), number: i as u32 }
        };
        nodes.push(Node::new(id, inner));
        ids.push((ports[i].name.clone(), id));
        proof {
            assert(nodes@ =~= port_nodes(ports@, first_id as int, input).take(i + 1));
            assert(ids@ =~= port_ids(ports@, first_id as int).take(i + 1));
        }
        i += 1;
    }
    proof {
        assert(port_nodes(ports@, first_id as int, input).take(i as int) =~= port_nodes(
            ports@,
            first_id as int,
            input,
        ));
        assert(port_ids(ports@, first_id as int).take(i as int) =~= port_ids(
            ports@,
            first_id as int,
        ));
    }
    (nodes, ids)
}

/// The edges that lead the first `n` results to the output nodes of the
/// first `n` ports.
fn edges_to_ports(
    targets: &Vec<Port>,
    sources: &Vec<(u32, u32)>,
    out_ids: &Vec<(String, u32)>,
    n: usize,
) -> (result: Result<Vec<Edge>, GraphError>)
    requires
        n <= targets@.len(),
        n <= sources@.len(),
    ensures
        match port_edges(targets@, sources@, out_ids@, n as nat) {
            Ok(edges) => result matches Ok(made) && made@ == edges,
            Err(e) => result == Err::<Vec<Edge>, GraphError>(e),
        },
{
    let mut more: Vec<Edge> = Vec::new();
    let mut k: usize = 0;
    while k < n
        invariant
            0 <= k <= n,
            n <= targets@.len(),
            n <= sources@.len(),
            port_edges(targets@, sources@, out_ids@, k as nat) == Ok::<Seq<Edge>, GraphError>(
                more@,
            ),
        decreases n - k,
    {
        match lookup(out_ids, &targets[k].name) {
            Some(port) => {
                more.push(Edge::new(sources[k].0, sources[k].1, port, 0));
            },
            None => {
                proof {
                    lemma_port_edges_fail(targets@, sources@, out_ids@, (k + 1) as nat, n as nat);
                }
                return Err(GraphError::UnknownName);
            },
        }
        k += 1;
    }
    Ok(more)
}

/// The graph of the statements read so far.
pub struct Builder {
    pub next_id: u64,
    pub var_ids: Vec<(String, u32)>,
    pub nodes: Vec<Node>,
    pub edges: Vec<Edge>,
}

impl Builder {
    pub open spec fn view(&self) -> Made {
        Made {
            next_id: self.next_id as int,
            var_ids: self.var_ids@,
            nodes: self.nodes@,
            edges: self.edges@,
        }
    }

    /// Adds the statement `stmt`.
    fn add(
        &mut self,
        stmt: &Behaviour,
        in_ids: &Vec<(String, u32)>,
        out_ids: &Vec<(String, u32)>,
    ) -> (result: Result<(), GraphError>)
        requires
            old(self).next_id <= u32::MAX + 1,
        ensures
            match add_statement(old(self)@, *stmt, in_ids@, out_ids@) {
                Ok(made) => result is Ok && final(self)@ == made && final(self).next_id <= u32::MAX
                    + 1,
                Err(e) => result == Err::<(), GraphError>(e),
            },
    {
        if self.next_id > u32::MAX as u64 {
            return Err(GraphError::TooManyNodes);
        }
        let node_id = self.next_id as u32;
        let value = match stmt {
            Behaviour::VarAssign { value, .. } => value,
            Behaviour::PortAssign { value, .. } => value,
        };
        let (node, mut edges, sources) = match value.to_graph(node_id, in_ids, &self.var_ids) {
            Ok(parts) => parts,
            Err(e) => {
                return Err(e);
            },
        };
        let ghost before = self@;
        let ghost value_edges = edges@;
        match stmt {
            Behaviour::VarAssign { targets, .. } => {
                let n = if targets.len() <= sources.len() {
                    targets.len()
                } else {
                    sources.len()
                };
                let first = self.next_id + 1;
                if n as u64 > u32::MAX as u64 + 1 - first {
                    return Err(GraphError::TooManyNodes);
                }
                match node {
                    Some(node) => {
                        self.nodes.push(node);
                    },
                    None => {},
                }
                self.edges.append(&mut edges);
                let ghost nodes = self.nodes@;
                let ghost all_edges = self.edges@;
                let mut k: usize = 0;
                while k < n
                    invariant
                        0 <= k <= n,
                        n <= targets@.len(),
                        n <= sources@.len(),
                        first + n <= u32::MAX + 1,
                        self.next_id == before.next_id,
                        self.var_ids@ == before.var_ids + Seq::new(
                            k as nat,
                            |j: int| (targets@[j].name, (first + j) as u32),
                        ),
                        self.nodes@ == nodes + Seq::new(
                            k as nat,
                            |j: int|
                                Node {
                                    id: (first + j) as u32,
                                    inner: NodeType::Variable { name: targets@[j].name },
                                },
                        ),
                        self.edges@ == all_edges + Seq::new(
                            k as nat,
                            |j: int|
                                Edge {
                                    src_id: sources@[j].0,
                                    src_port: sources@[j].1,
                                    dest_id: (first + j) as u32,
                                    dest_port: 0,
                                },
                        ),
                    decreases n - k,
                {
                    let var_id = (first + k as u64) as u32;
                    self.var_ids.push((targets[k].name.clone(), var_id));
                    self.nodes.push(
                        Node::new(var_id, NodeType::Variable { name: targets[k].name.clone() }),
                    );
                    self.edges.push(Edge::new(sources[k].0, sources[k].1, var_id, 0));
                    proof {
                        assert(self.var_ids@ =~= before.var_ids + Seq::new(
                            (k + 1) as nat,
                            |j: int| (targets@[j].name, (first + j) as u32),
                        ));
                        assert(self.nodes@ =~= nodes + Seq::new(
                            (k + 1) as nat,
                            |j: int|
                                Node {
                                    id: (first + j) as u32,
                                    inner: NodeType::Variable { name: targets@[j].name },
                                },
                        ));
                        assert(self.edges@ =~= all_edges + Seq::new(
                            (k + 1) as nat,
                            |j: int|
                                Edge {
                                    src_id: sources@[j].0,
                                    src_port: sources@[j].1,
                                    dest_id: (first + j) as u32,
                                    dest_port: 0,
                                },
                        ));
                    }
                    k += 1;
                }
                self.next_id = first + n as u64;
                Ok(())
            },
            Behaviour::PortAssign { targets, .. } => {
                let n = if targets.len() <= sources.len() {
                    targets.len()
                } else {
                    sources.len()
                };
                let mut more = match edges_to_ports(targets, &sources, out_ids, n) {
                    Ok(more) => more,
                    Err(e) => {
                        return Err(e);
                    },
                };
                match node {
                    Some(node) => {
                        self.nodes.push(node);
                    },
                    None => {},
                }
                self.edges.append(&mut edges);
                self.edges.append(&mut more);
                self.next_id = self.next_id + 1;
                Ok(())
            },
        }
    }
}

/// Port edges that fail up to some target fail for every longer list, in
/// the same way.
proof fn lemma_port_edges_fail(
    targets: Seq<Port>,
    sources: Seq<(u32, u32)>,
    out_ids: Seq<(String, u32)>,
    upto: nat,
    all: nat,
)
    requires
        upto <= all,
        port_edges(targets, sources, out_ids, upto) is Err,
    ensures
        port_edges(targets, sources, out_ids, all) == port_edges(targets, sources, out_ids, upto),
    decreases all - upto,
{
    if upto < all {
        lemma_port_edges_fail(targets, sources, out_ids, upto, (all - 1) as nat);
    }
}

impl Entity {
    /// The graph of the entity.
    pub fn graph(&self) -> (result: Result<Graph, GraphError>)
        ensures
            match entity_graph(*self) {
                Ok(parts) => result matches Ok(graph) && graph.nodes@ == parts.0 && graph.edges@
                    == parts.1,
                Err(e) => result == Err::<Graph, GraphError>(e),
            },
            result matches Ok(graph) ==> ends_exist(graph.nodes@, graph.edges@) && acyclic(
                graph.edges@,
            ),
    {
        proof {
            if entity_graph(*self) is Ok {
                lemma_entity_graph_sound(*self);
            }
        }
        let ins = self.in_ports.len();
        let outs = self.out_ports.len();
        if ins as u128 + outs as u128 > u32::MAX as u128 {
            return Err(GraphError::TooManyNodes);
        }
        let (mut nodes, in_ids) = make_ports(&self.in_ports, 0, true);
        let (mut output_nodes, out_ids) = make_ports(&self.out_ports, ins as u32, false);
        let mut builder = Builder {
            next_id: (ins + outs) as u64,
            var_ids: Vec::new(),
            nodes: Vec::new(),
            edges: Vec::new(),
        };
        let ghost start = builder@;
        let mut i: usize = 0;
        while i < self.behaviour.len()
            invariant
                0 <= i <= self.behaviour.len(),
                builder.next_id <= u32::MAX + 1,
                start.next_id == ins + outs,
                ins == self.in_ports@.len(),
                outs == self.out_ports@.len(),
                ins + outs <= u32::MAX,
                start.var_ids == Seq::<(String, u32)>::empty(),
                start.nodes == Seq::<Node>::empty(),
                start.edges == Seq::<Edge>::empty(),
                in_ids@ == port_ids(self.in_ports@, 0),
                out_ids@ == port_ids(self.out_ports@, ins as int),
                add_statements(start, self.behaviour@.take(i as int), in_ids@, out_ids@) == Ok::<
                    Made,
                    GraphError,
                >(builder@),
            decreases self.behaviour.len() - i,
        {
            proof {
                assert(self.behaviour@.take(i + 1).drop_last() =~= self.behaviour@.take(i as int));
                assert(self.behaviour@.take(i + 1).last() == self.behaviour@[i as int]);
            }
            match builder.add(&self.behaviour[i], &in_ids, &out_ids) {
                Ok(()) => {},
                Err(e) => {
                    proof {
                        lemma_add_statements_fail(
                            start,
                            self.behaviour@,
                            in_ids@,
                            out_ids@,
                            i + 1,
                        );
                    }
                    return Err(e);
                },
            }
            i += 1;
        }
        proof {
            assert(self.behaviour@.take(i as int) =~= self.behaviour@);
        }
        nodes.append(&mut output_nodes);
        let mut inner_nodes = builder.nodes;
        nodes.append(&mut inner_nodes);
        Ok(Graph::new(nodes, builder.edges))
    }
}

/// The rank of a node in the graph of an entity with `ins` input and `outs`
/// output ports: output nodes rank above every other node, and every other
/// node ranks by its id.
pub open spec fn rank_in(ins: int, outs: int) -> spec_fn(u32) -> int {
    |v: u32|
        if ins <= v < ins + outs {
            v + 0x1_0000_0000
        } else {
            v as int
        }
}

/// Whether the edge `e` leads from an input node or a node of `nodes` to a
/// later node of `nodes` or to an output node.
pub open spec fn edge_ok(e: Edge, nodes: Seq<Node>, ins: int, outs: int) -> bool {
    &&& e.src_id < ins || (ins + outs <= e.src_id && has_id(nodes, e.src_id))
    &&& (ins <= e.dest_id < ins + outs) || (ins + outs <= e.dest_id && e.src_id < e.dest_id
        && has_id(nodes, e.dest_id))
}

/// Whether every id of `table` lies from `low` to just before `high`.
pub open spec fn ids_within(table: Seq<(String, u32)>, low: int, high: int) -> bool {
    forall|k: int| 0 <= k < table.len() ==> low <= (#[trigger] table[k]).1 < high
}

/// Whether the graph made so far is sound: every id was given out in
/// order, every variable has its node, and every edge leads forward.
pub open spec fn well_made(made: Made, ins: int, outs: int) -> bool {
    &&& 0 <= ins && 0 <= outs
    &&& ins + outs <= made.next_id
    &&& ids_within(made.var_ids, ins + outs, made.next_id)
    &&& forall|k: int|
        0 <= k < made.var_ids.len() ==> has_id(made.nodes, (#[trigger] made.var_ids[k]).1)
    &&& forall|k: int|
        0 <= k < made.nodes.len() ==> ins + outs <= (#[trigger] made.nodes[k]).id < made.next_id
    &&& forall|k: int|
        0 <= k < made.edges.len() ==> edge_ok(#[trigger] made.edges[k], made.nodes, ins, outs)
}

/// An id that a table gives is one of its ids.
proof fn lemma_last_id(table: Seq<(String, u32)>, name: Seq<char>)
    ensures
        last_id(table, name) matches Some(id) ==> exists|k: int|
            0 <= k < table.len() && (#[trigger] table[k]).1 == id,
    decreases table.len(),
{
    if table.len() > 0 {
        if table.last().0@ == name {
            assert(table[table.len() - 1].1 == table.last().1);
        } else {
            lemma_last_id(table.drop_last(), name);
            if last_id(table, name) is Some {
                let k = choose|k: int|
                    0 <= k < table.drop_last().len() && (#[trigger] table.drop_last()[k]).1
                        == last_id(table, name)->0;
                assert(table[k] == table.drop_last()[k]);
            }
        }
    }
}

/// Whether `src` is an input node or the node of a variable.
pub open spec fn known_source(src: u32, var_ids: Seq<(String, u32)>, ins: int) -> bool {
    src < ins || exists|k: int| 0 <= k < var_ids.len() && (#[trigger] var_ids[k]).1 == src
}

/// The edges of arguments lead from input nodes and variables to the node
/// that takes them.
proof fn lemma_argument_edges(
    arguments: Seq<Operand>,
    node_id: u32,
    in_ids: Seq<(String, u32)>,
    var_ids: Seq<(String, u32)>,
    ins: int,
)
    requires
        ids_within(in_ids, 0, ins),
        argument_edges(arguments, node_id, in_ids, var_ids) is Ok,
    ensures
        forall|k: int|
            0 <= k < argument_edges(arguments, node_id, in_ids, var_ids)->Ok_0.len() ==> {
                let e = #[trigger] argument_edges(arguments, node_id, in_ids, var_ids)->Ok_0[k];
                e.dest_id == node_id && known_source(e.src_id, var_ids, ins)
            },
    decreases arguments.len(),
{
    if arguments.len() > 0 {
        let rest = argument_edges(arguments.drop_last(), node_id, in_ids, var_ids)->Ok_0;
        lemma_argument_edges(arguments.drop_last(), node_id, in_ids, var_ids, ins);
        let all = argument_edges(arguments, node_id, in_ids, var_ids)->Ok_0;
        let src = operand_source(arguments.last(), in_ids, var_ids)->0;
        match arguments.last() {
            Operand::Port(p) => {
                lemma_last_id(in_ids, p.name@);
            },
            Operand::Variable(v) => {
                lemma_last_id(var_ids, v.name@);
            },
        }
        assert forall|k: int| 0 <= k < all.len() implies ({
            let e = #[trigger] all[k];
            e.dest_id == node_id && known_source(e.src_id, var_ids, ins)
        }) by {
            if k < rest.len() {
                assert(all[k] == rest[k]);
            }
        }
    }
}

/// The sources of variables are nodes of variables.
proof fn lemma_variable_sources(vars: Seq<Variable>, var_ids: Seq<(String, u32)>)
    requires
        variable_sources(vars, var_ids) is Ok,
    ensures
        forall|k: int|
            0 <= k < variable_sources(vars, var_ids)->Ok_0.len() ==> exists|j: int|
                0 <= j < var_ids.len() && (#[trigger] var_ids[j]).1 == (#[trigger] variable_sources(
                    vars,
                    var_ids,
                )->Ok_0[k]).0,
    decreases vars.len(),
{
    if vars.len() > 0 {
        let rest = variable_sources(vars.drop_last(), var_ids)->Ok_0;
        lemma_variable_sources(vars.drop_last(), var_ids);
        lemma_last_id(var_ids, vars.last().name@);
        let all = variable_sources(vars, var_ids)->Ok_0;
        assert forall|k: int| 0 <= k < all.len() implies exists|j: int|
            0 <= j < var_ids.len() && (#[trigger] var_ids[j]).1 == (#[trigger] all[k]).0 by {
            if k < rest.len() {
                assert(all[k] == rest[k]);
                let j = choose|j: int|
                    0 <= j < var_ids.len() && (#[trigger] var_ids[j]).1 == rest[k].0;
                assert(var_ids[j].1 == all[k].0);
            } else {
                let id = last_id(var_ids, vars.last().name@)->0;
                let j = choose|j: int| 0 <= j < var_ids.len() && (#[trigger] var_ids[j]).1 == id;
                assert(var_ids[j].1 == all[k].0);
            }
        }
    }
}

/// The output ports of the edges of port assignments are output nodes.
proof fn lemma_port_edges(
    targets: Seq<Port>,
    sources: Seq<(u32, u32)>,
    out_ids: Seq<(String, u32)>,
    upto: nat,
    low: int,
    high: int,
)
    requires
        ids_within(out_ids, low, high),
        port_edges(targets, sources, out_ids, upto) is Ok,
    ensures
        port_edges(targets, sources, out_ids, upto)->Ok_0.len() == upto,
        forall|k: int|
            0 <= k < upto ==> {
                let e = #[trigger] port_edges(targets, sources, out_ids, upto)->Ok_0[k];
                e.src_id == sources[k].0 && low <= e.dest_id < high
            },
    decreases upto,
{
    if upto > 0 {
        lemma_port_edges(targets, sources, out_ids, (upto - 1) as nat, low, high);
        lemma_last_id(out_ids, targets[upto - 1].name@);
        let rest = port_edges(targets, sources, out_ids, (upto - 1) as nat)->Ok_0;
        let all = port_edges(targets, sources, out_ids, upto)->Ok_0;
        assert forall|k: int| 0 <= k < upto implies ({
            let e = #[trigger] all[k];
            e.src_id == sources[k].0 && low <= e.dest_id < high
        }) by {
            if k < upto - 1 {
                assert(all[k] == rest[k]);
            }
        }
    }
}

/// Adding a statement keeps the graph sound.
proof fn lemma_add_statement_well_made(
    made: Made,
    stmt: Behaviour,
    in_ids: Seq<(String, u32)>,
    out_ids: Seq<(String, u32)>,
    ins: int,
    outs: int,
)
    requires
        well_made(made, ins, outs),
        ids_within(in_ids, 0, ins),
        ids_within(out_ids, ins, ins + outs),
        add_statement(made, stmt, in_ids, out_ids) is Ok,
    ensures
        well_made(add_statement(made, stmt, in_ids, out_ids)->Ok_0, ins, outs),
{
    let next = add_statement(made, stmt, in_ids, out_ids)->Ok_0;
    let value = match stmt {
        Behaviour::VarAssign { value, .. } => value,
        Behaviour::PortAssign { value, .. } => value,
    };
    let node_id = made.next_id as u32;
    let parts = value_graph(value, node_id, in_ids, made.var_ids)->Ok_0;
    let (node, edges, sources) = parts;
    let nodes = match node {
        Some(node) => made.nodes.push(node),
        None => made.nodes,
    };
    let first = made.next_id + 1;
    // what the value adds
    assert forall|k: int| 0 <= k < nodes.len() implies ins + outs <= (#[trigger] nodes[k]).id
        < first by {
        if k < made.nodes.len() {
            assert(nodes[k] == made.nodes[k]);
        }
    }
    assert forall|id: u32| has_id(made.nodes, id) implies has_id(nodes, id) by {
        let k = choose|k: int| 0 <= k < made.nodes.len() && (#[trigger] made.nodes[k]).id == id;
        assert(nodes[k].id == id);
    }
    assert forall|k: int| 0 <= k < edges.len() implies edge_ok(
        #[trigger] edges[k],
        nodes,
        ins,
        outs,
    ) by {
        match value {
            BehaviourValue::BuiltinOp { arguments, .. } => {
                lemma_argument_edges(arguments@, node_id, in_ids, made.var_ids, ins);
            },
            BehaviourValue::EntityOp { arguments, .. } => {
                lemma_argument_edges(arguments@, node_id, in_ids, made.var_ids, ins);
            },
            BehaviourValue::Variables { .. } => {},
        }
        let e = edges[k];
        assert(nodes[nodes.len() - 1].id == node_id);
        if e.src_id >= ins {
            let j = choose|j: int|
                0 <= j < made.var_ids.len() && (#[trigger] made.var_ids[j]).1 == e.src_id;
            assert(has_id(made.nodes, made.var_ids[j].1));
        }
    }
    // the sources of the results are nodes made before the targets
    assert forall|k: int| 0 <= k < sources.len() implies ins + outs <= (#[trigger] sources[k]).0
        < first && has_id(nodes, sources[k].0) by {
        match value {
            BehaviourValue::Variables { vars } => {
                lemma_variable_sources(vars@, made.var_ids);
                let j = choose|j: int|
                    0 <= j < made.var_ids.len() && (#[trigger] made.var_ids[j]).1 == sources[k].0;
                assert(has_id(made.nodes, made.var_ids[j].1));
            },
            _ => {
                assert(nodes[nodes.len() - 1].id == node_id);
            },
        }
    }
    let old_edges = made.edges + edges;
    assert forall|k: int| 0 <= k < old_edges.len() implies edge_ok(
        #[trigger] old_edges[k],
        nodes,
        ins,
        outs,
    ) by {
        if k < made.edges.len() {
            assert(old_edges[k] == made.edges[k]);
            assert(edge_ok(made.edges[k], made.nodes, ins, outs));
        } else {
            assert(old_edges[k] == edges[k - made.edges.len()]);
        }
    }
    match stmt {
        Behaviour::VarAssign { targets, .. } => {
            let n = shorter(targets@.len(), sources.len());
            assert forall|id: u32| has_id(nodes, id) implies has_id(next.nodes, id) by {
                let k = choose|k: int| 0 <= k < nodes.len() && (#[trigger] nodes[k]).id == id;
                assert(next.nodes[k].id == id);
            }
            assert forall|k: int| 0 <= k < next.var_ids.len() implies ins + outs <= (
            #[trigger] next.var_ids[k]).1 < next.next_id && has_id(next.nodes, next.var_ids[k].1) by {
                if k < made.var_ids.len() {
                    assert(next.var_ids[k] == made.var_ids[k]);
                    assert(has_id(made.nodes, made.var_ids[k].1));
                    assert(has_id(nodes, made.var_ids[k].1));
                    assert(has_id(next.nodes, made.var_ids[k].1));
                } else {
                    let j = k - made.var_ids.len();
                    assert(first + n <= u32::MAX + 1);
                    assert(next.var_ids[k].1 == first + j);
                    assert(next.nodes[nodes.len() + j].id == next.var_ids[k].1);
                    assert(has_id(next.nodes, next.var_ids[k].1));
                }
            }
            assert forall|k: int| 0 <= k < next.nodes.len() implies ins + outs <= (
            #[trigger] next.nodes[k]).id < next.next_id by {
                if k < nodes.len() {
                    assert(next.nodes[k] == nodes[k]);
                }
            }
            assert forall|k: int| 0 <= k < next.edges.len() implies edge_ok(
                #[trigger] next.edges[k],
                next.nodes,
                ins,
                outs,
            ) by {
                if k < old_edges.len() {
                    assert(next.edges[k] == old_edges[k]);
                    assert(edge_ok(old_edges[k], nodes, ins, outs));
                } else {
                    let j = k - old_edges.len();
                    assert(next.nodes[nodes.len() + j].id == next.edges[k].dest_id);
                    assert(has_id(nodes, sources[j].0));
                }
            }
        },
        Behaviour::PortAssign { targets, .. } => {
            let n = shorter(targets@.len(), sources.len());
            lemma_port_edges(targets@, sources, out_ids, n, ins, ins + outs);
            let more = port_edges(targets@, sources, out_ids, n)->Ok_0;
            assert forall|k: int| 0 <= k < next.var_ids.len() implies has_id(
                next.nodes,
                (#[trigger] next.var_ids[k]).1,
            ) by {
                assert(has_id(made.nodes, made.var_ids[k].1));
            }
            assert forall|k: int| 0 <= k < next.edges.len() implies edge_ok(
                #[trigger] next.edges[k],
                next.nodes,
                ins,
                outs,
            ) by {
                if k < old_edges.len() {
                    assert(next.edges[k] == old_edges[k]);
                } else {
                    let j = k - old_edges.len();
                    assert(next.edges[k] == more[j]);
                    assert(has_id(nodes, sources[j].0));
                }
            }
        },
    }
}

/// Adding statements keeps the graph sound.
proof fn lemma_add_statements_well_made(
    made: Made,
    stmts: Seq<Behaviour>,
    in_ids: Seq<(String, u32)>,
    out_ids: Seq<(String, u32)>,
    ins: int,
    outs: int,
)
    requires
        well_made(made, ins, outs),
        ids_within(in_ids, 0, ins),
        ids_within(out_ids, ins, ins + outs),
        add_statements(made, stmts, in_ids, out_ids) is Ok,
    ensures
        well_made(add_statements(made, stmts, in_ids, out_ids)->Ok_0, ins, outs),
    decreases stmts.len(),
{
    if stmts.len() > 0 {
        lemma_add_statements_well_made(made, stmts.drop_last(), in_ids, out_ids, ins, outs);
        lemma_add_statement_well_made(
            add_statements(made, stmts.drop_last(), in_ids, out_ids)->Ok_0,
            stmts.last(),
            in_ids,
            out_ids,
            ins,
            outs,
        );
    }
}

/// The graph of an entity names only its own nodes and has no cycle: its
/// edges lead from input nodes and earlier nodes to later nodes and output
/// nodes.
pub proof fn lemma_entity_graph_sound(e: Entity)
    requires
        entity_graph(e) is Ok,
    ensures
        ends_exist(entity_graph(e)->Ok_0.0, entity_graph(e)->Ok_0.1),
        respects(
            entity_graph(e)->Ok_0.1,
            rank_in(e.in_ports@.len() as int, e.out_ports@.len() as int),
        ),
        acyclic(entity_graph(e)->Ok_0.1),
{
    let ins = e.in_ports@.len() as int;
    let outs = e.out_ports@.len() as int;
    let in_ids = port_ids(e.in_ports@, 0);
    let out_ids = port_ids(e.out_ports@, ins);
    let start = Made {
        next_id: ins + outs,
        var_ids: Seq::empty(),
        nodes: Seq::empty(),
        edges: Seq::empty(),
    };
    lemma_add_statements_well_made(start, e.behaviour@, in_ids, out_ids, ins, outs);
    let made = add_statements(start, e.behaviour@, in_ids, out_ids)->Ok_0;
    let own = entity_graph(e)->Ok_0;
    let a = port_nodes(e.in_ports@, 0, true);
    let b = port_nodes(e.out_ports@, ins, false);
    let rank = rank_in(ins, outs);
    assert forall|id: u32| id < ins + outs || has_id(made.nodes, id) implies has_id(own.0, id) by {
        assert(own.0 == a + b + made.nodes);
        assert(ins + outs <= u32::MAX);
        if id < ins {
            assert(own.0[id as int] == a[id as int]);
            assert(own.0[id as int].id == id);
        } else if id < ins + outs {
            assert(own.0[id as int] == b[id - ins]);
            assert(own.0[id as int].id == id);
        } else {
            let k = choose|k: int| 0 <= k < made.nodes.len() && (#[trigger] made.nodes[k]).id == id;
            assert(own.0[ins + outs + k] == made.nodes[k]);
            assert(own.0[ins + outs + k].id == id);
        }
    }
    assert forall|i: int| 0 <= i < own.1.len() implies has_id(own.0, (#[trigger] own.1[i]).src_id)
        && has_id(own.0, own.1[i].dest_id) && rank(own.1[i].src_id) < rank(own.1[i].dest_id) by {
        assert(edge_ok(made.edges[i], made.nodes, ins, outs));
    }
    assert(respects(own.1, rank));
}

/// The names of the input nodes, if `input`, or of the output nodes among
/// `nodes`, in node order.
pub open spec fn port_node_names(nodes: Seq<normalized::Node>, input: bool) -> Seq<String>
    decreases nodes.len(),
{
    if nodes.len() == 0 {
        Seq::empty()
    } else {
        let rest = port_node_names(nodes.drop_last(), input);
        match nodes.last().inner {
            normalized::NodeType::Input { name, .. } => if input {
                rest.push(name)
            } else {
                rest
            },
            normalized::NodeType::Output { name, .. } => if input {
                rest
            } else {
                rest.push(name)
            },
            _ => rest,
        }
    }
}

/// The names of the ports `ports`, in order.
pub open spec fn port_names(ports: Seq<Port>) -> Seq<String> {
    Seq::new(ports.len(), |k: int| ports[k].name)
}

/// The port names of `a + b` are those of `a` and then those of `b`.
proof fn lemma_port_node_names_add(a: Seq<normalized::Node>, b: Seq<normalized::Node>, input: bool)
    ensures
        port_node_names(a + b, input) == port_node_names(a, input) + port_node_names(b, input),
    decreases b.len(),
{
    if b.len() == 0 {
        assert(a + b =~= a);
        assert(port_node_names(a, input) + port_node_names(b, input) =~= port_node_names(a, input));
    } else {
        assert((a + b).drop_last() =~= a + b.drop_last());
        assert((a + b).last() == b.last());
        lemma_port_node_names_add(a, b.drop_last(), input);
        let front = port_node_names(a, input);
        let back = port_node_names(b.drop_last(), input);
        match b.last().inner {
            normalized::NodeType::Input { name, .. } => {
                assert(front + back.push(name) =~= (front + back).push(name));
            },
            normalized::NodeType::Output { name, .. } => {
                assert(front + back.push(name) =~= (front + back).push(name));
            },
            _ => {},
        }
    }
}

/// The lowered nodes of ports carry the names of the ports.
proof fn lemma_port_nodes_names(ports: Seq<Port>, first_id: int, input: bool, asked: bool)
    ensures
        port_node_names(lower_nodes(plain_nodes(port_nodes(ports, first_id, input))), asked) == if input
            == asked {
            port_names(ports)
        } else {
            Seq::<String>::empty()
        },
    decreases ports.len(),
{
    let nodes = lower_nodes(plain_nodes(port_nodes(ports, first_id, input)));
    if ports.len() > 0 {
        let fewer = ports.drop_last();
        lemma_port_nodes_names(fewer, first_id, input, asked);
        assert(nodes.drop_last() =~= lower_nodes(plain_nodes(port_nodes(fewer, first_id, input))));
        if input == asked {
            assert(port_names(ports) =~= port_names(fewer).push(ports.last().name));
        }
    } else {
        assert(port_names(ports) =~= Seq::<String>::empty());
    }
}

/// The lowered nodes of statements carry no port names.
proof fn lemma_inner_nodes_names(nodes: Seq<Node>, asked: bool)
    requires
        inner_only(nodes),
    ensures
        port_node_names(lower_nodes(plain_nodes(nodes)), asked) == Seq::<String>::empty(),
    decreases nodes.len(),
{
    let lowered = lower_nodes(plain_nodes(nodes));
    if nodes.len() > 0 {
        let fewer = nodes.drop_last();
        assert forall|k: int| 0 <= k < fewer.len() implies !((#[trigger] fewer[k]).inner is Input) && !(
        fewer[k].inner is Output) by {
            assert(fewer[k] == nodes[k]);
        }
        lemma_inner_nodes_names(fewer, asked);
        assert(lowered.drop_last() =~= lower_nodes(plain_nodes(fewer)));
        assert(!(nodes[nodes.len() - 1].inner is Input));
    }
}

/// Splitters carry no port names.
proof fn lemma_splitter_names(edges: Seq<Edge>, next_id: int, asked: bool)
    ensures
        port_node_names(split_all(edges, next_id).0, asked) == Seq::<String>::empty(),
    decreases edges.len(),
{
    let at = crate::graph::builtin::first_shared_from(edges, 0);
    if 0 <= at < edges.len() {
        let s = edges[at].source();
        let moved = crate::graph::builtin::from_source(edges, s);
        let kept = crate::graph::builtin::not_from_source(edges, s);
        crate::graph::builtin::lemma_filter_shrinks(edges, |e: Edge| e.source() != s, at);
        lemma_splitter_names(kept, next_id + 1, asked);
        let first = seq![splitter_node(next_id, moved)];
        lemma_port_node_names_add(first, split_all(kept, next_id + 1).0, asked);
        assert(first.drop_last() =~= Seq::<normalized::Node>::empty());
        assert(port_node_names(first.drop_last(), asked) =~= Seq::<String>::empty());
        assert(port_node_names(first, asked) =~= Seq::<String>::empty());
    }
}

/// The graph of an entity that holds no instance of another entity has,
/// once it is lowered, exactly the declared input ports as its input nodes
/// and exactly the declared output ports as its output nodes, by name and
/// in order.
pub proof fn lemma_ports_round_trip(e: Entity, next_id: int)
    requires
        entity_graph(e) is Ok,
    ensures
        ({
            let own = entity_graph(e)->Ok_0;
            let nodes = lower_nodes(plain_nodes(own.0)) + split_all(own.1, next_id).0;
            first_instance(own.0) >= own.0.len() ==> port_node_names(nodes, true) == port_names(
                e.in_ports@,
            ) && port_node_names(nodes, false) == port_names(e.out_ports@)
        }),
{
    let own = entity_graph(e)->Ok_0;
    let ins = e.in_ports@.len() as int;
    let start = Made {
        next_id: ins + e.out_ports@.len(),
        var_ids: Seq::empty(),
        nodes: Seq::empty(),
        edges: Seq::empty(),
    };
    let made = add_statements(
        start,
        e.behaviour@,
        port_ids(e.in_ports@, 0),
        port_ids(e.out_ports@, ins),
    )->Ok_0;
    lemma_statements_add_inner_nodes(
        start,
        e.behaviour@,
        port_ids(e.in_ports@, 0),
        port_ids(e.out_ports@, ins),
    );
    let a = port_nodes(e.in_ports@, 0, true);
    let b = port_nodes(e.out_ports@, ins, false);
    let c = made.nodes;
    let la = lower_nodes(plain_nodes(a));
    let lb = lower_nodes(plain_nodes(b));
    let lc = lower_nodes(plain_nodes(c));
    let sp = split_all(own.1, next_id).0;
    assert(own.0 == a + b + c);
    assert(lower_nodes(plain_nodes(own.0)) =~= la + lb + lc);
    lemma_port_nodes_names(e.in_ports@, 0, true, true);
    lemma_port_nodes_names(e.in_ports@, 0, true, false);
    lemma_port_nodes_names(e.out_ports@, ins, false, true);
    lemma_port_nodes_names(e.out_ports@, ins, false, false);
    lemma_inner_nodes_names(c, true);
    lemma_inner_nodes_names(c, false);
    lemma_splitter_names(own.1, next_id, true);
    lemma_splitter_names(own.1, next_id, false);
    lemma_port_node_names_add(la, lb, true);
    lemma_port_node_names_add(la + lb, lc, true);
    lemma_port_node_names_add(la + lb + lc, sp, true);
    lemma_port_node_names_add(la, lb, false);
    lemma_port_node_names_add(la + lb, lc, false);
    lemma_port_node_names_add(la + lb + lc, sp, false);
    assert(port_names(e.in_ports@) + Seq::<String>::empty() =~= port_names(e.in_ports@));
    assert(Seq::<String>::empty() + port_names(e.out_ports@) =~= port_names(e.out_ports@));
}

} // verus!
