use mclc::graph::builtin;
use mclc::graph::entity;
use mclc::graph::general::{contains_id, Edge, Graph, Node};
use mclc::graph::normalized;

fn input(id: u32, name: &str) -> builtin::Node {
    Node::new(id, builtin::NodeType::Input { name: name.to_string(), number: id })
}

fn and(id: u32) -> builtin::Node {
    Node::new(id, builtin::NodeType::BuiltinOp { op: builtin::BuiltinOp::And })
}

fn splitters(graph: &normalized::Graph) -> Vec<(u32, u32)> {
    let mut found = Vec::new();
    for node in graph.nodes.iter() {
        if let normalized::NodeType::Splitter { port_count } = node.inner {
            found.push((node.id, port_count));
        }
    }
    found
}

#[test]
fn edge_new_keeps_all_four_fields() {
    let e = Edge::new(1, 2, 3, 4);
    assert_eq!(e, Edge { src_id: 1, src_port: 2, dest_id: 3, dest_port: 4 });
}

#[test]
fn edges_to_and_from_a_node_keep_edge_order() {
    let g: Graph<u8> = Graph::new(
        vec![Node::new(0, 0), Node::new(1, 0), Node::new(2, 0)],
        vec![Edge::new(0, 0, 2, 0), Edge::new(1, 0, 2, 1), Edge::new(2, 0, 1, 0)],
    );
    assert_eq!(g.edges_to_node(2), vec![Edge::new(0, 0, 2, 0), Edge::new(1, 0, 2, 1)]);
    assert_eq!(g.edges_from_node(2), vec![Edge::new(2, 0, 1, 0)]);
    assert_eq!(g.edges_to_node(7), vec![]);
}

#[test]
fn get_node_finds_the_first_with_the_id() {
    let g: Graph<u8> = Graph::new(vec![Node::new(4, 10), Node::new(9, 20), Node::new(4, 30)], vec![]);
    assert_eq!(g.get_node(4).map(|n| n.inner), Some(10));
    assert_eq!(g.get_node(9).map(|n| n.inner), Some(20));
    assert!(g.get_node(5).is_none());
}

#[test]
fn remove_node_takes_the_first_and_leaves_edges() {
    let mut g: Graph<u8> = Graph::new(
        vec![Node::new(4, 10), Node::new(9, 20), Node::new(4, 30)],
        vec![Edge::new(4, 0, 9, 0)],
    );
    g.remove_node(4);
    assert_eq!(g.nodes.iter().map(|n| (n.id, n.inner)).collect::<Vec<_>>(), vec![(9, 20), (4, 30)]);
    assert_eq!(g.edges, vec![Edge::new(4, 0, 9, 0)]);
    g.remove_node(77);
    assert_eq!(g.nodes.len(), 2);
}

#[test]
fn remove_edge_takes_the_first_equal_edge() {
    let mut g: Graph<u8> = Graph::new(
        vec![],
        vec![Edge::new(1, 0, 2, 0), Edge::new(1, 0, 3, 0), Edge::new(1, 0, 2, 0)],
    );
    g.remove_edge(&Edge::new(1, 0, 2, 0));
    assert_eq!(g.edges, vec![Edge::new(1, 0, 3, 0), Edge::new(1, 0, 2, 0)]);
    g.remove_edge(&Edge::new(9, 9, 9, 9));
    assert_eq!(g.edges.len(), 2);
}

#[test]
fn add_node_and_add_edge_append() {
    let mut g: Graph<u8> = Graph::new(vec![Node::new(1, 1)], vec![]);
    g.add_node(Node::new(2, 2));
    g.add_edge(Edge::new(1, 0, 2, 0));
    assert_eq!(g.nodes.iter().map(|n| n.id).collect::<Vec<_>>(), vec![1, 2]);
    assert_eq!(g.edges, vec![Edge::new(1, 0, 2, 0)]);
}

#[test]
fn max_id_plus_one_is_fresh() {
    let g: Graph<u8> = Graph::new(vec![Node::new(3, 0), Node::new(17, 0), Node::new(5, 0)], vec![]);
    let fresh = g.max_id() + 1;
    assert_eq!(fresh, 18);
    assert!(g.get_node(fresh).is_none());
}

#[test]
fn offset_ids_shifts_nodes_and_edges() {
    let mut g: Graph<u8> = Graph::new(
        vec![Node::new(0, 7), Node::new(1, 8)],
        vec![Edge::new(0, 3, 1, 4)],
    );
    g.offset_ids(10);
    assert_eq!(g.nodes.iter().map(|n| (n.id, n.inner)).collect::<Vec<_>>(), vec![(10, 7), (11, 8)]);
    assert_eq!(g.edges, vec![Edge::new(10, 3, 11, 4)]);
}

#[test]
fn predecessors_are_distinct_and_in_edge_order() {
    let g: Graph<u8> = Graph::new(
        vec![Node::new(0, 0), Node::new(1, 0), Node::new(2, 0)],
        vec![
            Edge::new(1, 0, 2, 0),
            Edge::new(0, 0, 2, 1),
            Edge::new(1, 0, 2, 2),
            Edge::new(9, 0, 2, 3),
            Edge::new(0, 0, 1, 0),
        ],
    );
    assert_eq!(
        g.nodes_with_predecessors(),
        vec![(0, vec![]), (1, vec![0]), (2, vec![1, 0])]
    );
}

#[test]
fn contains_id_reports_membership() {
    assert!(contains_id(&vec![3, 5, 8], 5));
    assert!(!contains_id(&vec![3, 5, 8], 4));
}

#[test]
fn splitter_insertion_for_one_input_feeding_three_ands() {
    let g = builtin::Graph::new(
        vec![input(0, "a"), and(1), and(2), and(3)],
        vec![Edge::new(0, 0, 1, 0), Edge::new(0, 0, 2, 0), Edge::new(0, 0, 3, 0)],
    );
    let n = g.into_normalized();
    assert_eq!(splitters(&n), vec![(4, 3)]);
    assert_eq!(
        n.edges,
        vec![
            Edge::new(0, 0, 4, 0),
            Edge::new(4, 0, 1, 0),
            Edge::new(4, 1, 2, 0),
            Edge::new(4, 2, 3, 0),
        ]
    );
    assert_eq!(n.nodes.len(), 5);
}

#[test]
fn normalization_leaves_every_source_with_one_edge() {
    let g = builtin::Graph::new(
        vec![input(0, "a"), input(1, "b"), and(2), and(3), and(4)],
        vec![
            Edge::new(0, 0, 2, 0),
            Edge::new(1, 0, 2, 1),
            Edge::new(0, 0, 3, 0),
            Edge::new(1, 0, 3, 1),
            Edge::new(2, 0, 4, 0),
            Edge::new(3, 0, 4, 1),
            Edge::new(0, 0, 4, 1),
        ],
    );
    let n = g.into_normalized();
    for (i, a) in n.edges.iter().enumerate() {
        for b in n.edges.iter().skip(i + 1) {
            assert!((a.src_id, a.src_port) != (b.src_id, b.src_port));
        }
    }
    // the fan-out of a (3 edges) and of b (2 edges) gives 2 + 1 repeats
    let excess: u32 = splitters(&n).iter().map(|(_, ports)| ports - 1).sum();
    assert_eq!(excess, 3);
    assert_eq!(splitters(&n), vec![(5, 3), (6, 2)]);
    assert_eq!(n.edges.len(), 7 + 2);
}

#[test]
fn normalization_keeps_a_graph_without_fan_out() {
    let g = builtin::Graph::new(
        vec![input(0, "a"), input(1, "b"), and(2)],
        vec![Edge::new(0, 0, 2, 0), Edge::new(1, 0, 2, 1)],
    );
    let n = g.into_normalized();
    assert_eq!(n.edges, vec![Edge::new(0, 0, 2, 0), Edge::new(1, 0, 2, 1)]);
    assert_eq!(n.nodes.len(), 3);
    assert!(matches!(n.nodes[2].inner, normalized::NodeType::Operation { op: normalized::BuiltinOp::And }));
    assert!(matches!(&n.nodes[0].inner, normalized::NodeType::Input { name, number: 0 } if name == "a"));
}

#[test]
fn optimize_bypasses_a_variable_with_one_edge_in_and_out() {
    let mut g = normalized::Graph::new(
        vec![
            Node::new(0, normalized::NodeType::Input { name: "a".to_string(), number: 0 }),
            Node::new(1, normalized::NodeType::Variable { name: "t".to_string() }),
            Node::new(2, normalized::NodeType::Output { name: "r".to_string(), number: 0 }),
        ],
        vec![Edge::new(0, 0, 1, 0), Edge::new(1, 0, 2, 0)],
    );
    g.optimize();
    assert_eq!(g.nodes.iter().map(|n| n.id).collect::<Vec<_>>(), vec![0, 2]);
    assert_eq!(g.edges, vec![Edge::new(0, 0, 2, 0)]);
    g.optimize();
    assert_eq!(g.nodes.len(), 2);
    assert_eq!(g.edges, vec![Edge::new(0, 0, 2, 0)]);
}

#[test]
fn optimize_leaves_operations_and_open_ends() {
    let mut g = normalized::Graph::new(
        vec![
            Node::new(0, normalized::NodeType::Input { name: "a".to_string(), number: 0 }),
            Node::new(1, normalized::NodeType::Operation { op: normalized::BuiltinOp::Not }),
            Node::new(2, normalized::NodeType::Output { name: "r".to_string(), number: 0 }),
        ],
        vec![Edge::new(0, 0, 1, 0), Edge::new(1, 0, 2, 0)],
    );
    g.optimize();
    assert_eq!(g.nodes.len(), 3);
    assert_eq!(g.edges.len(), 2);
}

fn e_input(id: u32, name: &str, number: u32) -> entity::Node {
    Node::new(id, entity::NodeType::Input { name: name.to_string(), number })
}

fn e_output(id: u32, name: &str, number: u32) -> entity::Node {
    Node::new(id, entity::NodeType::Output { name: name.to_string(), number })
}

fn inverter() -> entity::Graph {
    entity::Graph::new(
        vec![
            e_input(0, "x", 0),
            e_output(1, "y", 0),
            Node::new(2, entity::NodeType::BuiltinOp { op: entity::BuiltinOp::Not }),
        ],
        vec![Edge::new(0, 0, 2, 0), Edge::new(2, 0, 1, 0)],
    )
}

fn user() -> entity::Graph {
    entity::Graph::new(
        vec![
            e_input(0, "a", 0),
            e_output(1, "r", 0),
            Node::new(2, entity::NodeType::EntityOp { name: "inv".to_string() }),
        ],
        vec![Edge::new(0, 0, 2, 0), Edge::new(2, 0, 1, 0)],
    )
}

#[test]
fn inlining_splices_the_entity_in() {
    let entities = vec![("inv".to_string(), inverter())];
    let b = user().into_builtin(&entities, 8).unwrap();
    assert_eq!(b.nodes.iter().map(|n| n.id).collect::<Vec<_>>(), vec![0, 1, 2, 3, 4]);
    assert!(matches!(&b.nodes[2].inner, builtin::NodeType::Input { name, .. } if name == "x"));
    assert!(matches!(&b.nodes[3].inner, builtin::NodeType::Output { name, .. } if name == "y"));
    assert!(matches!(b.nodes[4].inner, builtin::NodeType::BuiltinOp { op: builtin::BuiltinOp::Not }));
    assert_eq!(
        b.edges,
        vec![
            Edge::new(0, 0, 2, 0),
            Edge::new(3, 0, 1, 0),
            Edge::new(2, 0, 4, 0),
            Edge::new(4, 0, 3, 0),
        ]
    );
}

#[test]
fn inlining_reports_what_it_cannot_do() {
    assert_eq!(
        user().into_builtin(&vec![], 8).unwrap_err(),
        entity::InlineError::UnknownEntity
    );
    let entities = vec![("inv".to_string(), user())];
    assert_eq!(
        user().into_builtin(&entities, 8).unwrap_err(),
        entity::InlineError::TooManyInstances
    );
    let mut wide = user();
    wide.edges.push(Edge::new(0, 0, 2, 1));
    let entities = vec![("inv".to_string(), inverter())];
    assert_eq!(wide.into_builtin(&entities, 8).unwrap_err(), entity::InlineError::PortOutOfRange);
    let mut high = user();
    high.nodes[0].id = u32::MAX;
    assert_eq!(high.into_builtin(&entities, 8).unwrap_err(), entity::InlineError::IdOverflow);
}

#[test]
fn inlining_uses_the_last_entity_of_a_name() {
    let mut other = inverter();
    other.nodes[2] = Node::new(2, entity::NodeType::BuiltinOp { op: entity::BuiltinOp::And });
    let entities = vec![("inv".to_string(), other), ("inv".to_string(), inverter())];
    let b = user().into_builtin(&entities, 8).unwrap();
    assert!(matches!(b.nodes[4].inner, builtin::NodeType::BuiltinOp { op: builtin::BuiltinOp::Not }));
}

#[test]
fn inputs_and_outputs_are_the_open_ports() {
    let g = inverter();
    assert_eq!(g.inputs(), vec![0]);
    assert_eq!(g.outputs(), vec![1]);
    let mut fed = inverter();
    fed.edges.push(Edge::new(2, 0, 0, 0));
    assert_eq!(fed.inputs(), Vec::<u32>::new());
}
