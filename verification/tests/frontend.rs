use mclc::frontend::graphs::GraphError;
use mclc::frontend::semantics;
use mclc::frontend::semantics::Problem;
use mclc::frontend::syntax;
use mclc::frontend::syntax::{BehaviourStatement, BehaviourValue, ScopeIter, TokenNames};
use mclc::frontend::tokens::{chars_of, tokenize, LexError, Tag, Token, TokenData};
use mclc::frontend::{compile, lower, parse, ParseError, Span};
use mclc::graph::builtin;
use mclc::graph::entity;
use mclc::graph::general::{Edge, Node};
use mclc::graph::normalized::{BuiltinOp, Graph, NodeType};

const NAND: &str = "
entity NandGate {
  in_ports {
    src1 : bit;
    src2 : bit;
  }

  out_ports {
    result : bit;
  }

  behaviour {
    (tmp) = and (src1, src2);
    (result) <= not(tmp);
  }
} 
        ";

fn count(graph: &Graph, wanted: fn(&NodeType) -> bool) -> usize {
    graph.nodes.iter().filter(|n| wanted(&n.inner)).count()
}

fn tags(text: &str) -> Vec<(Tag, usize, usize)> {
    tokenize(Span::new(text))
        .unwrap()
        .iter()
        .map(|t| (t.0.tag(), t.1.start, t.1.end))
        .collect()
}

fn entities(text: &str) -> Result<Vec<syntax::Entity>, syntax::Error> {
    syntax::parse(tokenize(Span::new(text)).unwrap())
}

fn problem(text: &str) -> (Problem, String) {
    match semantics::parse(entities(text).unwrap()) {
        Ok(_) => panic!("no problem found"),
        Err(e) => (e.problem, e.name),
    }
}

fn in_entity(body: &str) -> String {
    format!(
        "entity E {{ in_ports {{ a: bit; b: bit; }} out_ports {{ r: bit; s: bit; }} behaviour {{ {} }} }} ",
        body
    )
}

#[test]
fn parse_graph() {
    let content = NAND;

    let result = parse(content, None);

    let mut graph = result.unwrap();
    assert_eq!(count(&graph, |k| matches!(k, NodeType::Operation { op: BuiltinOp::And })), 1);
    assert_eq!(count(&graph, |k| matches!(k, NodeType::Operation { op: BuiltinOp::Not })), 1);
    assert_eq!(count(&graph, |k| matches!(k, NodeType::Input { .. })), 2);
    assert_eq!(count(&graph, |k| matches!(k, NodeType::Output { .. })), 1);
    assert_eq!(count(&graph, |k| matches!(k, NodeType::Splitter { .. })), 0);
    assert_eq!(graph.edges.len(), 5);
    graph.optimize();
    assert_eq!(graph.edges.len(), 4);
    assert_eq!(count(&graph, |k| matches!(k, NodeType::Variable { .. })), 0);
    assert_eq!(
        graph.edges,
        vec![
            Edge::new(0, 0, 3, 0),
            Edge::new(1, 0, 3, 1),
            Edge::new(5, 0, 2, 0),
            Edge::new(3, 0, 5, 0),
        ]
    );
}

#[test]
fn the_ports_of_the_graph_are_the_declared_ports() {
    let graph = parse(NAND, None).unwrap();
    let inputs: Vec<_> = graph
        .nodes
        .iter()
        .filter_map(|n| match &n.inner {
            NodeType::Input { name, number } => Some((name.as_str(), *number)),
            _ => None,
        })
        .collect();
    let outputs: Vec<_> = graph
        .nodes
        .iter()
        .filter_map(|n| match &n.inner {
            NodeType::Output { name, number } => Some((name.as_str(), *number)),
            _ => None,
        })
        .collect();
    assert_eq!(inputs, vec![("src1", 0), ("src2", 1)]);
    assert_eq!(outputs, vec![("result", 0)]);
}

#[test]
fn a_span_covers_its_text() {
    let span = Span::new("hello world");
    assert_eq!((span.start, span.end), (0, 11));
    assert_eq!(span.content(), "hello world");
    let sub = span.sub_span(6, 11);
    assert_eq!((sub.start, sub.end), (6, 11));
    assert_eq!(sub.content(), "world");
    let inner = sub.sub_span(7, 9);
    assert_eq!(inner.content(), "or");
    assert_eq!(span.sub_span(3, 3).content(), "");
    assert_eq!(chars_of("a{b"), vec!['a', '{', 'b']);
}

#[test]
fn words_and_signs_become_tokens() {
    assert_eq!(
        tags("entity A { in_ports { x : bit; } }\n"),
        vec![
            (Tag::Entity, 0, 6),
            (Tag::Literal, 7, 8),
            (Tag::OpenCurly, 9, 10),
            (Tag::InPorts, 11, 19),
            (Tag::OpenCurly, 20, 21),
            (Tag::Literal, 22, 23),
            (Tag::Colon, 24, 25),
            (Tag::Literal, 26, 29),
            (Tag::Semicolon, 29, 30),
            (Tag::CloseCurly, 31, 32),
            (Tag::CloseCurly, 33, 34),
        ]
    );
    assert_eq!(
        tags("(r,s) <= f(a) ;out_ports behaviour "),
        vec![
            (Tag::OpenParen, 0, 1),
            (Tag::Literal, 1, 2),
            (Tag::Comma, 2, 3),
            (Tag::Literal, 3, 4),
            (Tag::CloseParen, 4, 5),
            (Tag::PortAssign, 6, 8),
            (Tag::Literal, 9, 10),
            (Tag::OpenParen, 10, 11),
            (Tag::Literal, 11, 12),
            (Tag::CloseParen, 12, 13),
            (Tag::Semicolon, 14, 15),
            (Tag::OutPorts, 15, 24),
            (Tag::Behaviour, 25, 34),
        ]
    );
    let tokens = tokenize(Span::new("(tmp) = x;")).unwrap();
    assert!(matches!(&tokens[1].0, TokenData::Literal(text) if text == "tmp"));
    assert_eq!(tokens[1].1.content(), "tmp");
    assert!(matches!(tokens[3].0, TokenData::Assign));
}

#[test]
fn a_word_without_an_end_is_dropped() {
    assert_eq!(tags("a b"), vec![(Tag::Literal, 0, 1)]);
    assert_eq!(tags("ab=cd "), vec![(Tag::Assign, 2, 3), (Tag::Literal, 3, 5)]);
    assert_eq!(tags(""), vec![]);
}

#[test]
fn a_lone_angle_is_no_token() {
    assert!(matches!(tokenize(Span::new("a < b ")), Err(LexError::LoneAngle(2))));
    assert!(matches!(tokenize(Span::new("a <")), Err(LexError::LoneAngle(2))));
}

#[test]
fn a_scope_ends_at_its_closing_bracket() {
    let tokens = tokenize(Span::new("a { b { c } d } e ")).unwrap();
    let mut stream = ScopeIter::new(tokens);
    let first = stream.next_raw().unwrap();
    assert!(matches!(first.0, TokenData::Literal(_)));
    assert!(matches!(stream.next_raw().unwrap().0, TokenData::OpenCurly));
    stream.enter();
    let seen: Vec<Token> = std::iter::from_fn(|| stream.next(1)).collect();
    let seen: Vec<_> = seen.iter().map(|t| t.1.content().to_string()).collect();
    assert_eq!(seen, vec!["b", "{", "c", "}", "d"]);
    assert!(stream.next(1).is_none());
    assert_eq!(stream.next_raw().unwrap().1.content(), "e");
    assert!(stream.next_raw().is_none());
}

#[test]
fn entities_are_read_with_their_sections() {
    let read = entities(NAND).unwrap();
    assert_eq!(read.len(), 1);
    let e = &read[0];
    assert_eq!(e.name.content(), "NandGate");
    let ports: Vec<_> = e.in_ports.iter().map(|(n, t)| (n.1.content(), t.1.content())).collect();
    assert_eq!(ports, vec![("src1", "bit"), ("src2", "bit")]);
    assert_eq!(e.out_ports.len(), 1);
    assert_eq!(e.behaviour.len(), 2);
    match &e.behaviour[0] {
        BehaviourStatement::VarAssign { targets, value: BehaviourValue::Operation { name, arguments } } => {
            assert_eq!(targets.len(), 1);
            assert_eq!(targets[0].1.content(), "tmp");
            assert_eq!(name.1.content(), "and");
            let args: Vec<_> = arguments.iter().map(|a| a.1.content()).collect();
            assert_eq!(args, vec!["src1", "src2"]);
        }
        other => panic!("not a variable assignment: {:?}", other),
    }
    assert!(matches!(&e.behaviour[1], BehaviourStatement::PortAssign { .. }));
}

#[test]
fn of_two_sections_of_one_sort_the_later_counts() {
    let read = entities("entity A { in_ports { x: bit; } behaviour { (v) = (x,); } in_ports { y: bit; z: bit; } } entity B { } ").unwrap();
    assert_eq!(read.len(), 2);
    assert_eq!(read[0].in_ports.len(), 2);
    assert_eq!(read[0].in_ports[0].0 .1.content(), "y");
    match &read[0].behaviour[0] {
        BehaviourStatement::VarAssign { value: BehaviourValue::Variables { vars }, .. } => {
            assert_eq!(vars.len(), 1);
        }
        other => panic!("not a list of variables: {:?}", other),
    }
    assert_eq!(read[1].name.content(), "B");
    assert!(read[1].behaviour.is_empty());
}

fn unexpected(text: &str) -> (Vec<TokenNames>, String) {
    match entities(text) {
        Err(syntax::Error::UnexpectedToken { expected, got }) => (expected, got.1.content().to_string()),
        other => panic!("no unexpected token: {:?}", other.map(|e| e.len())),
    }
}

#[test]
fn tokens_out_of_place_are_reported() {
    assert_eq!(unexpected("port x "), (vec![TokenNames::Entity], "port".to_string()));
    assert_eq!(unexpected("entity { "), (vec![TokenNames::Literal], "{".to_string()));
    assert_eq!(unexpected("entity A ( "), (vec![TokenNames::OpenCurly], "(".to_string()));
    assert_eq!(
        unexpected("entity A { x } "),
        (vec![TokenNames::InPorts, TokenNames::OutPorts, TokenNames::Behaviour], "x".to_string())
    );
    assert_eq!(unexpected("entity A { in_ports ( } "), (vec![TokenNames::OpenCurly], "(".to_string()));
    assert_eq!(unexpected("entity A { in_ports { : } } "), (vec![TokenNames::Literal], ":".to_string()));
    assert_eq!(unexpected("entity A { in_ports { x bit; } } "), (vec![TokenNames::Colon], "bit".to_string()));
    assert_eq!(unexpected("entity A { in_ports { x: bit, } } "), (vec![TokenNames::Semicolon], ",".to_string()));
    assert_eq!(unexpected("entity A { behaviour { x } } "), (vec![TokenNames::OpenParen], "x".to_string()));
    assert_eq!(
        unexpected("entity A { behaviour { (x; } } "),
        (vec![TokenNames::Comma, TokenNames::CloseParen], ";".to_string())
    );
    assert_eq!(
        unexpected("entity A { behaviour { (:) } } "),
        (vec![TokenNames::Literal, TokenNames::CloseParen], ":".to_string())
    );
    assert_eq!(
        unexpected("entity A { behaviour { (x) ; } } "),
        (vec![TokenNames::Assign, TokenNames::PortAssign], ";".to_string())
    );
    assert_eq!(
        unexpected("entity A { behaviour { (x) = ; } } "),
        (vec![TokenNames::Literal, TokenNames::OpenParen], ";".to_string())
    );
    assert_eq!(unexpected("entity A { behaviour { (x) = f; } } "), (vec![TokenNames::OpenParen], ";".to_string()));
    assert_eq!(
        unexpected("entity A { behaviour { (x) = f(a) (y) } } "),
        (vec![TokenNames::Semicolon], "(".to_string())
    );
    assert!(matches!(entities("entity "), Err(syntax::Error::MissingEntityName)));
    assert!(matches!(entities("entity A "), Err(syntax::Error::UnexpectedEnd)));
    assert!(matches!(entities("entity A { in_ports } "), Err(syntax::Error::UnexpectedEnd)));
    assert!(matches!(entities("entity A { behaviour { (x) = f(a) } } "), Err(syntax::Error::UnexpectedEnd)));
}

#[test]
fn names_are_resolved() {
    let read = semantics::parse(
        entities(&in_entity("(t) = or(a, b); (u) = (t); (v) = xor(t, a); (r, s) <= (v, u);")).unwrap(),
    )
    .unwrap();
    let e = &read[0];
    assert_eq!(e.name, "E");
    assert_eq!(e.in_ports.iter().map(|p| p.name.as_str()).collect::<Vec<_>>(), vec!["a", "b"]);
    assert_eq!(e.out_ports.iter().map(|p| p.name.as_str()).collect::<Vec<_>>(), vec!["r", "s"]);
    assert_eq!(e.behaviour.len(), 4);
    match &e.behaviour[2] {
        semantics::Behaviour::VarAssign {
            targets,
            value: semantics::BehaviourValue::BuiltinOp { op, arguments },
        } => {
            assert_eq!(targets[0].name, "v");
            assert_eq!(*op, semantics::BuiltinOp::Xor);
            assert!(matches!(&arguments[0], semantics::Operand::Variable(v) if v.name == "t"));
            assert!(matches!(&arguments[1], semantics::Operand::Port(p) if p.name == "a"));
            assert_eq!(*arguments[0].ty(), semantics::Type_::Bit);
        }
        other => panic!("not an operation: {:?}", other),
    }
    match &e.behaviour[3] {
        semantics::Behaviour::PortAssign { targets, value: semantics::BehaviourValue::Variables { vars } } => {
            assert_eq!(targets.iter().map(|p| p.name.as_str()).collect::<Vec<_>>(), vec!["r", "s"]);
            assert_eq!(vars.iter().map(|p| p.name.as_str()).collect::<Vec<_>>(), vec!["v", "u"]);
        }
        other => panic!("not a port assignment: {:?}", other),
    }
}

#[test]
fn an_instance_takes_the_ports_of_its_entity() {
    let text = "entity H { in_ports { x: bit; } out_ports { p: bit; q: bit; } } entity T { in_ports { a: bit; } behaviour { (m, n) = H(a); } } ";
    let read = semantics::parse(entities(text).unwrap()).unwrap();
    match &read[1].behaviour[0] {
        semantics::Behaviour::VarAssign {
            targets,
            value: semantics::BehaviourValue::EntityOp { op, arguments, port_count },
        } => {
            assert_eq!(op, "H");
            assert_eq!(arguments.len(), 1);
            assert_eq!(*port_count, 2);
            assert_eq!(targets.len(), 2);
        }
        other => panic!("not an instance: {:?}", other),
    }
}

#[test]
fn what_stands_for_nothing_is_reported() {
    assert_eq!(
        problem("entity E { in_ports { a: bool; } } "),
        (Problem::UnknownType, "bool".to_string())
    );
    assert_eq!(problem(&in_entity("(t) = and(a, c);")), (Problem::UnknownOperand, "c".to_string()));
    assert_eq!(problem(&in_entity("(t) = and(a);")), (Problem::WrongArity, "and".to_string()));
    assert_eq!(problem(&in_entity("(t) = not(a, b);")), (Problem::WrongArity, "not".to_string()));
    assert_eq!(problem(&in_entity("(t) = nor(a, b);")), (Problem::UnknownEntity, "nor".to_string()));
    assert_eq!(problem(&in_entity("(t) = E(a);")), (Problem::WrongArity, "E".to_string()));
    assert_eq!(problem(&in_entity("(t) = (q);")), (Problem::UnknownVariable, "q".to_string()));
    assert_eq!(problem(&in_entity("(t, u) = or(a, b);")), (Problem::TargetCount, "E".to_string()));
    assert_eq!(problem(&in_entity("(a) <= or(a, b);")), (Problem::UnknownPort, "a".to_string()));
    assert_eq!(problem(&in_entity("(t) = or(a, t);")), (Problem::UnknownOperand, "t".to_string()));
}

#[test]
fn an_entity_becomes_a_graph() {
    let read = semantics::parse(
        entities(&in_entity("(t) = or(a, b); (u) = (t); (v) = xor(t, a); (r, s) <= (v, u);")).unwrap(),
    )
    .unwrap();
    let graph = read[0].graph().unwrap();
    let kinds: Vec<String> = graph
        .nodes
        .iter()
        .map(|n| match &n.inner {
            entity::NodeType::Input { name, number } => format!("{} in {} {}", n.id, name, number),
            entity::NodeType::Output { name, number } => format!("{} out {} {}", n.id, name, number),
            entity::NodeType::Variable { name } => format!("{} var {}", n.id, name),
            entity::NodeType::BuiltinOp { op } => format!("{} op {:?}", n.id, op),
            entity::NodeType::EntityOp { name } => format!("{} entity {}", n.id, name),
        })
        .collect();
    // the second and the last statement have no node of their own, but
    // their ids, 6 and 10, are spent
    assert_eq!(
        kinds,
        vec![
            "0 in a 0", "1 in b 1", "2 out r 0", "3 out s 1", "4 op Or", "5 var t", "7 var u",
            "8 op Xor", "9 var v",
        ]
    );
    assert_eq!(
        graph.edges,
        vec![
            Edge::new(0, 0, 4, 0),
            Edge::new(1, 0, 4, 1),
            Edge::new(4, 0, 5, 0),
            Edge::new(5, 0, 7, 0),
            Edge::new(5, 0, 8, 0),
            Edge::new(0, 0, 8, 1),
            Edge::new(8, 0, 9, 0),
            Edge::new(9, 0, 2, 0),
            Edge::new(7, 0, 3, 0),
        ]
    );
}

#[test]
fn a_value_that_names_an_unknown_variable_has_no_graph() {
    let value = semantics::BehaviourValue::Variables {
        vars: vec![semantics::Variable { name: "x".to_string(), ty: semantics::Type_::Bit }],
    };
    assert_eq!(value.to_graph(0, &vec![], &vec![]).unwrap_err(), GraphError::UnknownName);
    let table = vec![("x".to_string(), 4), ("y".to_string(), 5), ("x".to_string(), 6)];
    let (node, edges, sources) = value.to_graph(0, &vec![], &table).unwrap();
    assert!(node.is_none());
    assert!(edges.is_empty());
    assert_eq!(sources, vec![(6, 0)]);
    let port = semantics::Port { name: "p".to_string(), ty: semantics::Type_::Bit };
    let call = semantics::BehaviourValue::EntityOp {
        op: "H".to_string(),
        arguments: vec![semantics::Operand::Port(port)],
        port_count: 3,
    };
    let (node, edges, sources) = call.to_graph(9, &vec![("p".to_string(), 1)], &vec![]).unwrap();
    assert!(matches!(node, Some(Node { id: 9, inner: entity::NodeType::EntityOp { name } }) if name == "H"));
    assert_eq!(edges, vec![Edge::new(1, 0, 9, 0)]);
    assert_eq!(sources, vec![(9, 0), (9, 1), (9, 2)]);
    assert_eq!(call.to_graph(9, &vec![], &vec![]).unwrap_err(), GraphError::UnknownName);
}

#[test]
fn the_target_is_the_entity_asked_for() {
    let text = "entity H { in_ports { x: bit; } out_ports { p: bit; } behaviour { (p) <= not(x); } } entity T { in_ports { a: bit; } out_ports { o: bit; } behaviour { (m) = H(a); (o) <= (m); } } ";
    let first = parse(text, None).unwrap();
    assert_eq!(first.nodes.len(), 3);
    let named = parse(text, Some("T".to_string())).unwrap();
    assert_eq!(count(&named, |k| matches!(k, NodeType::Operation { op: BuiltinOp::Not })), 1);
    assert_eq!(count(&named, |k| matches!(k, NodeType::Input { .. })), 2);
    assert!(matches!(parse(text, Some("Q".to_string())), Err(ParseError::UnknownTarget)));
    assert!(matches!(parse("", None), Err(ParseError::NoEntity)));
    assert!(matches!(parse("a < ", None), Err(ParseError::Tokens(LexError::LoneAngle(2)))));
    assert!(matches!(parse("entity ", None), Err(ParseError::Syntax(syntax::Error::MissingEntityName))));
    assert!(matches!(
        parse(&in_entity("(t) = nor(a, b);"), None),
        Err(ParseError::Meaning(semantics::Error { problem: Problem::UnknownEntity, .. }))
    ));
    let looped = "entity L { in_ports { a: bit; } out_ports { o: bit; } behaviour { (o) <= L(a); } } ";
    assert!(matches!(
        parse(looped, None),
        Err(ParseError::Inline(entity::InlineError::TooManyInstances))
    ));
    assert!(matches!(compile(vec![], None), Err(ParseError::NoEntity)));
}

#[test]
fn a_graph_whose_ids_do_not_fit_is_not_lowered() {
    let high = builtin::Graph::new(
        vec![Node::new(u32::MAX - 1, builtin::NodeType::Variable { name: "v".to_string() })],
        vec![Edge::new(0, 0, 1, 0)],
    );
    assert!(matches!(lower(high), Err(ParseError::TooLarge)));
    let ok = builtin::Graph::new(
        vec![Node::new(u32::MAX - 2, builtin::NodeType::Variable { name: "v".to_string() })],
        vec![Edge::new(0, 0, 1, 0)],
    );
    assert_eq!(lower(ok).unwrap().edges.len(), 1);
}

#[test]
fn a_single_xor_compiles_to_one_macro() {
    let text = "entity X { in_ports { a: bit; b: bit; } out_ports { result: bit; } behaviour { (result) <= xor(a, b); } } ";
    let mut graph = parse(text, None).unwrap();
    graph.optimize();
    assert_eq!(count(&graph, |k| matches!(k, NodeType::Operation { op: BuiltinOp::Xor })), 1);
    assert_eq!(graph.nodes.len(), 4);
    let (_, placed) = mclc::backend::layout::place_nodes(&graph).unwrap();
    let gate = placed.iter().find(|p| p.1 == 3).unwrap();
    let (x, y, z) = gate.0;
    match &gate.2 {
        mclc::backend::PlacedNodeData::Entity { in_ports, out_ports } => {
            assert_eq!(in_ports, &vec![(x, y, z), (x, y + 3, z)]);
            assert_eq!(out_ports, &vec![(x + 6, y + 1, z)]);
        }
        other => panic!("not a gate: {:?}", other),
    }
    assert!(mclc::backend::generate_layout(graph).is_ok());
}

const ADDER: &str = "
entity FullAdder {
  in_ports {
    first : bit;
    second : bit;
    carry_in : bit;
  }
  out_ports {
    sum : bit;
    carry_out : bit;
  }
  behaviour {
    (first_result) = xor(first, second);
    (sum) <= xor(first_result, carry_in);
    (carry_res1) = and(first, second);
    (carry_res2) = and(first_result, carry_in);
    (carry_out) <= or(carry_res1, carry_res2);
  }
}
";

#[test]
fn a_full_adder_is_placed_and_routed() {
    let mut graph = parse(ADDER, None).unwrap();
    graph.optimize();
    assert_eq!(count(&graph, |k| matches!(k, NodeType::Operation { .. })), 5);
    let splitters: Vec<u32> = graph
        .nodes
        .iter()
        .filter_map(|n| match n.inner {
            NodeType::Splitter { port_count } => Some(port_count),
            _ => None,
        })
        .collect();
    assert_eq!(splitters, vec![2, 2, 2, 2]);
    let (_, placed) = mclc::backend::layout::place_nodes(&graph).unwrap();
    let mut columns: Vec<usize> = placed
        .iter()
        .filter(|p| matches!(p.2, mclc::backend::PlacedNodeData::Entity { .. }))
        .map(|p| p.0 .0)
        .collect();
    columns.sort();
    columns.dedup();
    assert!(columns.len() == 3 || columns.len() == 4);
    let edges = graph.edges.clone();
    let layout = mclc::backend::generate_layout(graph).unwrap();
    let blocks = layout.placement();
    assert!(blocks.is_supported());
    assert!(!blocks.place_commands().is_empty());
    assert!(layout.generate_svg().is_ok());
    let wire = mclc::backend::SpaceCell::Used(mclc::backend::SpaceBlock::Redstone);
    let solid = mclc::backend::SpaceCell::Used(mclc::backend::SpaceBlock::SolidBlock);
    let space = &layout.space;
    for (pos, cell) in space.iter() {
        if cell == wire {
            assert_eq!(space.get((pos.0, pos.1, pos.2 + 1)), solid);
        }
    }
    for edge in edges.iter() {
        let (src, dest) = mclc::backend::connect_nodes::resolve_ends(edge, &placed).unwrap();
        let mut reached = vec![src];
        let mut next = 0;
        while next < reached.len() {
            let p = reached[next];
            next += 1;
            for dx in 0..3 {
                for dy in 0..3 {
                    for dz in 0..3 {
                        if p.0 + dx == 0 || p.1 + dy == 0 || p.2 + dz == 0 {
                            continue;
                        }
                        let q = (p.0 + dx - 1, p.1 + dy - 1, p.2 + dz - 1);
                        if space.get(q) == wire && !reached.contains(&q) {
                            reached.push(q);
                        }
                    }
                }
            }
        }
        assert!(reached.contains(&dest));
    }
}

fn has_cycle(graph: &Graph) -> bool {
    // repeatedly take away the nodes that no remaining edge arrives at
    let mut nodes: Vec<u32> = graph.nodes.iter().map(|n| n.id).collect();
    let mut edges: Vec<Edge> = graph.edges.clone();
    loop {
        let free: Vec<u32> = nodes
            .iter()
            .copied()
            .filter(|id| edges.iter().all(|e| e.dest_id != *id))
            .collect();
        if free.is_empty() {
            return !nodes.is_empty();
        }
        nodes.retain(|id| !free.contains(id));
        edges.retain(|e| !free.contains(&e.src_id));
    }
}

fn shares_a_source(graph: &Graph) -> bool {
    graph.edges.iter().enumerate().any(|(i, a)| {
        graph
            .edges
            .iter()
            .skip(i + 1)
            .any(|b| (a.src_id, a.src_port) == (b.src_id, b.src_port))
    })
}

#[test]
fn a_parsed_graph_has_no_cycle_and_no_shared_source() {
    let nested = "entity Half { in_ports { a: bit; b: bit; } out_ports { s: bit; c: bit; } behaviour { (s) <= xor(a, b); (c) <= and(a, b); } } entity Full { in_ports { x: bit; y: bit; z: bit; } out_ports { sum: bit; carry: bit; } behaviour { (s1, c1) = Half(x, y); (s2, c2) = Half(s1, z); (sum) <= (s2); (carry) <= or(c1, c2); } } ";
    for (text, target) in [(NAND, None), (ADDER, None), (nested, Some("Full".to_string()))] {
        let mut graph = parse(text, target).unwrap();
        assert!(!has_cycle(&graph));
        assert!(!shares_a_source(&graph));
        graph.optimize();
        assert!(!has_cycle(&graph));
        assert!(!shares_a_source(&graph));
    }
    let looped = Graph::new(
        vec![Node::new(0, NodeType::Variable { name: "a".to_string() })],
        vec![Edge::new(0, 0, 0, 0)],
    );
    assert!(has_cycle(&looped));
}

#[test]
fn nested_entities_are_inlined_and_laid_out() {
    let nested = "entity Half { in_ports { a: bit; b: bit; } out_ports { s: bit; c: bit; } behaviour { (s) <= xor(a, b); (c) <= and(a, b); } } entity Full { in_ports { x: bit; y: bit; z: bit; } out_ports { sum: bit; carry: bit; } behaviour { (s1, c1) = Half(x, y); (s2, c2) = Half(s1, z); (sum) <= (s2); (carry) <= or(c1, c2); } } ";
    let mut graph = parse(nested, Some("Full".to_string())).unwrap();
    graph.optimize();
    assert_eq!(count(&graph, |k| matches!(k, NodeType::Operation { op: BuiltinOp::Xor })), 2);
    assert_eq!(count(&graph, |k| matches!(k, NodeType::Operation { op: BuiltinOp::And })), 2);
    assert_eq!(count(&graph, |k| matches!(k, NodeType::Operation { op: BuiltinOp::Or })), 1);
    assert!(mclc::backend::generate_layout(graph).is_ok());
}
