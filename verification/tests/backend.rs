use mclc::backend::astar::{path, OpenSet, SearchError};
use mclc::backend::commands::decimal;
use mclc::backend::connect_nodes::{
    base_neighbours, connect_nodes, find_route, manhattan, neighbours, place_edge, place_path,
    resolve_ends, unreserve, RouteError,
};
use mclc::backend::layout::place_nodes;
use mclc::backend::placement::reserve::reserve_around;
use mclc::backend::placement::{place_node, stamp, wire};
use mclc::backend::space::Space;
use mclc::backend::visualize::{visualize, Colour, Line, Rect, RenderError};
use mclc::backend::{
    generate_layout, BlockData, BlockLayout, Layout, LayoutError, MinecraftBlock, Orientation,
    PlacedNode, PlacedNodeData, SpaceBlock, SpaceCell,
};
use mclc::graph::general::{Edge, Node};
use mclc::graph::normalized::{BuiltinOp, Graph, NodeType};

const WIRE: SpaceCell = SpaceCell::Used(SpaceBlock::Redstone);
const SOLID: SpaceCell = SpaceCell::Used(SpaceBlock::SolidBlock);

fn used_cells(space: &Space) -> Vec<((usize, usize, usize), SpaceBlock)> {
    let mut found = Vec::new();
    for (pos, cell) in space.iter() {
        if let SpaceCell::Used(block) = cell {
            found.push((pos, block));
        }
    }
    found
}

fn op(id: u32, op: BuiltinOp) -> Node<NodeType> {
    Node::new(id, NodeType::Operation { op })
}

fn input(id: u32, name: &str) -> Node<NodeType> {
    Node::new(id, NodeType::Input { name: name.to_string(), number: 0 })
}

fn output(id: u32, name: &str) -> Node<NodeType> {
    Node::new(id, NodeType::Output { name: name.to_string(), number: 0 })
}

#[test]
fn a_cell_that_was_never_written_reads_empty() {
    let mut space = Space::new();
    assert_eq!(space.get((0, 0, 0)), SpaceCell::Empty);
    assert_eq!(space.get((5, 7, 9)), SpaceCell::Empty);
    space.set((2, 3, 4), |_| SpaceCell::Reserved);
    assert_eq!(space.get((5, 7, 9)), SpaceCell::Empty);
    assert_eq!(space.get((1, 3, 4)), SpaceCell::Empty);
    assert_eq!(space.get((2, 3, 5)), SpaceCell::Empty);
    assert_eq!(space.get((2, 3, 4)), SpaceCell::Reserved);
    assert_eq!(SpaceCell::default(), SpaceCell::Empty);
}

#[test]
fn set_hands_the_old_cell_to_the_transform() {
    let mut space = Space::new();
    let upgrade = |old: &SpaceCell| match old {
        SpaceCell::Empty => SpaceCell::Reserved,
        other => *other,
    };
    space.set((1, 1, 1), upgrade);
    assert_eq!(space.get((1, 1, 1)), SpaceCell::Reserved);
    space.write((1, 1, 1), WIRE);
    space.set((1, 1, 1), upgrade);
    assert_eq!(space.get((1, 1, 1)), WIRE);
    assert_eq!(SpaceCell::Empty.reserve(), SpaceCell::Reserved);
    assert_eq!(SpaceCell::Reserved.reserve(), SpaceCell::Reserved);
    assert_eq!(SOLID.reserve(), SOLID);
}

#[test]
fn iter_lists_exactly_the_stored_cells_in_storage_order() {
    let mut space = Space::new();
    assert_eq!(space.iter(), vec![]);
    assert_eq!(space.size(), (0, 0, 0));
    space.write((1, 0, 1), WIRE);
    assert_eq!(
        space.iter(),
        vec![((0, 0, 1), SpaceCell::Empty), ((1, 0, 1), WIRE)]
    );
    space.write((0, 1, 0), SOLID);
    assert_eq!(
        space.iter(),
        vec![((0, 1, 0), SOLID), ((0, 0, 1), SpaceCell::Empty), ((1, 0, 1), WIRE)]
    );
    assert_eq!(space.size(), (2, 2, 2));
}

#[test]
fn the_open_set_hands_out_the_lowest_score_first() {
    let a = (1, 1, 1);
    let b = (2, 2, 2);
    let c = (3, 3, 3);
    let mut open = OpenSet::new((a, 5));
    assert!(!open.is_empty());
    open.update(b, 3);
    open.update(c, 5);
    assert_eq!(open.pop(), b);
    assert_eq!(open.pop(), a);
    assert_eq!(open.pop(), c);
    assert!(open.is_empty());
}

#[test]
fn an_address_whose_score_was_lowered_comes_next() {
    let a = (0, 0, 0);
    let k = (4, 4, 4);
    let mut open = OpenSet::new((a, 5));
    open.update(k, 10);
    open.update(k, 3);
    assert_eq!(open.pop(), k);
    assert_eq!(open.pop(), a);
    assert!(open.is_empty());
}

#[test]
fn an_update_never_doubles_an_address() {
    let k = (4, 4, 4);
    let mut open = OpenSet::new((k, 7));
    open.update(k, 7);
    open.update(k, 9);
    open.update(k, 2);
    assert_eq!(open.pop(), k);
    assert!(open.is_empty());
}

struct Line1;

impl mclc::backend::astar::Container for Line1 {
    type Index = (usize, usize, usize);
}

fn line_moves(_: &Line1, p: (usize, usize, usize)) -> Vec<((usize, usize, usize), i64)> {
    let mut moves = Vec::new();
    if p.0 < 9 {
        moves.push(((p.0 + 1, 0, 0), 1));
    }
    if p.0 >= 1 {
        moves.push(((p.0 - 1, 0, 0), 1));
    }
    moves
}

#[test]
fn the_search_returns_the_route_from_start_to_destination() {
    let found = path(&Line1, (2, 0, 0), (6, 0, 0), manhattan, line_moves, 1000);
    assert_eq!(
        found,
        Ok(vec![(2, 0, 0), (3, 0, 0), (4, 0, 0), (5, 0, 0), (6, 0, 0)])
    );
    assert_eq!(path(&Line1, (2, 0, 0), (2, 0, 0), manhattan, line_moves, 1000), Ok(vec![(2, 0, 0)]));
}

#[test]
fn the_search_prefers_the_cheaper_route() {
    // a ring of six addresses: one way round costs 1 a step, the other 5
    let ring = |_: &Line1, p: (usize, usize, usize)| {
        vec![(((p.0 + 1) % 6, 0, 0), 1), (((p.0 + 5) % 6, 0, 0), 5)]
    };
    let found = path(&Line1, (0, 0, 0), (4, 0, 0), |_, _| 0, ring, 1000);
    assert_eq!(
        found,
        Ok(vec![(0, 0, 0), (1, 0, 0), (2, 0, 0), (3, 0, 0), (4, 0, 0)])
    );
}

#[test]
fn the_search_reports_when_no_route_exists() {
    let found = path(&Line1, (2, 0, 0), (2, 5, 0), manhattan, line_moves, 1000);
    assert_eq!(found, Err(SearchError::Unreachable));
}

#[test]
fn the_search_gives_up_at_its_limit() {
    let found = path(&Line1, (0, 0, 0), (9, 0, 0), manhattan, line_moves, 3);
    assert_eq!(found, Err(SearchError::StepLimit));
    let found = path(&Line1, (0, 0, 0), (9, 0, 0), manhattan, line_moves, 0);
    assert_eq!(found, Err(SearchError::StepLimit));
}

#[test]
fn the_search_takes_the_way_round_where_it_is_cheaper() {
    let a = (0, 0, 0);
    let b = (1, 0, 0);
    let c = (2, 0, 0);
    let rule = move |_: &Line1, p: (usize, usize, usize)| {
        if p == a {
            vec![(c, 4), (b, 1)]
        } else if p == b {
            vec![(c, 1)]
        } else {
            vec![]
        }
    };
    assert_eq!(path(&Line1, a, c, |_, _| 0, rule, 1000), Ok(vec![a, b, c]));
    // three addresses can be reached: three expansions are enough
    assert_eq!(path(&Line1, a, c, |_, _| 0, rule, 3), Ok(vec![a, b, c]));
}

#[test]
fn the_search_accepts_steps_that_cost_nothing() {
    // a ring of four addresses, free in one direction and dear in the other
    let ring = |_: &Line1, p: (usize, usize, usize)| {
        vec![(((p.0 + 1) % 4, 0, 0), 0), (((p.0 + 3) % 4, 0, 0), 7)]
    };
    let found = path(&Line1, (0, 0, 0), (3, 0, 0), |_, _| 0, ring, 1000);
    assert_eq!(found, Ok(vec![(0, 0, 0), (1, 0, 0), (2, 0, 0), (3, 0, 0)]));
    let found = path(&Line1, (2, 0, 0), (2, 0, 0), |_, _| 0, ring, 1);
    assert_eq!(found, Ok(vec![(2, 0, 0)]));
}

#[test]
fn the_search_gives_up_only_after_as_many_addresses_as_it_was_allowed() {
    // ten addresses in a row; nine of them lie before the last
    let found = path(&Line1, (0, 0, 0), (9, 0, 0), manhattan, line_moves, 9);
    assert_eq!(found, Err(SearchError::StepLimit));
    let found = path(&Line1, (0, 0, 0), (9, 0, 0), manhattan, line_moves, 10);
    assert_eq!(found.map(|route| route.len()), Ok(10));
    // a destination off the row: all ten are expanded before the answer
    let found = path(&Line1, (0, 0, 0), (0, 1, 0), manhattan, line_moves, 10);
    assert_eq!(found, Err(SearchError::StepLimit));
    let found = path(&Line1, (0, 0, 0), (0, 1, 0), manhattan, line_moves, 11);
    assert_eq!(found, Err(SearchError::Unreachable));
}

#[test]
fn manhattan_adds_the_distances_along_the_axes() {
    assert_eq!(manhattan((1, 2, 3), (4, 0, 3)), 5);
    assert_eq!(manhattan((0, 0, 0), (0, 0, 0)), 0);
    assert_eq!(manhattan((0, 0, 0), (usize::MAX, usize::MAX, 0)), i64::MAX);
}

#[test]
fn a_move_costs_one_in_the_plane_and_two_between_layers() {
    let space = Space::new();
    let moves = base_neighbours(&space, (5, 5, 5));
    assert_eq!(
        moves,
        vec![
            ((6, 5, 5), 1),
            ((4, 5, 5), 1),
            ((5, 6, 5), 1),
            ((5, 4, 5), 1),
            ((6, 5, 6), 2),
            ((4, 5, 6), 2),
            ((5, 6, 6), 2),
            ((5, 4, 6), 2),
            ((6, 5, 4), 2),
            ((4, 5, 4), 2),
            ((5, 6, 4), 2),
            ((5, 4, 4), 2),
        ]
    );
}

#[test]
fn moves_to_the_layer_before_need_the_cell_there_to_be_empty() {
    let mut space = Space::new();
    space.write((5, 5, 4), SpaceCell::Reserved);
    assert_eq!(base_neighbours(&space, (5, 5, 5)).len(), 8);
    assert_eq!(base_neighbours(&space, (5, 5, 0)).len(), 8);
    assert_eq!(
        base_neighbours(&space, (0, 0, 0)),
        vec![((1, 0, 0), 1), ((0, 1, 0), 1), ((1, 0, 1), 2), ((0, 1, 1), 2)]
    );
}

#[test]
fn neighbours_are_the_admissible_moves() {
    let mut space = Space::new();
    space.write((6, 5, 5), SpaceCell::Reserved);
    space.write((4, 5, 6), WIRE);
    space.write((5, 6, 4), SOLID);
    space.write((5, 4, 4), SpaceCell::Reserved);
    let moves = neighbours(&space, (5, 5, 5), (90, 90, 90));
    // (6,5,5) is reserved; (4,5,5) has a block above it; (5,6,5) has a block
    // below it; (5,4,5) has only a reservation below it
    assert_eq!(
        moves,
        vec![
            ((5, 4, 5), 1),
            ((6, 5, 6), 2),
            ((5, 6, 6), 2),
            ((5, 4, 6), 2),
            ((4, 5, 4), 2),
        ]
    );
}

#[test]
fn the_move_to_the_destination_is_always_offered_alone() {
    let mut space = Space::new();
    space.write((6, 5, 5), SpaceCell::Reserved);
    assert_eq!(neighbours(&space, (5, 5, 5), (6, 5, 5)), vec![((6, 5, 5), 1)]);
    assert_eq!(neighbours(&space, (5, 5, 5), (5, 4, 6)), vec![((5, 4, 6), 2)]);
}

#[test]
fn a_wire_gets_its_substrate_and_its_halo() {
    let mut space = Space::new();
    space.write((6, 5, 5), SOLID);
    place_path(&mut space, vec![(5, 5, 5)]);
    assert_eq!(space.get((5, 5, 5)), WIRE);
    assert_eq!(space.get((5, 5, 6)), SOLID);
    assert_eq!(space.get((6, 5, 5)), SOLID);
    for z in [4, 5, 6] {
        assert_eq!(space.get((4, 5, z)), SpaceCell::Reserved);
        assert_eq!(space.get((5, 4, z)), SpaceCell::Reserved);
        assert_eq!(space.get((5, 6, z)), SpaceCell::Reserved);
    }
    assert_eq!(space.get((6, 5, 4)), SpaceCell::Reserved);
    assert_eq!(space.get((6, 5, 6)), SpaceCell::Reserved);
    assert_eq!(space.get((5, 5, 4)), SpaceCell::Empty);
    assert_eq!(space.get((4, 4, 5)), SpaceCell::Empty);
    assert_eq!(space.get((3, 5, 5)), SpaceCell::Empty);
    assert_eq!(used_cells(&space).len(), 3);
}

#[test]
fn a_wire_along_a_path_covers_every_address_of_it() {
    let mut space = Space::new();
    place_path(&mut space, vec![(3, 3, 3), (4, 3, 3), (5, 3, 4)]);
    for p in [(3, 3, 3), (4, 3, 3), (5, 3, 4)] {
        assert_eq!(space.get(p), WIRE);
        assert_eq!(space.get((p.0, p.1, p.2 + 1)), SOLID);
    }
    place_path(&mut space, vec![]);
    assert_eq!(used_cells(&space).len(), 6);
}

#[test]
fn the_halo_is_painted_on_empty_cells_only() {
    let mut space = Space::new();
    space.write((7, 9, 8), WIRE);
    reserve_around(&mut space, (10, 10, 8), (3, 3, 1), 3);
    assert_eq!(space.get((7, 9, 8)), WIRE);
    // the rows before and after the macro, three cells to either side
    for x in 7..16 {
        if x != 7 {
            assert_eq!(space.get((x, 9, 8)), SpaceCell::Reserved);
        }
        assert_eq!(space.get((x, 13, 8)), SpaceCell::Reserved);
    }
    assert_eq!(space.get((6, 9, 8)), SpaceCell::Empty);
    assert_eq!(space.get((16, 13, 8)), SpaceCell::Reserved);
    assert_eq!(space.get((17, 13, 8)), SpaceCell::Empty);
    // the columns at either side, on the macro's layer and the one after it
    for y in 8..14 {
        for z in [8, 9] {
            assert_eq!(space.get((7, y, z)), if (y, z) == (9, 8) { WIRE } else { SpaceCell::Reserved });
            assert_eq!(space.get((16, y, z)), SpaceCell::Reserved);
        }
    }
    assert_eq!(space.get((7, 7, 8)), SpaceCell::Empty);
    assert_eq!(space.get((7, 14, 8)), SpaceCell::Empty);
    assert_eq!(space.get((10, 10, 8)), SpaceCell::Empty);
    assert_eq!(space.get((8, 9, 9)), SpaceCell::Empty);
}

#[test]
fn the_halo_of_a_macro_at_the_border_stays_in_the_grid() {
    let mut space = Space::new();
    reserve_around(&mut space, (1, 0, 0), (1, 1, 1), 3);
    assert_eq!(space.get((0, 0, 0)), SpaceCell::Reserved);
    assert_eq!(space.get((0, 1, 0)), SpaceCell::Reserved);
    assert_eq!(space.get((4, 1, 0)), SpaceCell::Reserved);
    assert_eq!(space.get((5, 0, 1)), SpaceCell::Reserved);
    assert_eq!(space.get((1, 0, 0)), SpaceCell::Empty);
}

#[test]
fn the_xor_macro_is_seven_by_four_with_its_ports_at_the_faces() {
    let mut space = Space::new();
    let (size, data) = place_node(&mut space, op(0, BuiltinOp::Xor), 10, 20, 8);
    assert_eq!(size, (7, 4, 1));
    match data {
        PlacedNodeData::Entity { in_ports, out_ports } => {
            assert_eq!(in_ports, vec![(10, 20, 8), (10, 23, 8)]);
            assert_eq!(out_ports, vec![(16, 21, 8)]);
        }
        other => panic!("not a gate: {:?}", other),
    }
    let east = Orientation::East;
    assert_eq!(space.get((10, 20, 8)), WIRE);
    assert_eq!(space.get((10, 23, 8)), WIRE);
    assert_eq!(space.get((16, 21, 8)), WIRE);
    assert_eq!(space.get((11, 20, 8)), SpaceCell::Used(SpaceBlock::Repeater { direction: east }));
    assert_eq!(space.get((11, 23, 8)), SpaceCell::Used(SpaceBlock::Repeater { direction: east }));
    assert_eq!(
        space.get((13, 21, 8)),
        SpaceCell::Used(SpaceBlock::Comparator { direction: east, activated: true })
    );
    assert_eq!(
        space.get((13, 22, 8)),
        SpaceCell::Used(SpaceBlock::Comparator { direction: east, activated: true })
    );
    for y in 20..24 {
        assert_eq!(space.get((12, y, 8)), SOLID);
        assert_eq!(space.get((12, y, 9)), SpaceCell::Empty);
    }
    assert_eq!(space.get((10, 21, 8)), SpaceCell::Empty);
    let used = used_cells(&space);
    assert_eq!(used.len(), 10 + 10 + 4 + 2 + 2 + 2 + 2);
    for ((x, y, z), block) in used {
        assert!((10..17).contains(&x) && (20..24).contains(&y));
        assert!(z == 8 || (z == 9 && block == SpaceBlock::SolidBlock));
    }
}

#[test]
fn the_and_macro_is_five_by_three() {
    let mut space = Space::new();
    let (size, data) = place_node(&mut space, op(0, BuiltinOp::And), 4, 4, 8);
    assert_eq!(size, (5, 3, 1));
    match data {
        PlacedNodeData::Entity { in_ports, out_ports } => {
            assert_eq!(in_ports, vec![(4, 4, 8), (4, 6, 8)]);
            assert_eq!(out_ports, vec![(8, 5, 8)]);
        }
        other => panic!("not a gate: {:?}", other),
    }
    let west = Orientation::West;
    assert_eq!(space.get((7, 4, 8)), SpaceCell::Used(SpaceBlock::TorchOnBlock { direction: west }));
    assert_eq!(space.get((7, 6, 8)), SpaceCell::Used(SpaceBlock::TorchOnBlock { direction: west }));
    assert_eq!(space.get((7, 4, 9)), SpaceCell::Empty);
    assert_eq!(space.get((7, 5, 8)), WIRE);
    assert_eq!(space.get((6, 5, 8)), SOLID);
    assert_eq!(used_cells(&space).len(), 4 + 4 + 2 + 2 + 2 + 3);
}

#[test]
fn the_or_macro_is_three_by_three() {
    let mut space = Space::new();
    let (size, data) = place_node(&mut space, op(0, BuiltinOp::Or), 4, 4, 8);
    assert_eq!(size, (3, 3, 1));
    match data {
        PlacedNodeData::Entity { in_ports, out_ports } => {
            assert_eq!(in_ports, vec![(4, 4, 8), (4, 6, 8)]);
            assert_eq!(out_ports, vec![(6, 5, 8)]);
        }
        other => panic!("not a gate: {:?}", other),
    }
    let wires: Vec<_> = used_cells(&space)
        .into_iter()
        .filter(|(_, b)| *b == SpaceBlock::Redstone)
        .map(|(p, _)| p)
        .collect();
    assert_eq!(wires, vec![(4, 4, 8), (5, 4, 8), (5, 5, 8), (6, 5, 8), (4, 6, 8), (5, 6, 8)]);
}

#[test]
fn the_splitter_macro_has_one_output_on_every_second_row() {
    let mut space = Space::new();
    let node = Node::new(0, NodeType::Splitter { port_count: 3 });
    let (size, data) = place_node(&mut space, node, 4, 4, 8);
    assert_eq!(size, (3, 5, 1));
    match data {
        PlacedNodeData::Splitter { input, ports } => {
            assert_eq!(input, (4, 6, 8));
            assert_eq!(ports, vec![(6, 4, 8), (6, 6, 8), (6, 8, 8)]);
        }
        other => panic!("not a splitter: {:?}", other),
    }
    for y in 4..9 {
        assert_eq!(space.get((5, y, 8)), WIRE);
        assert_eq!(space.get((5, y, 9)), SOLID);
    }
    assert_eq!(space.get((4, 5, 8)), SpaceCell::Empty);
    assert_eq!(space.get((6, 5, 8)), SpaceCell::Empty);
    assert_eq!(used_cells(&space).len(), 2 * (1 + 3 + 5));
}

#[test]
fn inputs_outputs_and_variables_are_single_wires() {
    let mut space = Space::new();
    let (size, data) = place_node(&mut space, input(0, "a"), 4, 4, 8);
    assert_eq!(size, (1, 1, 1));
    assert!(matches!(data, PlacedNodeData::Input { name } if name == "a"));
    let (_, data) = place_node(&mut space, output(1, "r"), 4, 14, 8);
    assert!(matches!(data, PlacedNodeData::Output { name } if name == "r"));
    let var = Node::new(2, NodeType::Variable { name: "t".to_string() });
    let (_, data) = place_node(&mut space, var, 4, 24, 8);
    assert!(matches!(data, PlacedNodeData::Variable { name } if name == "t"));
    assert_eq!(
        used_cells(&space),
        vec![
            ((4, 4, 8), SpaceBlock::Redstone),
            ((4, 14, 8), SpaceBlock::Redstone),
            ((4, 24, 8), SpaceBlock::Redstone),
            ((4, 4, 9), SpaceBlock::SolidBlock),
            ((4, 14, 9), SpaceBlock::SolidBlock),
            ((4, 24, 9), SpaceBlock::SolidBlock),
        ]
    );
    assert_eq!(space.get((4, 3, 8)), SpaceCell::Reserved);
    assert_eq!(space.get((1, 4, 8)), SpaceCell::Reserved);
    assert_eq!(space.get((8, 4, 9)), SpaceCell::Reserved);
}

#[test]
fn stamp_writes_blocks_and_substrates() {
    let mut space = Space::new();
    stamp(&mut space, &vec![wire(1, 2)], (10, 10, 3));
    assert_eq!(
        used_cells(&space),
        vec![((11, 12, 3), SpaceBlock::Redstone), ((11, 12, 4), SpaceBlock::SolidBlock)]
    );
}

fn two_nodes() -> Vec<PlacedNode> {
    vec![
        PlacedNode((1, 1, 8), 0, PlacedNodeData::Input { name: "a".to_string() }),
        PlacedNode(
            (20, 1, 8),
            1,
            PlacedNodeData::Entity { in_ports: vec![(20, 1, 8), (20, 3, 8)], out_ports: vec![(22, 2, 8)] },
        ),
        PlacedNode(
            (40, 1, 8),
            2,
            PlacedNodeData::Splitter { input: (40, 2, 8), ports: vec![(42, 1, 8), (42, 3, 8)] },
        ),
    ]
}

#[test]
fn the_ends_of_an_edge_are_the_ports_it_names() {
    let nodes = two_nodes();
    assert_eq!(resolve_ends(&Edge::new(0, 0, 1, 1), &nodes), Ok(((1, 1, 8), (20, 3, 8))));
    assert_eq!(resolve_ends(&Edge::new(1, 0, 2, 0), &nodes), Ok(((22, 2, 8), (40, 2, 8))));
    assert_eq!(resolve_ends(&Edge::new(2, 1, 1, 0), &nodes), Ok(((42, 3, 8), (20, 1, 8))));
    assert_eq!(resolve_ends(&Edge::new(0, 5, 2, 9), &nodes), Ok(((1, 1, 8), (40, 2, 8))));
    assert_eq!(resolve_ends(&Edge::new(7, 0, 1, 0), &nodes), Err(RouteError::UnknownNode));
    assert_eq!(resolve_ends(&Edge::new(0, 0, 7, 0), &nodes), Err(RouteError::UnknownNode));
    assert_eq!(resolve_ends(&Edge::new(1, 1, 2, 0), &nodes), Err(RouteError::PortOutOfRange));
    assert_eq!(resolve_ends(&Edge::new(2, 2, 1, 0), &nodes), Err(RouteError::PortOutOfRange));
    assert_eq!(resolve_ends(&Edge::new(0, 0, 1, 2), &nodes), Err(RouteError::PortOutOfRange));
}

#[test]
fn the_stubs_are_cleared_before_a_search() {
    let mut space = Space::new();
    for x in 0..12 {
        for z in 7..10 {
            space.write((x, 5, z), SpaceCell::Reserved);
        }
    }
    unreserve(&mut space, (1, 5, 8), (10, 5, 8));
    for x in 0..12 {
        let src = (1..5).contains(&x);
        let dest = (6..10).contains(&x);
        assert_eq!(space.get((x, 5, 7)), SpaceCell::Reserved);
        assert_eq!(
            space.get((x, 5, 8)),
            if src || dest { SpaceCell::Empty } else { SpaceCell::Reserved }
        );
        assert_eq!(space.get((x, 5, 9)), if dest { SpaceCell::Empty } else { SpaceCell::Reserved });
    }
}

#[test]
fn a_route_leads_through_admissible_cells() {
    let space = Space::new();
    let route = find_route(&space, (2, 5, 8), (6, 5, 8)).unwrap();
    assert_eq!(route, vec![(2, 5, 8), (3, 5, 8), (4, 5, 8), (5, 5, 8), (6, 5, 8)]);
}

#[test]
fn an_edge_is_wired_from_port_to_port() {
    let mut space = Space::new();
    let nodes = vec![
        PlacedNode((1, 5, 8), 0, PlacedNodeData::Input { name: "a".to_string() }),
        PlacedNode((9, 5, 8), 1, PlacedNodeData::Output { name: "r".to_string() }),
    ];
    assert_eq!(place_edge(&mut space, &Edge::new(0, 0, 1, 0), &nodes), Ok(()));
    for x in 1..10 {
        assert_eq!(space.get((x, 5, 8)), WIRE);
        assert_eq!(space.get((x, 5, 9)), SOLID);
        assert_eq!(space.get((x, 4, 8)), SpaceCell::Reserved);
        assert_eq!(space.get((x, 6, 7)), SpaceCell::Reserved);
    }
    assert_eq!(space.get((0, 5, 8)), SpaceCell::Reserved);
    assert_eq!(space.get((10, 5, 8)), SpaceCell::Reserved);
    assert_eq!(used_cells(&space).len(), 18);
}

#[test]
fn an_edge_that_cannot_be_wired_is_reported() {
    let nodes = vec![
        PlacedNode((1, 5, 8), 0, PlacedNodeData::Input { name: "a".to_string() }),
        PlacedNode((0, 5, 8), 1, PlacedNodeData::Output { name: "r".to_string() }),
    ];
    let mut space = Space::new();
    assert_eq!(place_edge(&mut space, &Edge::new(0, 0, 1, 0), &nodes), Err(RouteError::OutOfGrid));
    assert_eq!(place_edge(&mut space, &Edge::new(0, 0, 9, 0), &nodes), Err(RouteError::UnknownNode));
    assert_eq!(space.iter(), vec![]);
    let graph = Graph::new(vec![], vec![Edge::new(0, 0, 9, 0)]);
    assert_eq!(connect_nodes(&mut space, &graph, &nodes), Err(RouteError::UnknownNode));
    let graph = Graph::new(vec![], vec![]);
    assert_eq!(connect_nodes(&mut space, &graph, &nodes), Ok(()));
}

fn half_adder() -> Graph {
    // a and b each feed a splitter; the splitters feed an xor and an and
    Graph::new(
        vec![
            input(0, "a"),
            input(1, "b"),
            output(2, "sum"),
            output(3, "carry"),
            op(4, BuiltinOp::Xor),
            op(5, BuiltinOp::And),
            Node::new(6, NodeType::Splitter { port_count: 2 }),
            Node::new(7, NodeType::Splitter { port_count: 2 }),
        ],
        vec![
            Edge::new(0, 0, 6, 0),
            Edge::new(1, 0, 7, 0),
            Edge::new(6, 0, 4, 0),
            Edge::new(6, 1, 5, 0),
            Edge::new(7, 0, 4, 1),
            Edge::new(7, 1, 5, 1),
            Edge::new(4, 0, 2, 0),
            Edge::new(5, 0, 3, 0),
        ],
    )
}

#[test]
fn the_sweep_places_nodes_in_columns_by_their_predecessors() {
    let (space, placed) = place_nodes(&half_adder()).unwrap();
    let anchors: Vec<_> = placed.iter().map(|p| (p.1, p.0)).collect();
    assert_eq!(
        anchors,
        vec![
            (0, (1, 1, 8)),
            (1, (1, 7, 8)),
            (6, (18, 1, 8)),
            (7, (18, 9, 8)),
            (4, (37, 1, 8)),
            (5, (37, 10, 8)),
            (2, (60, 1, 8)),
            (3, (60, 7, 8)),
        ]
    );
    assert_eq!(space.get((1, 1, 8)), WIRE);
    assert_eq!(space.get((43, 2, 8)), WIRE);
    assert_eq!(space.get((0, 0, 0)), SpaceCell::Empty);
}

#[test]
fn no_two_macros_share_a_cell() {
    let (_, placed) = place_nodes(&half_adder()).unwrap();
    let graph = half_adder();
    let mut seen = std::collections::HashSet::new();
    for node in placed.iter() {
        let mut space = Space::new();
        let kind = graph.get_node(node.1).unwrap().clone();
        place_node(&mut space, Node::new(kind.id, kind.inner.clone()), node.0 .0, node.0 .1, node.0 .2);
        for (pos, _) in used_cells(&space) {
            assert!(seen.insert(pos));
        }
    }
    // four single wires, two splitters of six wires, an xor and an and
    assert_eq!(seen.len(), 4 * 2 + 2 * 12 + 32 + 17);
}

#[test]
fn a_graph_is_laid_out_and_wired() {
    let layout = generate_layout(half_adder()).unwrap();
    let space = &layout.space;
    // every wire rests on a solid block
    for (pos, block) in used_cells(space) {
        if block == SpaceBlock::Redstone {
            assert_eq!(space.get((pos.0, pos.1, pos.2 + 1)), SOLID);
        }
    }
    // the ports of every edge are joined by wires
    let (_, placed) = place_nodes(&half_adder()).unwrap();
    for edge in half_adder().edges.iter() {
        let (src, dest) = resolve_ends(edge, &placed).unwrap();
        let mut reached = vec![src];
        let mut next = 0;
        while next < reached.len() {
            let p = reached[next];
            next += 1;
            for dx in 0..3 {
                for dy in 0..3 {
                    for dz in 0..3 {
                        if p.0 + dx == 0 || p.1 + dy == 0 || p.2 + dz == 0 {
                            continue;
                        }
                        let q = (p.0 + dx - 1, p.1 + dy - 1, p.2 + dz - 1);
                        if space.get(q) == WIRE && !reached.contains(&q) {
                            reached.push(q);
                        }
                    }
                }
            }
        }
        assert!(reached.contains(&dest));
    }
}

#[test]
fn a_layout_fails_on_what_cannot_be_placed() {
    let cyclic = Graph::new(
        vec![op(0, BuiltinOp::Or), op(1, BuiltinOp::Or)],
        vec![Edge::new(0, 0, 1, 0), Edge::new(1, 0, 0, 0)],
    );
    assert!(matches!(generate_layout(cyclic), Err(LayoutError::Cyclic)));
    let negation = Graph::new(vec![op(0, BuiltinOp::Not)], vec![]);
    assert!(matches!(generate_layout(negation), Err(LayoutError::Unplaceable)));
    let empty_splitter = Graph::new(vec![Node::new(0, NodeType::Splitter { port_count: 0 })], vec![]);
    assert!(matches!(generate_layout(empty_splitter), Err(LayoutError::Unplaceable)));
    let dangling = Graph::new(vec![input(0, "a")], vec![Edge::new(0, 0, 9, 0)]);
    assert!(matches!(
        generate_layout(dangling),
        Err(LayoutError::Route(RouteError::UnknownNode))
    ));
    let nothing = Graph::new(vec![], vec![]);
    assert_eq!(generate_layout(nothing).unwrap().space.iter(), vec![]);
}

#[test]
fn decimal_writes_the_digits() {
    assert_eq!(decimal(0), "0");
    assert_eq!(decimal(7), "7");
    assert_eq!(decimal(10), "10");
    assert_eq!(decimal(9056), "9056");
    assert_eq!(decimal(usize::MAX), usize::MAX.to_string());
}

fn block(position: (usize, usize, usize), data: BlockData) -> MinecraftBlock {
    MinecraftBlock { position, data }
}

#[test]
fn a_block_command_negates_the_offsets_and_swaps_the_axes() {
    assert_eq!(block((1, 2, 3), BlockData::Stone).place_cmd(), "setblock ~-1 ~-3 ~-2 stone");
    assert_eq!(block((0, 0, 0), BlockData::Redstone).place_cmd(), "setblock ~0 ~0 ~0 redstone_wire");
    assert_eq!(
        block((12, 0, 9), BlockData::TorchOnBlock { orient: Orientation::West }).place_cmd(),
        "setblock ~-12 ~-9 ~0 redstone_wall_torch[facing=west]"
    );
    assert_eq!(
        block((3, 4, 8), BlockData::Repeater { orient: Orientation::East }).place_cmd(),
        "setblock ~-3 ~-8 ~-4 repeater[facing=east]"
    );
    assert_eq!(
        block((3, 4, 8), BlockData::Comparator { orient: Orientation::North, activated: true })
            .place_cmd(),
        "setblock ~-3 ~-8 ~-4 comparator[facing=north,mode=subtract]"
    );
    assert_eq!(Orientation::South.name(), "south");
    assert!(block((0, 0, 0), BlockData::Stone).has_command());
    let idle = BlockData::Comparator { orient: Orientation::East, activated: false };
    assert!(!block((0, 0, 0), idle).has_command());
    assert!(!BlockLayout { blocks: vec![block((0, 0, 0), idle)] }.is_supported());
}

const HEAD: &str = "summon falling_block ~ ~1 ~ {Time:1,BlockState:{Name:redstone_block},Passengers:[{id:falling_block,Passengers:[{id:falling_block,Time:1,BlockState:{Name:activator_rail},Passengers:[{id:command_block_minecart,Command:'gamerule commandBlockOutput false'},";
const TAIL: &str = "{id:command_block_minecart,Command:'setblock ~ ~1 ~ command_block{auto:1,Command:\"fill ~ ~ ~ ~ ~-3 ~ air\"}'},{id:command_block_minecart,Command:'kill @e[type=command_block_minecart,distance=..1]'}]}]}]}";

#[test]
fn installers_carry_the_stone_first() {
    let layout = BlockLayout {
        blocks: vec![
            block((1, 1, 1), BlockData::Redstone),
            block((1, 1, 2), BlockData::Stone),
            block((2, 1, 1), BlockData::Redstone),
        ],
    };
    assert!(layout.is_supported());
    let commands = layout.place_commands();
    assert_eq!(
        commands,
        vec![
            format!(
                "{}{}{}",
                HEAD, "{id:command_block_minecart,Command:'setblock ~-1 ~-2 ~-1 stone'},", TAIL
            ),
            format!(
                "{}{}{}{}",
                HEAD,
                "{id:command_block_minecart,Command:'setblock ~-1 ~-1 ~-1 redstone_wire'},",
                "{id:command_block_minecart,Command:'setblock ~-2 ~-1 ~-1 redstone_wire'},",
                TAIL
            ),
        ]
    );
    assert_eq!(BlockLayout { blocks: vec![] }.place_commands(), Vec::<String>::new());
}

#[test]
fn an_installer_carries_four_hundred_commands_at_most() {
    let mut blocks = Vec::new();
    for x in 0..801 {
        blocks.push(block((x, 0, 0), BlockData::Stone));
    }
    blocks.push(block((0, 0, 1), BlockData::Redstone));
    let commands = BlockLayout { blocks }.place_commands();
    let counts: Vec<_> = commands
        .iter()
        .map(|c| c.matches("Command:'setblock ~").count() - 1)
        .collect();
    assert_eq!(counts, vec![400, 400, 1, 1]);
    assert!(commands[1].contains("Command:'setblock ~-400 ~0 ~0 stone'},{id"));
    assert!(commands[1].contains("Command:'setblock ~-799 ~0 ~0 stone'},{id"));
    assert!(commands[2].contains("Command:'setblock ~-800 ~0 ~0 stone'},{id"));
    assert!(commands[3].contains("Command:'setblock ~0 ~-1 ~0 redstone_wire'},{id"));
}

#[test]
fn the_blocks_of_a_layout_are_its_used_cells() {
    let mut space = Space::new();
    space.write((1, 0, 0), WIRE);
    space.write((0, 1, 0), SpaceCell::Reserved);
    space.write((0, 0, 1), SOLID);
    let torch = SpaceBlock::TorchOnBlock { direction: Orientation::West };
    space.write((2, 0, 1), SpaceCell::Used(torch));
    let blocks = Layout { space }.placement().blocks;
    let listed: Vec<_> = blocks.iter().map(|b| (b.position, b.data)).collect();
    assert_eq!(
        listed,
        vec![
            ((1, 0, 0), BlockData::Redstone),
            ((0, 0, 1), BlockData::Stone),
            ((2, 0, 1), BlockData::TorchOnBlock { orient: Orientation::West }),
        ]
    );
}

#[test]
fn a_drawing_has_a_sheet_for_every_layer() {
    let mut space = Space::new();
    space.write((1, 1, 0), WIRE);
    space.write((0, 0, 1), SOLID);
    let drawing = visualize(&space).unwrap();
    assert_eq!((drawing.width, drawing.height), (30, 60));
    assert_eq!(
        drawing.blocks,
        vec![
            vec![Rect { fill: Colour::Red, x: 10, y: 10, width: 10, height: 10 }],
            vec![Rect { fill: Colour::Gray, x: 0, y: 30, width: 10, height: 10 }],
        ]
    );
    assert_eq!(
        drawing.lines,
        vec![
            Line { x: 0, y: 0, dx: 0, dy: 20 },
            Line { x: 10, y: 0, dx: 0, dy: 20 },
            Line { x: 0, y: 10, dx: 20, dy: 0 },
            Line { x: 0, y: 30, dx: 0, dy: 20 },
            Line { x: 10, y: 30, dx: 0, dy: 20 },
            Line { x: 0, y: 40, dx: 20, dy: 0 },
        ]
    );
    assert_eq!(Colour::Red.name(), "#FF0000");
    assert_eq!(Colour::DarkRed.name(), "#AA3333");
}

#[test]
fn directional_blocks_are_drawn_as_mosaics() {
    let east = Orientation::East;
    let mut space = Space::new();
    space.write((0, 0, 0), SpaceCell::Used(SpaceBlock::Repeater { direction: east }));
    space.write((1, 0, 0), SpaceCell::Used(SpaceBlock::Comparator { direction: east, activated: true }));
    space.write((2, 0, 0), SpaceCell::Used(SpaceBlock::TorchOnBlock { direction: Orientation::West }));
    let layout = Layout { space };
    let drawing = layout.generate_svg().unwrap();
    let small = |fill, x, y| Rect { fill, x, y, width: 2, height: 2 };
    assert_eq!(
        drawing.blocks,
        vec![
            vec![
                Rect { fill: Colour::LightGrey, x: 0, y: 0, width: 10, height: 10 },
                small(Colour::Red, 8, 4),
                small(Colour::Red, 4, 4),
            ],
            vec![
                Rect { fill: Colour::LightGrey, x: 10, y: 0, width: 10, height: 10 },
                small(Colour::Red, 12, 2),
                small(Colour::Red, 12, 6),
                small(Colour::Red, 16, 4),
            ],
            vec![small(Colour::Red, 20, 4)],
        ]
    );
    let mut space = Space::new();
    space.write((0, 0, 0), SpaceCell::Used(SpaceBlock::Repeater { direction: Orientation::North }));
    assert!(matches!(visualize(&space), Err(RenderError::Unsupported)));
    let mut space = Space::new();
    space.write((0, 0, 0), SpaceCell::Used(SpaceBlock::Comparator { direction: east, activated: false }));
    assert_eq!(visualize(&space).unwrap().blocks[0][3], small(Colour::DarkRed, 6, 4));
}

#[test]
fn a_walled_in_start_has_no_route() {
    let mut space = Space::new();
    for (x, y, z) in [(4, 5, 8), (6, 5, 8), (5, 4, 8), (5, 6, 8)] {
        space.write((x, y, z), SOLID);
        space.write((x, y, z + 1), SOLID);
    }
    space.write((5, 5, 7), SOLID);
    assert_eq!(find_route(&space, (5, 5, 8), (20, 5, 8)), Err(SearchError::Unreachable));
    let nodes = vec![
        PlacedNode((4, 5, 8), 0, PlacedNodeData::Input { name: "a".to_string() }),
        PlacedNode((30, 5, 8), 1, PlacedNodeData::Output { name: "r".to_string() }),
    ];
    // the stub in front of the source is a tunnel that leads nowhere
    let mut walled = Space::new();
    walled.write((9, 5, 8), SOLID);
    for x in 3..11 {
        for (y, z) in [(4, 8), (6, 8), (5, 7), (5, 9), (4, 9), (6, 9), (4, 7), (6, 7)] {
            walled.write((x, y, z), SOLID);
        }
    }
    assert_eq!(
        place_edge(&mut walled, &Edge::new(0, 0, 1, 0), &nodes),
        Err(RouteError::Unreachable)
    );
}
