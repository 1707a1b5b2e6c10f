//! Macro placement: the fixed stamp of blocks that realizes each kind of
//! node, and where its ports end up.

use vstd::prelude::*;

use crate::backend::space::Space;
use crate::backend::{
    above, substrates_hold, Orientation, PlacedNodeData, Pos, SpaceBlock, SpaceCell, RESERVE_SPACE,
};
use crate::graph::normalized::{BuiltinOp, Node, NodeType};

pub mod reserve;

use reserve::{in_halo, reserve_around};

verus! {

/// One block of a macro: where it sits relative to the anchor, what it is,
/// and whether a solid block goes on the layer above it.
#[derive(Debug, Clone, Copy, PartialEq, Eq, Structural)]
pub struct Piece {
    pub dx: usize,
    pub dy: usize,
    pub block: SpaceBlock,
    pub substrate: bool,
}

/// A wire with its substrate.
pub open spec fn wire_piece(dx: usize, dy: usize) -> Piece {
    Piece { dx, dy, block: SpaceBlock::Redstone, substrate: true }
}

/// A solid block on the macro's own layer.
pub open spec fn solid_piece(dx: usize, dy: usize) -> Piece {
    Piece { dx, dy, block: SpaceBlock::SolidBlock, substrate: false }
}

/// An east-facing repeater with its substrate.
pub open spec fn repeater_piece(dx: usize, dy: usize) -> Piece {
    Piece {
        dx,
        dy,
        block: SpaceBlock::Repeater { direction: Orientation::East },
        substrate: true,
    }
}

/// An east-facing comparator in subtract mode with its substrate.
pub open spec fn comparator_piece(dx: usize, dy: usize) -> Piece {
    Piece {
        dx,
        dy,
        block: SpaceBlock::Comparator { direction: Orientation::East, activated: true },
        substrate: true,
    }
}

/// A west-facing wall torch.
pub open spec fn torch_piece(dx: usize, dy: usize) -> Piece {
    Piece {
        dx,
        dy,
        block: SpaceBlock::TorchOnBlock { direction: Orientation::West },
        substrate: false,
    }
}

#[verifier::when_used_as_spec(wire_piece)]
pub fn wire(dx: usize, dy: usize) -> (piece: Piece)
    ensures
        piece == wire_piece(dx, dy),
{
    Piece { dx, dy, block: SpaceBlock::Redstone, substrate: true }
}

#[verifier::when_used_as_spec(solid_piece)]
pub fn solid(dx: usize, dy: usize) -> (piece: Piece)
    ensures
        piece == solid_piece(dx, dy),
{
    Piece { dx, dy, block: SpaceBlock::SolidBlock, substrate: false }
}

#[verifier::when_used_as_spec(repeater_piece)]
pub fn repeater(dx: usize, dy: usize) -> (piece: Piece)
    ensures
        piece == repeater_piece(dx, dy),
{
    Piece { dx, dy, block: SpaceBlock::Repeater { direction: Orientation::East }, substrate: true }
}

#[verifier::when_used_as_spec(comparator_piece)]
pub fn comparator(dx: usize, dy: usize) -> (piece: Piece)
    ensures
        piece == comparator_piece(dx, dy),
{
    Piece {
        dx,
        dy,
        block: SpaceBlock::Comparator { direction: Orientation::East, activated: true },
        substrate: true,
    }
}

#[verifier::when_used_as_spec(torch_piece)]
pub fn torch(dx: usize, dy: usize) -> (piece: Piece)
    ensures
        piece == torch_piece(dx, dy),
{
    Piece {
        dx,
        dy,
        block: SpaceBlock::TorchOnBlock { direction: Orientation::West },
        substrate: false,
    }
}

/// The single wire of an input, an output or a variable.
pub open spec fn terminal_pieces() -> Seq<Piece> {
    seq![wire(0, 0)]
}

/// The xor macro, 7 wide and 4 deep: two repeaters at the inputs, a wall of
/// solid blocks, two comparators in subtract mode, and the wires that join
/// them to the output.
pub open spec fn xor_pieces() -> Seq<Piece> {
    seq![
        wire(0, 0),
        wire(0, 3),
        wire(3, 0),
        wire(3, 3),
        wire(4, 0),
        wire(4, 1),
        wire(4, 2),
        wire(4, 3),
        wire(5, 1),
        wire(6, 1),
        solid(2, 0),
        solid(2, 1),
        solid(2, 2),
        solid(2, 3),
        repeater(1, 0),
        repeater(1, 3),
        comparator(3, 1),
        comparator(3, 2),
    ]
}

/// The and macro, 5 wide and 3 deep: two repeaters feeding solid blocks
/// that carry wall torches, which invert onto the output row.
pub open spec fn and_pieces() -> Seq<Piece> {
    seq![
        wire(0, 0),
        wire(0, 2),
        wire(3, 1),
        wire(4, 1),
        repeater(1, 0),
        repeater(1, 2),
        torch(3, 0),
        torch(3, 2),
        solid(2, 0),
        solid(2, 1),
        solid(2, 2),
    ]
}

/// The or macro, 3 wide and 3 deep: wires in the shape of an H.
pub open spec fn or_pieces() -> Seq<Piece> {
    seq![wire(0, 0), wire(0, 2), wire(1, 0), wire(1, 1), wire(1, 2), wire(2, 1)]
}

/// The splitter for `ports` outputs: the input wire halfway down, one
/// output wire on every second row, and a rail between them on every row.
pub open spec fn splitter_pieces(ports: nat) -> Seq<Piece> {
    seq![wire(0, (ports - 1) as usize)] + Seq::new(ports, |k: int| wire(2, (2 * k) as usize))
        + Seq::new((2 * ports - 1) as nat, |j: int| wire(1, j as usize))
}

/// Whether the macro library can place a node of this kind: every kind but
/// a negation, and a splitter only with at least one port.
pub open spec fn placeable(kind: NodeType) -> bool {
    match kind {
        NodeType::Splitter { port_count } => port_count >= 1,
        NodeType::Operation { op } => op != BuiltinOp::Not,
        _ => true,
    }
}

/// The pieces of the macro for `kind`, in the order in which they are
/// stamped.
pub open spec fn macro_pieces(kind: NodeType) -> Seq<Piece> {
    match kind {
        NodeType::Input { .. } => terminal_pieces(),
        NodeType::Output { .. } => terminal_pieces(),
        NodeType::Variable { .. } => terminal_pieces(),
        NodeType::Splitter { port_count } => splitter_pieces(port_count as nat),
        NodeType::Operation { op } => match op {
            BuiltinOp::Xor => xor_pieces(),
            BuiltinOp::And => and_pieces(),
            BuiltinOp::Or => or_pieces(),
            BuiltinOp::Not => Seq::empty(),
        },
    }
}

/// Width, depth and height of the macro for `kind`.
pub open spec fn macro_size(kind: NodeType) -> (int, int, int) {
    match kind {
        NodeType::Input { .. } => (1, 1, 1),
        NodeType::Output { .. } => (1, 1, 1),
        NodeType::Variable { .. } => (1, 1, 1),
        NodeType::Splitter { port_count } => (3, 2 * port_count - 1, 1),
        NodeType::Operation { op } => match op {
            BuiltinOp::Xor => (7, 4, 1),
            BuiltinOp::And => (5, 3, 1),
            BuiltinOp::Or => (3, 3, 1),
            BuiltinOp::Not => (0, 0, 0),
        },
    }
}

/// The addresses of the input ports of the macro for `kind` at `anchor`.
pub open spec fn macro_inputs(kind: NodeType, anchor: Pos) -> Seq<Pos> {
    let (x, y, z) = anchor;
    match kind {
        NodeType::Splitter { port_count } => seq![(x, (y + port_count - 1) as usize, z)],
        NodeType::Operation { op } => match op {
            BuiltinOp::Xor => seq![(x, y, z), (x, (y + 3) as usize, z)],
            BuiltinOp::And => seq![(x, y, z), (x, (y + 2) as usize, z)],
            BuiltinOp::Or => seq![(x, y, z), (x, (y + 2) as usize, z)],
            BuiltinOp::Not => Seq::empty(),
        },
        _ => seq![anchor],
    }
}

/// The addresses of the output ports of the macro for `kind` at `anchor`.
pub open spec fn macro_outputs(kind: NodeType, anchor: Pos) -> Seq<Pos> {
    let (x, y, z) = anchor;
    match kind {
        NodeType::Splitter { port_count } => Seq::new(
            port_count as nat,
            |k: int| ((x + 2) as usize, (y + 2 * k) as usize, z),
        ),
        NodeType::Operation { op } => match op {
            BuiltinOp::Xor => seq![((x + 6) as usize, (y + 1) as usize, z)],
            BuiltinOp::And => seq![((x + 4) as usize, (y + 1) as usize, z)],
            BuiltinOp::Or => seq![((x + 2) as usize, (y + 1) as usize, z)],
            BuiltinOp::Not => Seq::empty(),
        },
        _ => seq![anchor],
    }
}

/// Whether `data` is the record of a node of `kind` placed at `anchor`.
pub open spec fn describes(data: PlacedNodeData, kind: NodeType, anchor: Pos) -> bool {
    match kind {
        NodeType::Input { name, .. } => data == (PlacedNodeData::Input { name }),
        NodeType::Output { name, .. } => data == (PlacedNodeData::Output { name }),
        NodeType::Variable { name } => data == (PlacedNodeData::Variable { name }),
        NodeType::Splitter { .. } => data matches PlacedNodeData::Splitter { input, ports }
            && seq![input] =~= macro_inputs(kind, anchor) && ports@ =~= macro_outputs(kind, anchor),
        NodeType::Operation { .. } => data matches PlacedNodeData::Entity { in_ports, out_ports }
            && in_ports@ =~= macro_inputs(kind, anchor) && out_ports@ =~= macro_outputs(
            kind,
            anchor,
        ),
    }
}

/// The address of `piece` when its macro is anchored at `anchor`.
pub open spec fn piece_pos(piece: Piece, anchor: Pos) -> Pos {
    ((anchor.0 + piece.dx) as usize, (anchor.1 + piece.dy) as usize, anchor.2)
}

/// What address `q` holds once `pieces` are stamped at `anchor`, where it
/// held `before`: the block of the last piece that covers `q`, with its own
/// block or with its substrate.
pub open spec fn stamped(pieces: Seq<Piece>, anchor: Pos, before: SpaceCell, q: Pos) -> SpaceCell
    decreases pieces.len(),
{
    if pieces.len() == 0 {
        before
    } else {
        let piece = pieces.last();
        if piece.substrate && q == above(piece_pos(piece, anchor)) {
            SpaceCell::Used(SpaceBlock::SolidBlock)
        } else if q == piece_pos(piece, anchor) {
            SpaceCell::Used(piece.block)
        } else {
            stamped(pieces.drop_last(), anchor, before, q)
        }
    }
}

/// Stamps `pieces` at `anchor`, first to last.
pub fn stamp(space: &mut Space, pieces: &Vec<Piece>, anchor: Pos)
    requires
        anchor.2 + 1 < usize::MAX,
        forall|i: int|
            0 <= i < pieces@.len() ==> anchor.0 + (#[trigger] pieces@[i]).dx < usize::MAX
                && anchor.1 + pieces@[i].dy < usize::MAX,
    ensures
        forall|q: Pos| final(space).at(q) == stamped(pieces@, anchor, old(space).at(q), q),
{
    let mut i: usize = 0;
    while i < pieces.len()
        invariant
            0 <= i <= pieces.len(),
            anchor.2 + 1 < usize::MAX,
            forall|k: int|
                0 <= k < pieces@.len() ==> anchor.0 + (#[trigger] pieces@[k]).dx < usize::MAX
                    && anchor.1 + pieces@[k].dy < usize::MAX,
            forall|q: Pos|
                space.at(q) == stamped(pieces@.take(i as int), anchor, old(space).at(q), q),
        decreases pieces.len() - i,
    {
        let piece = pieces[i];
        let at = (anchor.0 + piece.dx, anchor.1 + piece.dy, anchor.2);
        proof {
            assert(pieces@.take(i + 1).drop_last() =~= pieces@.take(i as int));
            assert(pieces@.take(i + 1).last() == piece);
        }
        space.write(at, SpaceCell::Used(piece.block));
        if piece.substrate {
            space.write((at.0, at.1, at.2 + 1), SpaceCell::Used(SpaceBlock::SolidBlock));
        }
        i += 1;
    }
    proof {
        assert(pieces@.take(i as int) =~= pieces@);
    }
}

/// The pieces of the splitter macro for `ports` outputs.
fn splitter(ports: usize) -> (pieces: Vec<Piece>)
    requires
        1 <= ports,
        2 * ports < usize::MAX,
    ensures
        pieces@ == splitter_pieces(ports as nat),
{
    let mut pieces: Vec<Piece> = Vec::new();
    pieces.push(wire(0, ports - 1));
    let ghost head = pieces@;
    let mut k: usize = 0;
    while k < ports
        invariant
            0 <= k <= ports,
            2 * ports < usize::MAX,
            pieces@ == head + Seq::new(k as nat, |k: int| wire(2, (2 * k) as usize)),
        decreases ports - k,
    {
        pieces.push(wire(2, 2 * k));
        proof {
            assert(pieces@ =~= head + Seq::new((k + 1) as nat, |k: int| wire(2, (2 * k) as usize)));
        }
        k += 1;
    }
    let ghost with_ports = pieces@;
    let height = 2 * ports - 1;
    let mut j: usize = 0;
    while j < height
        invariant
            0 <= j <= height,
            pieces@ == with_ports + Seq::new(j as nat, |j: int| wire(1, j as usize)),
        decreases height - j,
    {
        pieces.push(wire(1, j));
        proof {
            assert(pieces@ =~= with_ports + Seq::new((j + 1) as nat, |j: int| wire(1, j as usize)));
        }
        j += 1;
    }
    pieces
}

/// The pieces of the macro for `kind`.
fn pieces_of(kind: &NodeType) -> (pieces: Vec<Piece>)
    requires
        placeable(*kind),
        macro_size(*kind).1 + 1 < usize::MAX,
    ensures
        pieces@ == macro_pieces(*kind),
{
    match kind {
        NodeType::Input { .. } => vec![wire(0, 0)],
        NodeType::Output { .. } => vec![wire(0, 0)],
        NodeType::Variable { .. } => vec![wire(0, 0)],
        NodeType::Splitter { port_count } => splitter(*port_count as usize),
        NodeType::Operation { op } => match op {
            BuiltinOp::Xor => vec![
                wire(0, 0),
                wire(0, 3),
                wire(3, 0),
                wire(3, 3),
                wire(4, 0),
                wire(4, 1),
                wire(4, 2),
                wire(4, 3),
                wire(5, 1),
                wire(6, 1),
                solid(2, 0),
                solid(2, 1),
                solid(2, 2),
                solid(2, 3),
                repeater(1, 0),
                repeater(1, 3),
                comparator(3, 1),
                comparator(3, 2),
            ],
            BuiltinOp::And => vec![
                wire(0, 0),
                wire(0, 2),
                wire(3, 1),
                wire(4, 1),
                repeater(1, 0),
                repeater(1, 2),
                torch(3, 0),
                torch(3, 2),
                solid(2, 0),
                solid(2, 1),
                solid(2, 2),
            ],
            BuiltinOp::Or => vec![
                wire(0, 0),
                wire(0, 2),
                wire(1, 0),
                wire(1, 1),
                wire(1, 2),
                wire(2, 1),
            ],
            BuiltinOp::Not => Vec::new(),
        },
    }
}

/// Width, depth and height of the macro for `kind`.
fn size_of(kind: &NodeType) -> (size: (usize, usize, usize))
    requires
        placeable(*kind),
        macro_size(*kind).1 + 1 < usize::MAX,
    ensures
        (size.0 as int, size.1 as int, size.2 as int) == macro_size(*kind),
{
    match kind {
        NodeType::Input { .. } => (1, 1, 1),
        NodeType::Output { .. } => (1, 1, 1),
        NodeType::Variable { .. } => (1, 1, 1),
        NodeType::Splitter { port_count } => (3, 2 * (*port_count as usize) - 1, 1),
        NodeType::Operation { op } => match op {
            BuiltinOp::Xor => (7, 4, 1),
            BuiltinOp::And => (5, 3, 1),
            BuiltinOp::Or => (3, 3, 1),
            BuiltinOp::Not => (0, 0, 0),
        },
    }
}

/// Every piece of a macro lies within the macro's width and depth, so every
/// block stamped on the macro's own layer lies within the box that the
/// macro declares, and every substrate block lies directly above one of
/// them.
pub proof fn lemma_macro_within_bounds(kind: NodeType, i: int)
    requires
        placeable(kind),
        0 <= i < macro_pieces(kind).len(),
    ensures
        0 <= macro_pieces(kind)[i].dx < macro_size(kind).0,
        0 <= macro_pieces(kind)[i].dy < macro_size(kind).1,
        macro_size(kind).2 == 1,
{
}

/// Every wire of a macro has a substrate.
pub proof fn lemma_macro_wires_rest(kind: NodeType, i: int)
    requires
        placeable(kind),
        0 <= i < macro_pieces(kind).len(),
        macro_pieces(kind)[i].block == SpaceBlock::Redstone,
    ensures
        macro_pieces(kind)[i].substrate,
{
}

/// Whether no two pieces of `pieces` lie at the same offset.
pub open spec fn offsets_differ(pieces: Seq<Piece>) -> bool {
    forall|k: int, l: int|
        0 <= k < pieces.len() && 0 <= l < pieces.len() && k != l ==> (#[trigger] pieces[k]).dx != (
        #[trigger] pieces[l]).dx || pieces[k].dy != pieces[l].dy
}

/// No two pieces of the xor macro lie at the same offset.
proof fn lemma_xor_offsets()
    ensures
        offsets_differ(xor_pieces()),
{
    let p = xor_pieces();
    assert(p.len() == 18);
    assert forall|k: int, l: int| 0 <= k < 18 && 0 <= l < 18 && k != l implies (#[trigger] p[k]).dx
        * 8 + p[k].dy != (#[trigger] p[l]).dx * 8 + p[l].dy by {
        assert(p[0].dx * 8 + p[0].dy == 0);
        assert(p[1].dx * 8 + p[1].dy == 3);
        assert(p[2].dx * 8 + p[2].dy == 24);
        assert(p[3].dx * 8 + p[3].dy == 27);
        assert(p[4].dx * 8 + p[4].dy == 32);
        assert(p[5].dx * 8 + p[5].dy == 33);
        assert(p[6].dx * 8 + p[6].dy == 34);
        assert(p[7].dx * 8 + p[7].dy == 35);
        assert(p[8].dx * 8 + p[8].dy == 41);
        assert(p[9].dx * 8 + p[9].dy == 49);
        assert(p[10].dx * 8 + p[10].dy == 16);
        assert(p[11].dx * 8 + p[11].dy == 17);
        assert(p[12].dx * 8 + p[12].dy == 18);
        assert(p[13].dx * 8 + p[13].dy == 19);
        assert(p[14].dx * 8 + p[14].dy == 8);
        assert(p[15].dx * 8 + p[15].dy == 11);
        assert(p[16].dx * 8 + p[16].dy == 25);
        assert(p[17].dx * 8 + p[17].dy == 26);
    }
}

/// No two pieces of the and macro lie at the same offset.
proof fn lemma_and_offsets()
    ensures
        offsets_differ(and_pieces()),
{
    let p = and_pieces();
    assert(p.len() == 11);
    assert forall|k: int, l: int| 0 <= k < 11 && 0 <= l < 11 && k != l implies (#[trigger] p[k]).dx
        * 8 + p[k].dy != (#[trigger] p[l]).dx * 8 + p[l].dy by {
        assert(p[0].dx * 8 + p[0].dy == 0);
        assert(p[1].dx * 8 + p[1].dy == 2);
        assert(p[2].dx * 8 + p[2].dy == 25);
        assert(p[3].dx * 8 + p[3].dy == 33);
        assert(p[4].dx * 8 + p[4].dy == 8);
        assert(p[5].dx * 8 + p[5].dy == 10);
        assert(p[6].dx * 8 + p[6].dy == 24);
        assert(p[7].dx * 8 + p[7].dy == 26);
        assert(p[8].dx * 8 + p[8].dy == 16);
        assert(p[9].dx * 8 + p[9].dy == 17);
        assert(p[10].dx * 8 + p[10].dy == 18);
    }
}

/// No two pieces of the or macro lie at the same offset.
proof fn lemma_or_offsets()
    ensures
        offsets_differ(or_pieces()),
{
    let p = or_pieces();
    assert(p.len() == 6);
    assert forall|k: int, l: int| 0 <= k < 6 && 0 <= l < 6 && k != l implies (#[trigger] p[k]).dx
        * 8 + p[k].dy != (#[trigger] p[l]).dx * 8 + p[l].dy by {
        assert(p[0].dx * 8 + p[0].dy == 0);
        assert(p[1].dx * 8 + p[1].dy == 2);
        assert(p[2].dx * 8 + p[2].dy == 8);
        assert(p[3].dx * 8 + p[3].dy == 9);
        assert(p[4].dx * 8 + p[4].dy == 10);
        assert(p[5].dx * 8 + p[5].dy == 17);
    }
}

/// No two pieces of a splitter macro lie at the same offset.
proof fn lemma_splitter_offsets(ports: nat)
    requires
        1 <= ports,
        2 * ports < usize::MAX,
    ensures
        offsets_differ(splitter_pieces(ports)),
{
    let p = splitter_pieces(ports);
    let outs = Seq::new(ports, |k: int| wire(2, (2 * k) as usize));
    let rail = Seq::new((2 * ports - 1) as nat, |j: int| wire(1, j as usize));
    assert forall|k: int| 0 <= k < p.len() implies (#[trigger] p[k]) == (if k == 0 {
        wire(0, (ports - 1) as usize)
    } else if k <= ports {
        wire(2, (2 * (k - 1)) as usize)
    } else {
        wire(1, (k - 1 - ports) as usize)
    }) by {
        if k == 0 {
        } else if k <= ports {
            assert(p[k] == outs[k - 1]);
        } else {
            assert(p[k] == rail[k - 1 - ports]);
        }
    }
}

/// No two pieces of a macro lie at the same offset.
pub proof fn lemma_macro_pieces_distinct(kind: NodeType)
    requires
        placeable(kind),
        macro_size(kind).1 + 1 < usize::MAX,
    ensures
        offsets_differ(macro_pieces(kind)),
{
    match kind {
        NodeType::Splitter { port_count } => {
            lemma_splitter_offsets(port_count as nat);
        },
        NodeType::Operation { op } => {
            match op {
                BuiltinOp::Xor => lemma_xor_offsets(),
                BuiltinOp::And => lemma_and_offsets(),
                BuiltinOp::Or => lemma_or_offsets(),
                BuiltinOp::Not => {},
            }
        },
        _ => {},
    }
}

/// Once pieces that lie at different offsets are stamped, every piece is
/// found where it belongs, and above every piece with a substrate lies a
/// solid block, whatever the addresses held before.
pub proof fn lemma_stamped_piece(
    pieces: Seq<Piece>,
    anchor: Pos,
    i: int,
    before: SpaceCell,
    over: SpaceCell,
)
    requires
        0 <= i < pieces.len(),
        anchor.2 + 1 < usize::MAX,
        forall|k: int|
            0 <= k < pieces.len() ==> anchor.0 + (#[trigger] pieces[k]).dx < usize::MAX
                && anchor.1 + pieces[k].dy < usize::MAX,
        offsets_differ(pieces),
    ensures
        stamped(pieces, anchor, before, piece_pos(pieces[i], anchor)) == SpaceCell::Used(
            pieces[i].block,
        ),
        pieces[i].substrate ==> stamped(pieces, anchor, over, above(piece_pos(pieces[i], anchor)))
            == SpaceCell::Used(SpaceBlock::SolidBlock),
    decreases pieces.len(),
{
    let last = pieces.last();
    let rest = pieces.drop_last();
    if i < pieces.len() - 1 {
        assert(pieces[pieces.len() - 1] == last);
        assert(rest[i] == pieces[i]);
        assert forall|k: int, l: int|
            0 <= k < rest.len() && 0 <= l < rest.len() && k != l implies (#[trigger] rest[k]).dx
            != (#[trigger] rest[l]).dx || rest[k].dy != rest[l].dy by {
            assert(rest[k] == pieces[k] && rest[l] == pieces[l]);
        }
        assert(offsets_differ(rest));
        assert forall|k: int| 0 <= k < rest.len() implies anchor.0 + (#[trigger] rest[k]).dx
            < usize::MAX && anchor.1 + rest[k].dy < usize::MAX by {
            assert(rest[k] == pieces[k]);
        }
        lemma_stamped_piece(rest, anchor, i, before, over);
    }
}

/// Whether one of `pieces`, stamped at `anchor`, lies at `q` with its block
/// or with its substrate.
pub open spec fn covers_cell(pieces: Seq<Piece>, anchor: Pos, q: Pos) -> bool {
    exists|i: int|
        0 <= i < pieces.len() && (q == piece_pos(#[trigger] pieces[i], anchor) || (
        pieces[i].substrate && q == above(piece_pos(pieces[i], anchor))))
}

/// Stamping changes no address that it does not cover, and leaves a block
/// at every address that it covers.
pub proof fn lemma_stamped_cover(pieces: Seq<Piece>, anchor: Pos, before: SpaceCell, q: Pos)
    ensures
        !covers_cell(pieces, anchor, q) ==> stamped(pieces, anchor, before, q) == before,
        covers_cell(pieces, anchor, q) ==> stamped(pieces, anchor, before, q) is Used,
    decreases pieces.len(),
{
    if pieces.len() > 0 {
        let rest = pieces.drop_last();
        let last = pieces.last();
        lemma_stamped_cover(rest, anchor, before, q);
        if covers_cell(rest, anchor, q) {
            let i = choose|i: int|
                0 <= i < rest.len() && (q == piece_pos(#[trigger] rest[i], anchor) || (
                rest[i].substrate && q == above(piece_pos(rest[i], anchor))));
            assert(pieces[i] == rest[i]);
        }
        if covers_cell(pieces, anchor, q) {
            let i = choose|i: int|
                0 <= i < pieces.len() && (q == piece_pos(#[trigger] pieces[i], anchor) || (
                pieces[i].substrate && q == above(piece_pos(pieces[i], anchor))));
            if i < rest.len() {
                assert(rest[i] == pieces[i]);
            }
        } else {
            assert(pieces[pieces.len() - 1] == last);
        }
    }
}

/// Placing a macro keeps every block that it does not cover, and adds no
/// block where it does not cover.
pub proof fn lemma_placed_elsewhere(kind: NodeType, anchor: Pos, before: SpaceCell, q: Pos)
    requires
        !covers_cell(macro_pieces(kind), anchor, q),
    ensures
        before is Used ==> placed_cell(kind, anchor, before, q) == before,
        placed_cell(kind, anchor, before, q) is Used ==> placed_cell(kind, anchor, before, q)
            == before,
{
    lemma_stamped_cover(macro_pieces(kind), anchor, before, q);
}

/// Placing a macro leaves a block at every address that it covers: a wire
/// only where a wire of the macro lies, and then with a solid block above
/// it.
pub proof fn lemma_placed_covered(
    kind: NodeType,
    anchor: Pos,
    before: SpaceCell,
    over: SpaceCell,
    q: Pos,
)
    requires
        placeable(kind),
        fits(kind, anchor),
        covers_cell(macro_pieces(kind), anchor, q),
    ensures
        placed_cell(kind, anchor, before, q) is Used,
        placed_cell(kind, anchor, before, q) == SpaceCell::Used(SpaceBlock::Redstone)
            ==> placed_cell(kind, anchor, over, above(q)) == SpaceCell::Used(SpaceBlock::SolidBlock),
{
    let pieces = macro_pieces(kind);
    lemma_stamped_cover(pieces, anchor, before, q);
    let i = choose|i: int|
        0 <= i < pieces.len() && (q == piece_pos(#[trigger] pieces[i], anchor) || (
        pieces[i].substrate && q == above(piece_pos(pieces[i], anchor))));
    assert forall|k: int| 0 <= k < pieces.len() implies anchor.0 + (#[trigger] pieces[k]).dx
        < usize::MAX && anchor.1 + pieces[k].dy < usize::MAX by {
        lemma_macro_within_bounds(kind, k);
    }
    lemma_macro_pieces_distinct(kind);
    lemma_stamped_piece(pieces, anchor, i, before, before);
    if q == piece_pos(pieces[i], anchor) {
        if pieces[i].block == SpaceBlock::Redstone {
            lemma_placed_wire_has_substrate(kind, anchor, i, before, over);
        }
    }
}

/// Once a macro is placed, every wire of it lies where it belongs with a
/// solid block above it, whatever the grid held there before.
pub proof fn lemma_placed_wire_has_substrate(
    kind: NodeType,
    anchor: Pos,
    i: int,
    before: SpaceCell,
    over: SpaceCell,
)
    requires
        placeable(kind),
        fits(kind, anchor),
        0 <= i < macro_pieces(kind).len(),
        macro_pieces(kind)[i].block == SpaceBlock::Redstone,
    ensures
        placed_cell(kind, anchor, before, piece_pos(macro_pieces(kind)[i], anchor))
            == SpaceCell::Used(SpaceBlock::Redstone),
        placed_cell(kind, anchor, over, above(piece_pos(macro_pieces(kind)[i], anchor)))
            == SpaceCell::Used(SpaceBlock::SolidBlock),
{
    let pieces = macro_pieces(kind);
    assert forall|k: int| 0 <= k < pieces.len() implies anchor.0 + (#[trigger] pieces[k]).dx
        < usize::MAX && anchor.1 + pieces[k].dy < usize::MAX by {
        lemma_macro_within_bounds(kind, k);
    }
    lemma_macro_pieces_distinct(kind);
    lemma_macro_wires_rest(kind, i);
    lemma_stamped_piece(pieces, anchor, i, before, over);
}

/// Whether the macro for `kind` and its halo fit into the grid at `anchor`.
pub open spec fn fits(kind: NodeType, anchor: Pos) -> bool {
    &&& anchor.0 + macro_size(kind).0 + RESERVE_SPACE < usize::MAX
    &&& anchor.1 + macro_size(kind).1 + 1 < usize::MAX
    &&& anchor.2 + 1 < usize::MAX
}

/// What address `q` holds once the macro for `kind` is placed at `anchor`,
/// where it held `before`: the macro's block if one covers `q`; otherwise
/// what was there, with a reservation painted over it if `q` is in the halo.
pub open spec fn placed_cell(kind: NodeType, anchor: Pos, before: SpaceCell, q: Pos) -> SpaceCell {
    let size = macro_size(kind);
    let cell = stamped(macro_pieces(kind), anchor, before, q);
    if in_halo(anchor, (size.0 as usize, size.1 as usize, size.2 as usize), RESERVE_SPACE, q) {
        cell.reserved()
    } else {
        cell
    }
}

/// Placing a macro on a grid that holds no wire leaves every wire on a
/// solid block.
pub proof fn lemma_placed_on_wireless(
    kind: NodeType,
    anchor: Pos,
    before: spec_fn(Pos) -> SpaceCell,
    after: spec_fn(Pos) -> SpaceCell,
)
    requires
        placeable(kind),
        fits(kind, anchor),
        forall|q: Pos| #[trigger] before(q) != SpaceCell::Used(SpaceBlock::Redstone),
        forall|q: Pos| #[trigger] after(q) == placed_cell(kind, anchor, before(q), q),
    ensures
        substrates_hold(after),
{
    assert forall|q: Pos|
        q.2 < usize::MAX && #[trigger] after(q) == SpaceCell::Used(
            SpaceBlock::Redstone,
        ) implies after(above(q)) == SpaceCell::Used(SpaceBlock::SolidBlock) by {
        assert(before(q) != SpaceCell::Used(SpaceBlock::Redstone));
        if covers_cell(macro_pieces(kind), anchor, q) {
            lemma_placed_covered(kind, anchor, before(q), before(above(q)), q);
        } else {
            lemma_placed_elsewhere(kind, anchor, before(q), q);
        }
    }
}

/// Stamps the macro for `to_place` with its anchor at
/// `(x_offset, y_offset, z_pos)`, paints its halo, and returns the macro's
/// size and the addresses of its ports.
pub fn place_node(
    space: &mut Space,
    to_place: Node,
    x_offset: usize,
    y_offset: usize,
    z_pos: usize,
) -> (placed: ((usize, usize, usize), PlacedNodeData))
    requires
        placeable(to_place.inner),
        fits(to_place.inner, (x_offset, y_offset, z_pos)),
    ensures
        (placed.0.0 as int, placed.0.1 as int, placed.0.2 as int) == macro_size(to_place.inner),
        describes(placed.1, to_place.inner, (x_offset, y_offset, z_pos)),
        forall|q: Pos|
            final(space).at(q) == placed_cell(
                to_place.inner,
                (x_offset, y_offset, z_pos),
                old(space).at(q),
                q,
            ),
{
    let anchor = (x_offset, y_offset, z_pos);
    let pieces = pieces_of(&to_place.inner);
    let size = size_of(&to_place.inner);
    proof {
        assert forall|i: int| 0 <= i < pieces@.len() implies anchor.0 + (#[trigger] pieces@[i]).dx
            < usize::MAX && anchor.1 + pieces@[i].dy < usize::MAX by {
            lemma_macro_within_bounds(to_place.inner, i);
        }
    }
    stamp(space, &pieces, anchor);
    reserve_around(space, anchor, size, RESERVE_SPACE);
    let (x, y, z) = anchor;
    let data = match to_place.inner {
        NodeType::Input { name, .. } => PlacedNodeData::Input { name },
        NodeType::Output { name, .. } => PlacedNodeData::Output { name },
        NodeType::Variable { name } => PlacedNodeData::Variable { name },
        NodeType::Splitter { port_count } => {
            let count = port_count as usize;
            let mut ports: Vec<Pos> = Vec::new();
            let mut k: usize = 0;
            while k < count
                invariant
                    0 <= k <= count,
                    x + 3 < usize::MAX,
                    y + 2 * count < usize::MAX,
                    ports@ == Seq::new(
                        k as nat,
                        |k: int| ((x + 2) as usize, (y + 2 * k) as usize, z),
                    ),
                decreases count - k,
            {
                ports.push((x + 2, y + 2 * k, z));
                proof {
                    assert(ports@ =~= Seq::new(
                        (k + 1) as nat,
                        |k: int| ((x + 2) as usize, (y + 2 * k) as usize, z),
                    ));
                }
                k += 1;
            }
            PlacedNodeData::Splitter { input: (x, y + (count - 1), z), ports }
        },
        NodeType::Operation { op } => match op {
            BuiltinOp::Xor => PlacedNodeData::Entity {
                in_ports: vec![(x, y, z), (x, y + 3, z)],
                out_ports: vec![(x + 6, y + 1, z)],
            },
            BuiltinOp::And => PlacedNodeData::Entity {
                in_ports: vec![(x, y, z), (x, y + 2, z)],
                out_ports: vec![(x + 4, y + 1, z)],
            },
            BuiltinOp::Or => PlacedNodeData::Entity {
                in_ports: vec![(x, y, z), (x, y + 2, z)],
                out_ports: vec![(x + 2, y + 1, z)],
            },
            BuiltinOp::Not => PlacedNodeData::Entity { in_ports: Vec::new(), out_ports: Vec::new() },
        },
    };
    (size, data)
}

} // verus!
