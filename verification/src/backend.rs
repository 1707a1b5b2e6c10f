//! From a normalized graph to a block layout: the voxel grid, macro
//! placement, the column sweep and wire routing.

use vstd::prelude::*;

pub mod astar;
pub mod commands;
pub mod connect_nodes;
pub mod layout;
pub mod placement;
pub mod space;
pub mod visualize;

pub use commands::{BlockData, BlockLayout, MinecraftBlock};
pub use layout::{generate_layout, Layout, LayoutError};

verus! {

/// A grid address: x, y and z.
pub type Pos = (usize, usize, usize);

/// The compass face a directional block points toward.
#[derive(Debug, Clone, Copy, PartialEq, Eq, Structural)]
pub enum Orientation {
    North,
    East,
    South,
    West,
}

/// A physical block.
#[derive(Debug, Clone, Copy, PartialEq, Eq, Structural)]
pub enum SpaceBlock {
    SolidBlock,
    Redstone,
    Comparator { direction: Orientation, activated: bool },
    Repeater { direction: Orientation },
    TorchOnBlock { direction: Orientation },
}

/// What one grid address holds. `Reserved` keeps wires away without being a
/// block; `Empty` is what every address holds until it is written.
#[derive(Debug, Clone, Copy, PartialEq, Eq, Structural)]
pub enum SpaceCell {
    Empty,
    Reserved,
    Used(SpaceBlock),
}

impl SpaceCell {
    /// The cell after a reservation is painted over it: an empty cell
    /// becomes reserved, every other cell stays what it is.
    pub open spec fn reserved(self) -> SpaceCell {
        if self is Empty {
            SpaceCell::Reserved
        } else {
            self
        }
    }

    /// Paints a reservation over the cell.
    pub fn reserve(&self) -> (cell: SpaceCell)
        ensures
            cell == self.reserved(),
    {
        match self {
            SpaceCell::Empty => SpaceCell::Reserved,
            SpaceCell::Reserved => SpaceCell::Reserved,
            SpaceCell::Used(block) => SpaceCell::Used(*block),
        }
    }
}

/// The address directly above `pos` in storage order: one layer up in z,
/// where a wire's substrate sits.
pub open spec fn above(pos: Pos) -> Pos {
    (pos.0, pos.1, (pos.2 + 1) as usize)
}

/// Whether every wire of the grid rests on a solid block: the address above
/// it in storage order holds one.
pub open spec fn substrates_hold(grid: spec_fn(Pos) -> SpaceCell) -> bool {
    forall|q: Pos|
        q.2 < usize::MAX && #[trigger] grid(q) == SpaceCell::Used(SpaceBlock::Redstone) ==> grid(
            above(q),
        ) == SpaceCell::Used(SpaceBlock::SolidBlock)
}

/// How far a reservation halo reaches beyond a macro.
pub const RESERVE_SPACE: usize = 3;

/// The free space between two columns of macros, halos not counted.
pub const COLUMN_SPACING: usize = 10;

/// Where the ports of a placed node lie in the grid.
#[derive(Debug)]
pub enum PlacedNodeData {
    Input { name: String },
    Output { name: String },
    Variable { name: String },
    Splitter { input: Pos, ports: Vec<Pos> },
    Entity { in_ports: Vec<Pos>, out_ports: Vec<Pos> },
}

/// A placed node: its anchor, its id in the graph, and its ports.
#[derive(Debug)]
pub struct PlacedNode(pub Pos, pub u32, pub PlacedNodeData);

impl Default for SpaceCell {
    fn default() -> (cell: Self)
        ensures
            cell == SpaceCell::Empty,
    {
        SpaceCell::Empty
    }
}

} // verus!
