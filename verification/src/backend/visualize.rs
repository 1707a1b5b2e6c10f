//! The layout as a drawing: every layer of the grid as a sheet of squares,
//! the sheets one below the other.

use vstd::prelude::*;

use crate::backend::space::{extent_x, extent_y, stored_cells, Space};
use crate::backend::{Layout, Orientation, Pos, SpaceBlock, SpaceCell};

verus! {

/// The side of the square that stands for one cell.
pub const SCALE: usize = 10;

/// The side of the small square that stands for a torch.
pub const TORCH: usize = 2;

/// The colours of a drawing.
#[derive(Debug, Clone, Copy, PartialEq, Eq, Structural)]
pub enum Colour {
    /// Solid blocks.
    Gray,
    /// Wires and lit torches.
    Red,
    /// The plate of a repeater or a comparator.
    LightGrey,
    /// The front torch of a comparator that does not subtract.
    DarkRed,
}

/// A filled rectangle.
#[derive(Debug, Clone, Copy, PartialEq, Eq, Structural)]
pub struct Rect {
    pub fill: Colour,
    pub x: usize,
    pub y: usize,
    pub width: usize,
    pub height: usize,
}

/// A straight line from `(x, y)` by `(dx, dy)`.
#[derive(Debug, Clone, Copy, PartialEq, Eq, Structural)]
pub struct Line {
    pub x: usize,
    pub y: usize,
    pub dx: usize,
    pub dy: usize,
}

/// A drawing: its size, the lines of its grid, and for every block the
/// rectangles that stand for it.
pub struct Drawing {
    pub width: usize,
    pub height: usize,
    pub lines: Vec<Line>,
    pub blocks: Vec<Vec<Rect>>,
}

/// Why a layout could not be drawn.
#[derive(Debug, Clone, Copy, PartialEq, Eq, Structural)]
pub enum RenderError {
    /// The drawing would be larger than can be addressed.
    TooLarge,
    /// A block points where no picture of it is known.
    Unsupported,
}

/// A square of the colour `fill` and the side `side` at `(x, y)`.
pub open spec fn square(fill: Colour, x: int, y: int, side: int) -> Rect {
    Rect { fill, x: x as usize, y: y as usize, width: side as usize, height: side as usize }
}

/// The rectangles that stand for `block` when the square of its cell has
/// its corner at `(x, y)`: a full square for solid blocks and wires; for a
/// repeater that points east its plate and two torches in a row; for a
/// comparator that points east its plate, two torches at the back and one
/// at the front; for a wall torch that points west a small square at the
/// west face.
pub open spec fn block_rects(block: SpaceBlock, x: int, y: int) -> Result<Seq<Rect>, RenderError> {
    match block {
        SpaceBlock::SolidBlock => Ok(seq![square(Colour::Gray, x, y, SCALE as int)]),
        SpaceBlock::Redstone => Ok(seq![square(Colour::Red, x, y, SCALE as int)]),
        SpaceBlock::Repeater { direction } => if direction == Orientation::East {
            Ok(
                seq![
                    square(Colour::LightGrey, x, y, SCALE as int),
                    square(Colour::Red, x + 8, y + 4, TORCH as int),
                    square(Colour::Red, x + 4, y + 4, TORCH as int),
                ],
            )
        } else {
            Err(RenderError::Unsupported)
        },
        SpaceBlock::Comparator { direction, activated } => if direction == Orientation::East {
            Ok(
                seq![
                    square(Colour::LightGrey, x, y, SCALE as int),
                    square(Colour::Red, x + 2, y + 2, TORCH as int),
                    square(Colour::Red, x + 2, y + 6, TORCH as int),
                    square(
                        if activated {
                            Colour::Red
                        } else {
                            Colour::DarkRed
                        },
                        x + 6,
                        y + 4,
                        TORCH as int,
                    ),
                ],
            )
        } else {
            Err(RenderError::Unsupported)
        },
        SpaceBlock::TorchOnBlock { direction } => if direction == Orientation::West {
            Ok(seq![square(Colour::Red, x, y + 4, TORCH as int)])
        } else {
            Err(RenderError::Unsupported)
        },
    }
}

/// The height of one sheet: one square more than the grid is deep.
pub open spec fn sheet_height(depth: int) -> int {
    (depth + 1) * SCALE
}

/// The rectangles of the blocks among `cells`, in order, on sheets of the
/// height `sheet`: the cell at `(x, y, z)` has its square at
/// `(x * SCALE, y * SCALE + z * sheet)`.
pub open spec fn block_marks(cells: Seq<(Pos, SpaceCell)>, sheet: int) -> Result<
    Seq<Seq<Rect>>,
    RenderError,
>
    decreases cells.len(),
{
    if cells.len() == 0 {
        Ok(Seq::empty())
    } else {
        match block_marks(cells.drop_last(), sheet) {
            Err(e) => Err(e),
            Ok(rest) => match cells.last().1 {
                SpaceCell::Used(block) => {
                    let pos = cells.last().0;
                    let x = pos.0 * SCALE;
                    let y = pos.1 * SCALE + pos.2 * sheet;
                    if x + SCALE > usize::MAX || y + SCALE > usize::MAX {
                        Err(RenderError::TooLarge)
                    } else {
                        match block_rects(block, x, y) {
                            Err(e) => Err(e),
                            Ok(rects) => Ok(rest.push(rects)),
                        }
                    }
                },
                _ => Ok(rest),
            },
        }
    }
}

/// The grid lines of one sheet whose top is at `top`: an upright line at
/// every column, and a level line between every two rows.
pub open spec fn sheet_lines(width: int, depth: int, top: int) -> Seq<Line> {
    Seq::new(
        width as nat,
        |x: int|
            Line { x: (x * SCALE) as usize, y: top as usize, dx: 0, dy: (depth * SCALE) as usize },
    ) + Seq::new(
        if depth >= 1 {
            (depth - 1) as nat
        } else {
            0
        },
        |k: int|
            Line {
                x: 0,
                y: ((k + 1) * SCALE + top) as usize,
                dx: (width * SCALE) as usize,
                dy: 0,
            },
    )
}

/// The grid lines of the first `sheets` sheets.
pub open spec fn grid_lines(width: int, depth: int, sheets: nat) -> Seq<Line>
    decreases sheets,
{
    if sheets == 0 {
        Seq::empty()
    } else {
        grid_lines(width, depth, (sheets - 1) as nat) + sheet_lines(
            width,
            depth,
            (sheets - 1) * sheet_height(depth),
        )
    }
}

/// Whether a drawing of a grid with the given extents can be addressed.
pub open spec fn drawable(width: int, depth: int, sheets: int) -> bool {
    (width + 1) * SCALE <= usize::MAX && sheet_height(depth) * sheets <= usize::MAX && sheet_height(
        depth,
    ) <= usize::MAX
}

/// Whether `drawing` is the drawing of the stored `layers`.
pub open spec fn draws(drawing: Drawing, layers: Seq<Seq<Seq<SpaceCell>>>) -> bool {
    let width = extent_x(layers) as int;
    let depth = extent_y(layers) as int;
    let sheets = layers.len() as int;
    &&& drawing.width == (width + 1) * SCALE
    &&& drawing.height == sheet_height(depth) * sheets
    &&& drawing.lines@ == grid_lines(width, depth, sheets as nat)
    &&& block_marks(stored_cells(layers), sheet_height(depth)) == Ok::<
        Seq<Seq<Rect>>,
        RenderError,
    >(marks(drawing.blocks@))
}

/// The rectangles that the lists of `blocks` hold.
pub open spec fn marks(blocks: Seq<Vec<Rect>>) -> Seq<Seq<Rect>> {
    Seq::new(blocks.len(), |i: int| blocks[i]@)
}

/// The rectangles that stand for `block`.
fn rects_of(block: SpaceBlock, x: usize, y: usize) -> (result: Result<Vec<Rect>, RenderError>)
    requires
        x + SCALE <= usize::MAX,
        y + SCALE <= usize::MAX,
    ensures
        match block_rects(block, x as int, y as int) {
            Ok(rects) => result matches Ok(made) && made@ == rects,
            Err(e) => result == Err::<Vec<Rect>, RenderError>(e),
        },
{
    let mut made: Vec<Rect> = Vec::new();
    match block {
        SpaceBlock::SolidBlock => {
            made.push(Rect { fill: Colour::Gray, x, y, width: SCALE, height: SCALE });
        },
        SpaceBlock::Redstone => {
            made.push(Rect { fill: Colour::Red, x, y, width: SCALE, height: SCALE });
        },
        SpaceBlock::Repeater { direction } => {
            match direction {
                Orientation::East => {},
                _ => {
                    return Err(RenderError::Unsupported);
                },
            }
            made.push(Rect { fill: Colour::LightGrey, x, y, width: SCALE, height: SCALE });
            made.push(Rect { fill: Colour::Red, x: x + 8, y: y + 4, width: TORCH, height: TORCH });
            made.push(Rect { fill: Colour::Red, x: x + 4, y: y + 4, width: TORCH, height: TORCH });
        },
        SpaceBlock::Comparator { direction, activated } => {
            match direction {
                Orientation::East => {},
                _ => {
                    return Err(RenderError::Unsupported);
                },
            }
            let front = if activated {
                Colour::Red
            } else {
                Colour::DarkRed
            };
            made.push(Rect { fill: Colour::LightGrey, x, y, width: SCALE, height: SCALE });
            made.push(Rect { fill: Colour::Red, x: x + 2, y: y + 2, width: TORCH, height: TORCH });
            made.push(Rect { fill: Colour::Red, x: x + 2, y: y + 6, width: TORCH, height: TORCH });
            made.push(Rect { fill: front, x: x + 6, y: y + 4, width: TORCH, height: TORCH });
        },
        SpaceBlock::TorchOnBlock { direction } => {
            match direction {
                Orientation::West => {},
                _ => {
                    return Err(RenderError::Unsupported);
                },
            }
            made.push(Rect { fill: Colour::Red, x, y: y + 4, width: TORCH, height: TORCH });
        },
    }
    proof {
        assert(made@ =~= block_rects(block, x as int, y as int)->Ok_0);
    }
    Ok(made)
}

/// The corner of the square of the cell at `pos`, if the square can be
/// addressed.
fn tile_corner(pos: Pos, sheet: usize) -> (corner: Option<(usize, usize)>)
    ensures
        match corner {
            Some((x, y)) => x == pos.0 * SCALE && y == pos.1 * SCALE + pos.2 * sheet && x + SCALE
                <= usize::MAX && y + SCALE <= usize::MAX,
            None => pos.0 * SCALE + SCALE > usize::MAX || pos.1 * SCALE + pos.2 * sheet + SCALE
                > usize::MAX,
        },
{
    let x = match pos.0.checked_mul(SCALE) {
        Some(x) => x,
        None => {
            return None;
        },
    };
    if x > usize::MAX - SCALE {
        return None;
    }
    let across = match pos.1.checked_mul(SCALE) {
        Some(across) => across,
        None => {
            return None;
        },
    };
    let down = match pos.2.checked_mul(sheet) {
        Some(down) => down,
        None => {
            proof {
                assert(pos.2 * sheet >= 0) by (nonlinear_arith);
            }
            return None;
        },
    };
    let y = match across.checked_add(down) {
        Some(y) => y,
        None => {
            return None;
        },
    };
    if y > usize::MAX - SCALE {
        return None;
    }
    Some((x, y))
}

/// A drawing that fails up to some cell fails as a whole, in the same way.
proof fn lemma_block_marks_fail(cells: Seq<(Pos, SpaceCell)>, sheet: int, upto: int)
    requires
        0 <= upto <= cells.len(),
        block_marks(cells.take(upto), sheet) is Err,
    ensures
        block_marks(cells, sheet) == block_marks(cells.take(upto), sheet),
    decreases cells.len() - upto,
{
    if upto < cells.len() {
        assert(cells.take(upto + 1).drop_last() =~= cells.take(upto));
        lemma_block_marks_fail(cells, sheet, upto + 1);
    } else {
        assert(cells.take(upto) =~= cells);
    }
}

/// The rectangles of the blocks of `space`, on sheets of the height
/// `sheet`.
pub fn cells(space: &Space, sheet: usize) -> (result: Result<Vec<Vec<Rect>>, RenderError>)
    ensures
        match block_marks(stored_cells(space.layers()), sheet as int) {
            Ok(all) => result matches Ok(made) && marks(made@) == all,
            Err(e) => result == Err::<Vec<Vec<Rect>>, RenderError>(e),
        },
{
    let stored = space.iter();
    let mut made: Vec<Vec<Rect>> = Vec::new();
    let mut i: usize = 0;
    proof {
        assert(marks(made@) =~= Seq::<Seq<Rect>>::empty());
    }
    while i < stored.len()
        invariant
            0 <= i <= stored.len(),
            stored@ == stored_cells(space.layers()),
            block_marks(stored@.take(i as int), sheet as int) == Ok::<Seq<Seq<Rect>>, RenderError>(
                marks(made@),
            ),
        decreases stored.len() - i,
    {
        proof {
            assert(stored@.take(i + 1).drop_last() =~= stored@.take(i as int));
            assert(stored@.take(i + 1).last() == stored@[i as int]);
        }
        let (pos, cell) = stored[i];
        match cell {
            SpaceCell::Used(block) => {
                let corner = tile_corner(pos, sheet);
                let (x, y) = match corner {
                    Some(corner) => corner,
                    None => {
                        proof {
                            lemma_block_marks_fail(stored@, sheet as int, i + 1);
                        }
                        return Err(RenderError::TooLarge);
                    },
                };
                let ghost before = marks(made@);
                match rects_of(block, x, y) {
                    Ok(rects) => {
                        made.push(rects);
                        proof {
                            assert(marks(made@) =~= before.push(rects@));
                        }
                    },
                    Err(e) => {
                        proof {
                            lemma_block_marks_fail(stored@, sheet as int, i + 1);
                        }
                        return Err(e);
                    },
                }
            },
            _ => {},
        }
        i += 1;
    }
    proof {
        assert(stored@.take(i as int) =~= stored@);
    }
    Ok(made)
}

/// The grid lines of `sheets` sheets.
pub fn grid(width: usize, depth: usize, sheets: usize) -> (lines: Vec<Line>)
    requires
        drawable(width as int, depth as int, sheets as int),
    ensures
        lines@ == grid_lines(width as int, depth as int, sheets as nat),
{
    let sheet = (depth + 1) * SCALE;
    let mut lines: Vec<Line> = Vec::new();
    let mut layer: usize = 0;
    while layer < sheets
        invariant
            0 <= layer <= sheets,
            drawable(width as int, depth as int, sheets as int),
            sheet == sheet_height(depth as int),
            lines@ == grid_lines(width as int, depth as int, layer as nat),
        decreases sheets - layer,
    {
        proof {
            assert(layer * sheet + sheet <= sheet * sheets) by (nonlinear_arith)
                requires
                    layer < sheets,
                    sheet >= 0,
            ;
        }
        let top = layer * sheet;
        let ghost before = lines@;
        let ghost uprights = Seq::new(
            width as nat,
            |x: int|
                Line {
                    x: (x * SCALE) as usize,
                    y: top as usize,
                    dx: 0,
                    dy: (depth * SCALE) as usize,
                },
        );
        let mut x: usize = 0;
        while x < width
            invariant
                0 <= x <= width,
                (width + 1) * SCALE <= usize::MAX,
                depth * SCALE <= usize::MAX,
                uprights == Seq::new(
                    width as nat,
                    |x: int|
                        Line {
                            x: (x * SCALE) as usize,
                            y: top as usize,
                            dx: 0,
                            dy: (depth * SCALE) as usize,
                        },
                ),
                lines@ == before + uprights.take(x as int),
            decreases width - x,
        {
            lines.push(Line { x: x * SCALE, y: top, dx: 0, dy: depth * SCALE });
            proof {
                assert(lines@ =~= before + uprights.take(x + 1));
            }
            x += 1;
        }
        let levels = if depth >= 1 {
            depth - 1
        } else {
            0
        };
        let ghost with_uprights = lines@;
        let ghost level_lines = Seq::new(
            levels as nat,
            |k: int|
                Line {
                    x: 0,
                    y: ((k + 1) * SCALE + top) as usize,
                    dx: (width * SCALE) as usize,
                    dy: 0,
                },
        );
        let mut k: usize = 0;
        while k < levels
            invariant
                0 <= k <= levels,
                levels < depth || levels == 0,
                top + sheet <= usize::MAX,
                sheet == (depth + 1) * SCALE,
                (width + 1) * SCALE <= usize::MAX,
                level_lines == Seq::new(
                    levels as nat,
                    |k: int|
                        Line {
                            x: 0,
                            y: ((k + 1) * SCALE + top) as usize,
                            dx: (width * SCALE) as usize,
                            dy: 0,
                        },
                ),
                lines@ == with_uprights + level_lines.take(k as int),
            decreases levels - k,
        {
            lines.push(Line { x: 0, y: (k + 1) * SCALE + top, dx: width * SCALE, dy: 0 });
            proof {
                assert(lines@ =~= with_uprights + level_lines.take(k + 1));
            }
            k += 1;
        }
        proof {
            assert(uprights.take(width as int) =~= uprights);
            assert(level_lines.take(levels as int) =~= level_lines);
            assert(lines@ =~= before + sheet_lines(width as int, depth as int, top as int));
        }
        layer += 1;
    }
    lines
}

/// Whether `result` is what drawing makes of the stored `layers`.
pub open spec fn drawn(result: Result<Drawing, RenderError>, layers: Seq<Seq<Seq<SpaceCell>>>) -> bool {
    let width = extent_x(layers) as int;
    let depth = extent_y(layers) as int;
    let sheets = layers.len() as int;
    if !drawable(width, depth, sheets) {
        result matches Err(RenderError::TooLarge)
    } else {
        match block_marks(stored_cells(layers), sheet_height(depth)) {
            Err(e) => result matches Err(err) && err == e,
            Ok(_) => result matches Ok(drawing) && draws(drawing, layers),
        }
    }
}

/// The drawing of `space`: one sheet for every layer, the sheets one below
/// the other, each with its grid and the blocks of its layer.
pub fn visualize(space: &Space) -> (result: Result<Drawing, RenderError>)
    ensures
        drawn(result, space.layers()),
{
    let (max_x, max_y, max_z) = space.size();
    if max_x >= usize::MAX / SCALE || max_y >= usize::MAX / SCALE {
        return Err(RenderError::TooLarge);
    }
    let width = (max_x + 1) * SCALE;
    let sheet = (max_y + 1) * SCALE;
    let height = match sheet.checked_mul(max_z) {
        Some(height) => height,
        None => {
            return Err(RenderError::TooLarge);
        },
    };
    let lines = grid(max_x, max_y, max_z);
    let blocks = match cells(space, sheet) {
        Ok(blocks) => blocks,
        Err(e) => {
            return Err(e);
        },
    };
    Ok(Drawing { width, height, lines, blocks })
}

impl Layout {
    /// The drawing of the layout.
    pub fn generate_svg(&self) -> (result: Result<Drawing, RenderError>)
        ensures
            drawn(result, self.space.layers()),
    {
        visualize(&self.space)
    }
}

impl Colour {
    /// The colour as a drawing names it.
    pub fn name(&self) -> (s: &'static str)
        ensures
            s@ == match *self {
                Colour::Gray => "gray"@,
                Colour::Red => "#FF0000"@,
                Colour::LightGrey => "lightgrey"@,
                Colour::DarkRed => "#AA3333"@,
            },
    {
        match self {
            Colour::Gray => "gray",
            Colour::Red => "#FF0000",
            Colour::LightGrey => "lightgrey",
            Colour::DarkRed => "#AA3333",
        }
    }
}

} // verus!
