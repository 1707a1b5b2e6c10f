//! The voxel grid: a sparse three-dimensional store of cells in which every
//! address that was never written reads as empty.

use vstd::prelude::*;

use super::{Pos, SpaceCell};

verus! {

/// The grid. Storage is a list of z-layers, each a list of y-rows, each a
/// list of cells along x, and grows to whatever address is written.
pub struct Space {
    content: Vec<Vec<Vec<SpaceCell>>>,
}

impl crate::backend::astar::Container for Space {
    type Index = Pos;
}

/// What the stored `layers` hold at `pos`: the stored cell, or `Empty` where
/// storage does not reach.
pub open spec fn cell_of(layers: Seq<Seq<Seq<SpaceCell>>>, pos: Pos) -> SpaceCell {
    if pos.2 < layers.len() && pos.1 < layers[pos.2 as int].len() && pos.0
        < layers[pos.2 as int][pos.1 as int].len() {
        layers[pos.2 as int][pos.1 as int][pos.0 as int]
    } else {
        SpaceCell::Empty
    }
}

/// `row` made long enough to hold index `x`, new cells being `Empty`.
pub open spec fn grown_row(row: Seq<SpaceCell>, x: int) -> Seq<SpaceCell> {
    if x < row.len() {
        row
    } else {
        Seq::new((x + 1) as nat, |i: int| if i < row.len() { row[i] } else { SpaceCell::Empty })
    }
}

/// `layer` made long enough to hold row `y`, new rows being empty.
pub open spec fn grown_layer(layer: Seq<Seq<SpaceCell>>, y: int) -> Seq<Seq<SpaceCell>> {
    if y < layer.len() {
        layer
    } else {
        Seq::new((y + 1) as nat, |i: int| if i < layer.len() { layer[i] } else { Seq::empty() })
    }
}

/// `layers` made long enough to hold layer `z`, new layers being empty.
pub open spec fn grown_layers(layers: Seq<Seq<Seq<SpaceCell>>>, z: int) -> Seq<
    Seq<Seq<SpaceCell>>,
> {
    if z < layers.len() {
        layers
    } else {
        Seq::new((z + 1) as nat, |i: int| if i < layers.len() { layers[i] } else { Seq::empty() })
    }
}

/// The storage after `cell` is written at `pos`: grown along each axis just
/// as far as `pos` needs, and changed at `pos` only.
pub open spec fn written(layers: Seq<Seq<Seq<SpaceCell>>>, pos: Pos, cell: SpaceCell) -> Seq<
    Seq<Seq<SpaceCell>>,
> {
    let (x, y, z) = (pos.0 as int, pos.1 as int, pos.2 as int);
    let tall = grown_layers(layers, z);
    let deep = grown_layer(tall[z], y);
    let wide = grown_row(deep[y], x);
    tall.update(z, deep.update(y, wide.update(x, cell)))
}

/// The cells of one stored row with their addresses, along x.
pub open spec fn row_cells(row: Seq<SpaceCell>, y: int, z: int) -> Seq<(Pos, SpaceCell)> {
    Seq::new(row.len(), |x: int| ((x as usize, y as usize, z as usize), row[x]))
}

/// The cells of one stored layer with their addresses, row after row.
pub open spec fn layer_cells(layer: Seq<Seq<SpaceCell>>, z: int) -> Seq<(Pos, SpaceCell)>
    decreases layer.len(),
{
    if layer.len() == 0 {
        Seq::empty()
    } else {
        layer_cells(layer.drop_last(), z) + row_cells(layer.last(), layer.len() - 1, z)
    }
}

/// Every stored cell with its address, layer after layer.
pub open spec fn stored_cells(layers: Seq<Seq<Seq<SpaceCell>>>) -> Seq<(Pos, SpaceCell)>
    decreases layers.len(),
{
    if layers.len() == 0 {
        Seq::empty()
    } else {
        stored_cells(layers.drop_last()) + layer_cells(layers.last(), layers.len() - 1)
    }
}

/// The length of the longest row of `layer`.
pub open spec fn widest_row(layer: Seq<Seq<SpaceCell>>) -> nat
    decreases layer.len(),
{
    if layer.len() == 0 {
        0
    } else {
        let rest = widest_row(layer.drop_last());
        if layer.last().len() > rest {
            layer.last().len()
        } else {
            rest
        }
    }
}

/// The length of the longest row of any layer.
pub open spec fn extent_x(layers: Seq<Seq<Seq<SpaceCell>>>) -> nat
    decreases layers.len(),
{
    if layers.len() == 0 {
        0
    } else {
        let rest = extent_x(layers.drop_last());
        if widest_row(layers.last()) > rest {
            widest_row(layers.last())
        } else {
            rest
        }
    }
}

/// The number of rows of the layer that has most.
pub open spec fn extent_y(layers: Seq<Seq<Seq<SpaceCell>>>) -> nat
    decreases layers.len(),
{
    if layers.len() == 0 {
        0
    } else {
        let rest = extent_y(layers.drop_last());
        if layers.last().len() > rest {
            layers.last().len()
        } else {
            rest
        }
    }
}

/// Writing changes what is read at the written address and nowhere else.
pub proof fn lemma_written(layers: Seq<Seq<Seq<SpaceCell>>>, pos: Pos, cell: SpaceCell, q: Pos)
    ensures
        cell_of(written(layers, pos, cell), q) == if q == pos {
            cell
        } else {
            cell_of(layers, q)
        },
{
}

impl Space {
    /// The stored layers: z outermost, then y, then x.
    pub closed spec fn layers(&self) -> Seq<Seq<Seq<SpaceCell>>> {
        Seq::new(
            self.content@.len(),
            |z: int|
                Seq::new(self.content@[z]@.len(), |y: int| self.content@[z]@[y]@),
        )
    }

    /// What the grid holds at `pos`.
    pub open spec fn at(&self, pos: Pos) -> SpaceCell {
        cell_of(self.layers(), pos)
    }

    /// The grid as a function from addresses to cells.
    pub open spec fn grid(&self) -> spec_fn(Pos) -> SpaceCell {
        |pos: Pos| self.at(pos)
    }

    /// An empty grid: every address reads as `Empty`.
    pub fn new() -> (space: Self)
        ensures
            space.layers() == Seq::<Seq<Seq<SpaceCell>>>::empty(),
            forall|pos: Pos| space.at(pos) == SpaceCell::Empty,
    {
        let space = Self { content: Vec::new() };
        assert(space.layers() =~= Seq::<Seq<Seq<SpaceCell>>>::empty());
        space
    }

    /// The cell at `pos`; `Empty` where nothing was written.
    pub fn get(&self, pos: Pos) -> (cell: SpaceCell)
        ensures
            cell == self.at(pos),
    {
        let (x, y, z) = pos;
        if z < self.content.len() {
            if y < self.content[z].len() {
                if x < self.content[z][y].len() {
                    return self.content[z][y][x];
                }
            }
        }
        SpaceCell::Empty
    }

    /// Stores `cell` at `pos`, growing the storage as far as `pos` needs.
    pub fn write(&mut self, pos: Pos, cell: SpaceCell)
        requires
            pos.0 < usize::MAX,
            pos.1 < usize::MAX,
            pos.2 < usize::MAX,
        ensures
            final(self).layers() == written(old(self).layers(), pos, cell),
            final(self).at(pos) == cell,
            forall|q: Pos| q != pos ==> final(self).at(q) == old(self).at(q),
    {
        let (x, y, z) = pos;
        let ghost before = self.layers();
        while self.content.len() <= z
            invariant
                z < usize::MAX,
                self.layers() == Seq::new(
                    self.content@.len(),
                    |i: int| if i < before.len() { before[i] } else { Seq::empty() },
                ),
                self.content@.len() >= before.len(),
                before.len() > z ==> self.content@.len() == before.len(),
                before.len() <= z ==> self.content@.len() <= z + 1,
            decreases z + 1 - self.content.len(),
        {
            let ghost prev = self.layers();
            self.content.push(Vec::new());
            proof {
                assert forall|i: int| 0 <= i < prev.len() implies self.layers()[i] == prev[i] by {
                    assert(self.layers()[i] =~= prev[i]);
                }
                assert(self.layers()[prev.len() as int] =~= Seq::empty());
                assert(self.layers().len() == prev.len() + 1);
                assert(prev.len() >= before.len());
                assert forall|i: int| 0 <= i < self.layers().len() implies self.layers()[i] == (if i
                    < before.len() {
                    before[i]
                } else {
                    Seq::empty()
                }) by {
                    if i < prev.len() {
                        assert(self.layers()[i] == prev[i]);
                    }
                }
                assert(self.layers() =~= Seq::new(
                    self.content@.len(),
                    |i: int| if i < before.len() { before[i] } else { Seq::empty() },
                ));
            }
        }
        assert(self.layers() =~= grown_layers(before, z as int));
        let ghost tall = self.layers();
        while self.content[z].len() <= y
            invariant
                y < usize::MAX,
                z < self.content@.len(),
                self.content@.len() == tall.len(),
                forall|i: int| 0 <= i < tall.len() && i != z ==> self.layers()[i] == tall[i],
                self.layers()[z as int] == Seq::new(
                    self.content@[z as int]@.len(),
                    |i: int| if i < tall[z as int].len() { tall[z as int][i] } else { Seq::empty() },
                ),
                self.content@[z as int]@.len() >= tall[z as int].len(),
                tall[z as int].len() > y ==> self.content@[z as int]@.len() == tall[z as int].len(),
                tall[z as int].len() <= y ==> self.content@[z as int]@.len() <= y + 1,
            decreases y + 1 - self.content[z as int].len(),
        {
            let ghost prev = self.layers();
            self.content[z].push(Vec::new());
            proof {
                assert forall|i: int| 0 <= i < tall.len() && i != z implies self.layers()[i]
                    == tall[i] by {
                    assert(self.layers()[i] =~= prev[i]);
                }
                let row = prev[z as int];
                assert forall|i: int| 0 <= i < row.len() implies self.layers()[z as int][i]
                    == row[i] by {
                    assert(self.layers()[z as int][i] =~= row[i]);
                }
                assert(self.layers()[z as int][row.len() as int] =~= Seq::empty());
                assert(self.layers()[z as int].len() == row.len() + 1);
                assert(row.len() >= tall[z as int].len());
                assert forall|i: int|
                    0 <= i < self.layers()[z as int].len() implies self.layers()[z as int][i] == (if i
                    < tall[z as int].len() {
                    tall[z as int][i]
                } else {
                    Seq::empty()
                }) by {
                    if i < row.len() {
                        assert(self.layers()[z as int][i] == row[i]);
                    }
                }
                assert(self.layers()[z as int] =~= Seq::new(
                    self.content@[z as int]@.len(),
                    |i: int| if i < tall[z as int].len() { tall[z as int][i] } else { Seq::empty() },
                ));
            }
        }
        assert(self.layers()[z as int] =~= grown_layer(tall[z as int], y as int));
        let ghost deep = self.layers()[z as int];
        while self.content[z][y].len() <= x
            invariant
                x < usize::MAX,
                z < self.content@.len(),
                y < self.content@[z as int]@.len(),
                self.content@.len() == tall.len(),
                self.content@[z as int]@.len() == deep.len(),
                forall|i: int| 0 <= i < tall.len() && i != z ==> self.layers()[i] == tall[i],
                forall|i: int|
                    0 <= i < deep.len() && i != y ==> self.layers()[z as int][i] == deep[i],
                self.layers()[z as int][y as int] == Seq::new(
                    self.content@[z as int]@[y as int]@.len(),
                    |i: int|
                        if i < deep[y as int].len() {
                            deep[y as int][i]
                        } else {
                            SpaceCell::Empty
                        },
                ),
                self.content@[z as int]@[y as int]@.len() >= deep[y as int].len(),
                deep[y as int].len() > x ==> self.content@[z as int]@[y as int]@.len()
                    == deep[y as int].len(),
                deep[y as int].len() <= x ==> self.content@[z as int]@[y as int]@.len() <= x + 1,
            decreases x + 1 - self.content[z as int][y as int].len(),
        {
            let ghost prev = self.layers();
            self.content[z][y].push(SpaceCell::Empty);
            proof {
                assert forall|i: int| 0 <= i < tall.len() && i != z implies self.layers()[i]
                    == tall[i] by {
                    assert(self.layers()[i] =~= prev[i]);
                }
                assert forall|i: int| 0 <= i < deep.len() && i != y implies self.layers()[z as int][i]
                    == deep[i] by {
                    assert(self.layers()[z as int][i] =~= prev[z as int][i]);
                }
                assert(self.layers()[z as int][y as int] =~= prev[z as int][y as int].push(
                    SpaceCell::Empty,
                ));
                assert(self.layers()[z as int][y as int] =~= Seq::new(
                    self.content@[z as int]@[y as int]@.len(),
                    |i: int|
                        if i < deep[y as int].len() {
                            deep[y as int][i]
                        } else {
                            SpaceCell::Empty
                        },
                ));
            }
        }
        assert(self.layers()[z as int][y as int] =~= grown_row(deep[y as int], x as int));
        let ghost wide = self.layers()[z as int][y as int];
        let ghost prev = self.layers();
        self.content[z][y][x] = cell;
        proof {
            assert forall|i: int| 0 <= i < tall.len() && i != z implies self.layers()[i]
                == tall[i] by {
                assert(self.layers()[i] =~= prev[i]);
            }
            assert forall|i: int| 0 <= i < deep.len() && i != y implies self.layers()[z as int][i]
                == deep[i] by {
                assert(self.layers()[z as int][i] =~= prev[z as int][i]);
            }
            assert(self.layers()[z as int][y as int] =~= wide.update(x as int, cell));
            assert(self.layers()[z as int] =~= deep.update(y as int, wide.update(x as int, cell)));
            assert(self.layers() =~= tall.update(
                z as int,
                deep.update(y as int, wide.update(x as int, cell)),
            ));
            assert forall|q: Pos| q != pos implies self.at(q) == old(self).at(q) by {
                lemma_written(before, pos, cell, q);
            }
            lemma_written(before, pos, cell, pos);
        }
    }

    /// Replaces the cell at `pos` by what `value` makes of it, growing the
    /// storage as far as `pos` needs. No other address changes.
    pub fn set<F>(&mut self, pos: Pos, value: F) where F: Fn(&SpaceCell) -> SpaceCell
        requires
            pos.0 < usize::MAX,
            pos.1 < usize::MAX,
            pos.2 < usize::MAX,
            call_requires(value, (&old(self).at(pos),)),
        ensures
            call_ensures(value, (&old(self).at(pos),), final(self).at(pos)),
            final(self).layers() == written(old(self).layers(), pos, final(self).at(pos)),
            forall|q: Pos| q != pos ==> final(self).at(q) == old(self).at(q),
    {
        let current = self.get(pos);
        let next = value(&current);
        self.write(pos, next);
    }

    /// Every stored cell with its address: layer after layer, row after row,
    /// along x. Addresses beyond the storage are not listed.
    pub fn iter(&self) -> (cells: Vec<(Pos, SpaceCell)>)
        ensures
            cells@ == stored_cells(self.layers()),
    {
        let mut cells: Vec<(Pos, SpaceCell)> = Vec::new();
        let ghost layers = self.layers();
        let mut z: usize = 0;
        while z < self.content.len()
            invariant
                0 <= z <= self.content@.len(),
                layers == self.layers(),
                layers.len() == self.content@.len(),
                cells@ == stored_cells(layers.take(z as int)),
            decreases self.content.len() - z,
        {
            let ghost done = cells@;
            let ghost layer = layers[z as int];
            let mut y: usize = 0;
            while y < self.content[z].len()
                invariant
                    0 <= z < self.content@.len(),
                    0 <= y <= self.content@[z as int]@.len(),
                    layers == self.layers(),
                    layer == layers[z as int],
                    layer.len() == self.content@[z as int]@.len(),
                    cells@ == done + layer_cells(layer.take(y as int), z as int),
                decreases self.content[z as int].len() - y,
            {
                let ghost before_row = cells@;
                let ghost row = layer[y as int];
                let mut x: usize = 0;
                while x < self.content[z][y].len()
                    invariant
                        0 <= z < self.content@.len(),
                        0 <= y < self.content@[z as int]@.len(),
                        0 <= x <= self.content@[z as int]@[y as int]@.len(),
                        layers == self.layers(),
                        layer == layers[z as int],
                        row == layer[y as int],
                        row.len() == self.content@[z as int]@[y as int]@.len(),
                        cells@ == before_row + row_cells(row, y as int, z as int).take(x as int),
                    decreases self.content[z as int][y as int].len() - x,
                {
                    cells.push(((x, y, z), self.content[z][y][x]));
                    proof {
                        assert(cells@ =~= before_row + row_cells(row, y as int, z as int).take(
                            x + 1,
                        ));
                    }
                    x += 1;
                }
                proof {
                    let full = row_cells(row, y as int, z as int);
                    assert(full.take(x as int) =~= full);
                    assert(layer.take(y + 1).drop_last() =~= layer.take(y as int));
                    assert(layer.take(y + 1).last() == row);
                    assert(cells@ =~= done + layer_cells(layer.take(y + 1), z as int));
                }
                y += 1;
            }
            proof {
                assert(layer.take(y as int) =~= layer);
                assert(layers.take(z + 1).drop_last() =~= layers.take(z as int));
                assert(layers.take(z + 1).last() == layer);
            }
            z += 1;
        }
        proof {
            assert(layers.take(z as int) =~= layers);
        }
        cells
    }

    /// The extent of the storage along x, y and z: the longest row, the
    /// layer with most rows, and the number of layers.
    pub fn size(&self) -> (extents: (usize, usize, usize))
        ensures
            extents.0 == extent_x(self.layers()),
            extents.1 == extent_y(self.layers()),
            extents.2 == self.layers().len(),
    {
        let ghost layers = self.layers();
        let mut width: usize = 0;
        let mut depth: usize = 0;
        let mut z: usize = 0;
        while z < self.content.len()
            invariant
                0 <= z <= self.content@.len(),
                layers == self.layers(),
                layers.len() == self.content@.len(),
                width == extent_x(layers.take(z as int)),
                depth == extent_y(layers.take(z as int)),
            decreases self.content.len() - z,
        {
            let ghost layer = layers[z as int];
            let mut widest: usize = 0;
            let mut y: usize = 0;
            while y < self.content[z].len()
                invariant
                    0 <= z < self.content@.len(),
                    0 <= y <= self.content@[z as int]@.len(),
                    layers == self.layers(),
                    layer == layers[z as int],
                    layer.len() == self.content@[z as int]@.len(),
                    widest == widest_row(layer.take(y as int)),
                decreases self.content[z as int].len() - y,
            {
                proof {
                    assert(layer.take(y + 1).drop_last() =~= layer.take(y as int));
                    assert(layer.take(y + 1).last() == layer[y as int]);
                }
                if self.content[z][y].len() > widest {
                    widest = self.content[z][y].len();
                }
                y += 1;
            }
            proof {
                assert(layer.take(y as int) =~= layer);
                assert(layers.take(z + 1).drop_last() =~= layers.take(z as int));
                assert(layers.take(z + 1).last() == layer);
            }
            if widest > width {
                width = widest;
            }
            if self.content[z].len() > depth {
                depth = self.content[z].len();
            }
            z += 1;
        }
        proof {
            assert(layers.take(z as int) =~= layers);
        }
        (width, depth, self.content.len())
    }
}

} // verus!
