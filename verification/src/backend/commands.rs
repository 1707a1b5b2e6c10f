//! The blocks of a finished layout as world commands: one `setblock` per
//! block, bundled into installers of at most 400 commands.

use vstd::prelude::*;
use vstd::string::StringExecFns;

use crate::backend::space::stored_cells;
use crate::backend::{Layout, Orientation, Pos, SpaceBlock, SpaceCell};

verus! {

/// How many block commands one installer carries at most.
pub const BATCH: usize = 400;

/// What a block is, in the terms of the world.
#[derive(Debug, Clone, Copy, PartialEq, Eq, Structural)]
pub enum BlockData {
    Stone,
    Redstone,
    TorchOnBlock { orient: Orientation },
    Repeater { orient: Orientation },
    Comparator { orient: Orientation, activated: bool },
}

/// A block and the grid address at which it lies.
#[derive(Debug, Clone, Copy)]
pub struct MinecraftBlock {
    pub position: Pos,
    pub data: BlockData,
}

/// The blocks of a layout, in storage order of the grid.
pub struct BlockLayout {
    pub blocks: Vec<MinecraftBlock>,
}

/// What `block` is in the terms of the world.
pub open spec fn block_data(block: SpaceBlock) -> BlockData {
    match block {
        SpaceBlock::Redstone => BlockData::Redstone,
        SpaceBlock::SolidBlock => BlockData::Stone,
        SpaceBlock::Repeater { direction } => BlockData::Repeater { orient: direction },
        SpaceBlock::Comparator { direction, activated } => BlockData::Comparator {
            orient: direction,
            activated,
        },
        SpaceBlock::TorchOnBlock { direction } => BlockData::TorchOnBlock { orient: direction },
    }
}

/// The block that a stored cell stands for, if it holds one.
pub open spec fn block_of(cell: (Pos, SpaceCell)) -> Option<MinecraftBlock> {
    match cell.1 {
        SpaceCell::Used(block) => Some(MinecraftBlock { position: cell.0, data: block_data(block) }),
        _ => None,
    }
}

/// The blocks among `cells`, in order.
pub open spec fn blocks_of(cells: Seq<(Pos, SpaceCell)>) -> Seq<MinecraftBlock> {
    cells.filter_map(|cell: (Pos, SpaceCell)| block_of(cell))
}

impl Layout {
    /// The blocks of the layout, in storage order of the grid. Cells that
    /// are empty or reserved are left out.
    pub fn placement(&self) -> (layout: BlockLayout)
        ensures
            layout.blocks@ == blocks_of(stored_cells(self.space.layers())),
    {
        let cells = self.space.iter();
        let mut blocks: Vec<MinecraftBlock> = Vec::new();
        let ghost pick = |cell: (Pos, SpaceCell)| block_of(cell);
        let mut i: usize = 0;
        while i < cells.len()
            invariant
                0 <= i <= cells.len(),
                pick == (|cell: (Pos, SpaceCell)| block_of(cell)),
                blocks@ == cells@.take(i as int).filter_map(pick),
            decreases cells.len() - i,
        {
            proof {
                assert(cells@.take(i + 1).drop_last() =~= cells@.take(i as int));
                assert(cells@.take(i + 1).last() == cells@[i as int]);
            }
            let (position, cell) = cells[i];
            match cell {
                SpaceCell::Used(block) => {
                    let data = match block {
                        SpaceBlock::Redstone => BlockData::Redstone,
                        SpaceBlock::SolidBlock => BlockData::Stone,
                        SpaceBlock::Repeater { direction } => BlockData::Repeater {
                            orient: direction,
                        },
                        SpaceBlock::Comparator { direction, activated } => BlockData::Comparator {
                            orient: direction,
                            activated,
                        },
                        SpaceBlock::TorchOnBlock { direction } => BlockData::TorchOnBlock {
                            orient: direction,
                        },
                    };
                    blocks.push(MinecraftBlock { position, data });
                    proof {
                        assert(blocks@ =~= cells@.take(i as int).filter_map(pick) + seq![
                            MinecraftBlock { position, data },
                        ]);
                    }
                },
                _ => {},
            }
            i += 1;
        }
        proof {
            assert(cells@.take(i as int) =~= cells@);
        }
        BlockLayout { blocks }
    }
}

/// The digit that stands for `d`, which is less than 10.
pub open spec fn digit(d: nat) -> Seq<char> {
    if d == 0 {
        "0"@
    } else if d == 1 {
        "1"@
    } else if d == 2 {
        "2"@
    } else if d == 3 {
        "3"@
    } else if d == 4 {
        "4"@
    } else if d == 5 {
        "5"@
    } else if d == 6 {
        "6"@
    } else if d == 7 {
        "7"@
    } else if d == 8 {
        "8"@
    } else {
        "9"@
    }
}

/// `n` written in decimal digits.
pub open spec fn digits(n: nat) -> Seq<char>
    decreases n,
{
    if n < 10 {
        digit(n)
    } else {
        digits(n / 10) + digit(n % 10)
    }
}

/// The offset `-n` as the world writes it: `0` for none, else a minus sign
/// and the digits of `n`.
pub open spec fn negated(n: nat) -> Seq<char> {
    if n == 0 {
        "0"@
    } else {
        "-"@ + digits(n)
    }
}

/// The name of a compass face.
pub open spec fn orient_name(orient: Orientation) -> Seq<char> {
    match orient {
        Orientation::North => "north"@,
        Orientation::East => "east"@,
        Orientation::South => "south"@,
        Orientation::West => "west"@,
    }
}

/// Whether the world has a name for the block: every block but a
/// comparator that is not in subtract mode.
pub open spec fn has_name(data: BlockData) -> bool {
    !(data matches BlockData::Comparator { activated, .. } && !activated)
}

/// The name of a block with its state.
pub open spec fn block_name(data: BlockData) -> Seq<char> {
    match data {
        BlockData::Stone => "stone"@,
        BlockData::Redstone => "redstone_wire"@,
        BlockData::TorchOnBlock { orient } => "redstone_wall_torch[facing="@ + orient_name(orient)
            + "]"@,
        BlockData::Repeater { orient } => "repeater[facing="@ + orient_name(orient) + "]"@,
        BlockData::Comparator { orient, .. } => "comparator[facing="@ + orient_name(orient)
            + ",mode=subtract]"@,
    }
}

/// The command that sets `block` in the world: offsets are relative and
/// negated, and the world's second axis is the grid's z.
pub open spec fn command_of(block: MinecraftBlock) -> Seq<char> {
    "setblock ~"@ + negated(block.position.0 as nat) + " ~"@ + negated(block.position.2 as nat)
        + " ~"@ + negated(block.position.1 as nat) + " "@ + block_name(block.data)
}

/// The digit that stands for `d`.
fn digit_str(d: usize) -> (s: &'static str)
    requires
        d < 10,
    ensures
        s@ == digit(d as nat),
{
    if d == 0 {
        "0"
    } else if d == 1 {
        "1"
    } else if d == 2 {
        "2"
    } else if d == 3 {
        "3"
    } else if d == 4 {
        "4"
    } else if d == 5 {
        "5"
    } else if d == 6 {
        "6"
    } else if d == 7 {
        "7"
    } else if d == 8 {
        "8"
    } else {
        "9"
    }
}

/// `n` written in decimal digits.
pub fn decimal(n: usize) -> (s: String)
    ensures
        s@ == digits(n as nat),
    decreases n,
{
    if n < 10 {
        String::from_str(digit_str(n))
    } else {
        let mut s = decimal(n / 10);
        s.append(digit_str(n % 10));
        s
    }
}

/// Appends the offset `-n` to `s`.
fn append_negated(s: &mut String, n: usize)
    ensures
        final(s)@ == old(s)@ + negated(n as nat),
{
    if n == 0 {
        s.append("0");
    } else {
        s.append("-");
        let d = decimal(n);
        s.append(d.as_str());
        proof {
            assert(s@ =~= old(s)@ + ("-"@ + digits(n as nat)));
        }
    }
}

/// The name of a compass face.
fn orient_str(orient: Orientation) -> (s: &'static str)
    ensures
        s@ == orient_name(orient),
{
    match orient {
        Orientation::North => "north",
        Orientation::East => "east",
        Orientation::South => "south",
        Orientation::West => "west",
    }
}

impl Orientation {
    /// The name of the face, in lower case.
    pub fn name(&self) -> (s: String)
        ensures
            s@ == orient_name(*self),
    {
        String::from_str(orient_str(*self))
    }
}

impl MinecraftBlock {
    /// Whether `place_cmd` can write the block.
    pub fn has_command(&self) -> (yes: bool)
        ensures
            yes == has_name(self.data),
    {
        match self.data {
            BlockData::Comparator { activated, .. } => activated,
            _ => true,
        }
    }

    /// The command that sets the block in the world.
    pub fn place_cmd(&self) -> (cmd: String)
        requires
            has_name(self.data),
        ensures
            cmd@ == command_of(*self),
    {
        let (x, y, z) = self.position;
        let mut cmd = String::from_str("setblock ~");
        append_negated(&mut cmd, x);
        cmd.append(" ~");
        append_negated(&mut cmd, z);
        cmd.append(" ~");
        append_negated(&mut cmd, y);
        cmd.append(" ");
        let ghost head = cmd@;
        match self.data {
            BlockData::Stone => {
                cmd.append("stone");
            },
            BlockData::Redstone => {
                cmd.append("redstone_wire");
            },
            BlockData::TorchOnBlock { orient } => {
                cmd.append("redstone_wall_torch[facing=");
                cmd.append(orient_str(orient));
                cmd.append("]");
            },
            BlockData::Repeater { orient } => {
                cmd.append("repeater[facing=");
                cmd.append(orient_str(orient));
                cmd.append("]");
            },
            BlockData::Comparator { orient, .. } => {
                cmd.append("comparator[facing=");
                cmd.append(orient_str(orient));
                cmd.append(",mode=subtract]");
            },
        }
        proof {
            assert(cmd@ =~= head + block_name(self.data));
        }
        cmd
    }
}

/// The commands of the blocks of `blocks` that are stone, if `stone`, or
/// of those that are not, in order.
pub open spec fn commands_where(blocks: Seq<MinecraftBlock>, stone: bool) -> Seq<Seq<char>>
    decreases blocks.len(),
{
    if blocks.len() == 0 {
        Seq::empty()
    } else {
        let rest = commands_where(blocks.drop_last(), stone);
        if (blocks.last().data is Stone) == stone {
            rest.push(command_of(blocks.last()))
        } else {
            rest
        }
    }
}

/// The commands `cmds` as the passengers of an installer: each in a
/// command-block minecart of its own.
pub open spec fn bundle(cmds: Seq<Seq<char>>) -> Seq<char>
    decreases cmds.len(),
{
    if cmds.len() == 0 {
        Seq::empty()
    } else {
        bundle(cmds.drop_last()) + "{id:command_block_minecart,Command:'"@ + cmds.last() + "'},"@
    }
}

/// The installer for `cmds`: a falling stack that runs the commands and
/// then removes itself.
pub open spec fn installer(cmds: Seq<Seq<char>>) -> Seq<char> {
    "summon falling_block ~ ~1 ~ {Time:1,BlockState:{Name:redstone_block},Passengers:[{id:falling_block,Passengers:[{id:falling_block,Time:1,BlockState:{Name:activator_rail},Passengers:[{id:command_block_minecart,Command:'gamerule commandBlockOutput false'},"@
        + bundle(cmds)
        + "{id:command_block_minecart,Command:'setblock ~ ~1 ~ command_block{auto:1,Command:\"fill ~ ~ ~ ~ ~-3 ~ air\"}'},{id:command_block_minecart,Command:'kill @e[type=command_block_minecart,distance=..1]'}]}]}]}"@
}

/// The installers for `cmds`: one for every `BATCH` commands, in order, the
/// last for what is left.
pub open spec fn batches(cmds: Seq<Seq<char>>) -> Seq<Seq<char>>
    decreases cmds.len(),
{
    if cmds.len() == 0 {
        Seq::empty()
    } else if cmds.len() <= BATCH {
        seq![installer(cmds)]
    } else {
        seq![installer(cmds.take(BATCH as int))] + batches(cmds.skip(BATCH as int))
    }
}

/// The installers for `blocks`: those for the stone first, so that it lies
/// before what sits on it is set.
pub open spec fn installers(blocks: Seq<MinecraftBlock>) -> Seq<Seq<char>> {
    batches(commands_where(blocks, true)) + batches(commands_where(blocks, false))
}

/// What the strings of `strings` hold.
pub open spec fn texts(strings: Seq<String>) -> Seq<Seq<char>> {
    Seq::new(strings.len(), |i: int| strings[i]@)
}

/// The installer for the commands from `from` to just before `to`.
fn install(cmds: &Vec<String>, from: usize, to: usize) -> (text: String)
    requires
        from <= to <= cmds@.len(),
    ensures
        text@ == installer(texts(cmds@).subrange(from as int, to as int)),
{
    let mut text = String::from_str(
        "summon falling_block ~ ~1 ~ {Time:1,BlockState:{Name:redstone_block},Passengers:[{id:falling_block,Passengers:[{id:falling_block,Time:1,BlockState:{Name:activator_rail},Passengers:[{id:command_block_minecart,Command:'gamerule commandBlockOutput false'},",
    );
    let ghost head = text@;
    let ghost all = texts(cmds@);
    let mut i: usize = from;
    proof {
        assert(all.subrange(from as int, from as int) =~= Seq::<Seq<char>>::empty());
        assert(text@ =~= head + bundle(all.subrange(from as int, i as int)));
    }
    while i < to
        invariant
            from <= i <= to <= cmds@.len(),
            all == texts(cmds@),
            text@ == head + bundle(all.subrange(from as int, i as int)),
        decreases to - i,
    {
        let ghost before = bundle(all.subrange(from as int, i as int));
        proof {
            let next = all.subrange(from as int, i + 1);
            assert(next.drop_last() =~= all.subrange(from as int, i as int));
            assert(next.last() == cmds@[i as int]@);
        }
        text.append("{id:command_block_minecart,Command:'");
        text.append(cmds[i].as_str());
        text.append("'},");
        proof {
            assert(text@ =~= head + (before + "{id:command_block_minecart,Command:'"@
                + cmds@[i as int]@ + "'},"@));
        }
        i += 1;
    }
    text.append(
        "{id:command_block_minecart,Command:'setblock ~ ~1 ~ command_block{auto:1,Command:\"fill ~ ~ ~ ~ ~-3 ~ air\"}'},{id:command_block_minecart,Command:'kill @e[type=command_block_minecart,distance=..1]'}]}]}]}",
    );
    text
}

/// Appends to `out` the installers for `cmds`.
fn install_all(cmds: &Vec<String>, out: &mut Vec<String>)
    ensures
        texts(final(out)@) == texts(old(out)@) + batches(texts(cmds@)),
{
    let ghost all = texts(cmds@);
    let ghost before = texts(out@);
    let mut from: usize = 0;
    proof {
        assert(all.skip(0) =~= all);
    }
    while from < cmds.len()
        invariant
            0 <= from <= cmds.len(),
            all == texts(cmds@),
            texts(out@) + batches(all.skip(from as int)) == before + batches(all),
        decreases cmds.len() - from,
    {
        let left = cmds.len() - from;
        let to = if left <= BATCH {
            cmds.len()
        } else {
            from + BATCH
        };
        let text = install(cmds, from, to);
        let ghost so_far = texts(out@);
        let ghost rest = all.skip(from as int);
        out.push(text);
        proof {
            assert(texts(out@) =~= so_far.push(text@));
            if left <= BATCH {
                assert(all.subrange(from as int, to as int) =~= rest);
                assert(all.skip(to as int) =~= Seq::<Seq<char>>::empty());
                assert(texts(out@) + batches(all.skip(to as int)) =~= so_far + batches(rest));
            } else {
                assert(all.subrange(from as int, to as int) =~= rest.take(BATCH as int));
                assert(all.skip(to as int) =~= rest.skip(BATCH as int));
                assert(texts(out@) + batches(all.skip(to as int)) =~= so_far + batches(rest));
            }
        }
        from = to;
    }
    proof {
        assert(all.skip(from as int) =~= Seq::<Seq<char>>::empty());
        assert(texts(out@) + Seq::<Seq<char>>::empty() =~= texts(out@));
    }
}

impl BlockLayout {
    /// Whether `place_commands` can write every block.
    pub fn is_supported(&self) -> (yes: bool)
        ensures
            yes == forall|i: int| 0 <= i < self.blocks@.len() ==> has_name(
                (#[trigger] self.blocks@[i]).data,
            ),
    {
        let mut i: usize = 0;
        while i < self.blocks.len()
            invariant
                0 <= i <= self.blocks.len(),
                forall|k: int| 0 <= k < i ==> has_name((#[trigger] self.blocks@[k]).data),
            decreases self.blocks.len() - i,
        {
            if !self.blocks[i].has_command() {
                return false;
            }
            i += 1;
        }
        true
    }

    /// The commands of one sort of block: of the stone, if `stone`, or of
    /// every other block.
    fn commands(&self, stone: bool) -> (cmds: Vec<String>)
        requires
            forall|i: int| 0 <= i < self.blocks@.len() ==> has_name((#[trigger] self.blocks@[i]).data),
        ensures
            texts(cmds@) == commands_where(self.blocks@, stone),
    {
        let mut cmds: Vec<String> = Vec::new();
        let mut i: usize = 0;
        proof {
            assert(texts(cmds@) =~= Seq::<Seq<char>>::empty());
        }
        while i < self.blocks.len()
            invariant
                0 <= i <= self.blocks.len(),
                forall|k: int|
                    0 <= k < self.blocks@.len() ==> has_name((#[trigger] self.blocks@[k]).data),
                texts(cmds@) == commands_where(self.blocks@.take(i as int), stone),
            decreases self.blocks.len() - i,
        {
            proof {
                assert(self.blocks@.take(i + 1).drop_last() =~= self.blocks@.take(i as int));
                assert(self.blocks@.take(i + 1).last() == self.blocks@[i as int]);
            }
            let is_stone = match self.blocks[i].data {
                BlockData::Stone => true,
                _ => false,
            };
            if is_stone == stone {
                let ghost before = texts(cmds@);
                let cmd = self.blocks[i].place_cmd();
                cmds.push(cmd);
                proof {
                    assert(texts(cmds@) =~= before.push(command_of(self.blocks@[i as int])));
                }
            }
            i += 1;
        }
        proof {
            assert(self.blocks@.take(i as int) =~= self.blocks@);
        }
        cmds
    }

    /// The installers that build the layout in the world: those for the
    /// stone first, then those for every other block.
    pub fn place_commands(&self) -> (commands: Vec<String>)
        requires
            forall|i: int| 0 <= i < self.blocks@.len() ==> has_name((#[trigger] self.blocks@[i]).data),
        ensures
            texts(commands@) == installers(self.blocks@),
    {
        let stone = self.commands(true);
        let others = self.commands(false);
        let mut commands: Vec<String> = Vec::new();
        proof {
            assert(texts(commands@) =~= Seq::<Seq<char>>::empty());
        }
        install_all(&stone, &mut commands);
        install_all(&others, &mut commands);
        proof {
            assert(Seq::<Seq<char>>::empty() + batches(texts(stone@)) =~= batches(texts(stone@)));
        }
        commands
    }
}

} // verus!
