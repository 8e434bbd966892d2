//! Scene data transforms around the geometry core: voxel-layer text turned
//! into cube placements, the day/night lighting values, and the night-mode
//! toggle button's response.
//!
//! A scene layer is a grid of characters, one per cell; each recognised
//! character places a textured unit cube. Cells are centered so the layout's
//! middle sits at the origin, which puts cube centers on half-unit steps:
//! placements carry doubled coordinates to stay integral.

use vstd::prelude::*;

verus! {

/// The material a placed cube is drawn with.
#[derive(Clone, Copy, PartialEq, Eq, Structural, Debug)]
pub enum BlockKind {
    /// 'g': grass-textured cube.
    Grass,
    /// 't' or 'r': trunk-textured cube.
    Trunk,
    /// 'm': plank-textured cube.
    Wood,
    /// 'l': leaf-textured cube.
    Leaves,
    /// 'f': an emissive lantern cube with its point light.
    Lantern,
    /// 'a': water cube.
    Water,
    /// 'w': transparent window cube.
    Window,
    /// 'd': earth-textured cube.
    Dirt,
    /// 'v': glass-textured cube.
    Glass,
}

/// One cube placement, in doubled world coordinates (so the half-unit
/// centering of even-sized layouts stays integral).
#[derive(Clone, Copy, PartialEq, Eq, Structural, Debug)]
pub struct Block {
    /// Twice the cube center's x.
    pub x2: i64,
    /// Twice the cube center's y.
    pub y2: i64,
    /// Twice the cube center's z.
    pub z2: i64,
    /// The material of the cube.
    pub kind: BlockKind,
}

/// The material a layer character places, if any; '.' and ' ' leave the
/// cell empty, and unknown characters are skipped the same way.
pub open spec fn kind_of(c: char) -> Option<BlockKind> {
    if c == 'g' || c == 'G' {
        Some(BlockKind::Grass)
    } else if c == 't' || c == 'T' || c == 'r' || c == 'R' {
        Some(BlockKind::Trunk)
    } else if c == 'm' || c == 'M' {
        Some(BlockKind::Wood)
    } else if c == 'l' || c == 'L' {
        Some(BlockKind::Leaves)
    } else if c == 'f' || c == 'F' {
        Some(BlockKind::Lantern)
    } else if c == 'a' || c == 'A' {
        Some(BlockKind::Water)
    } else if c == 'w' || c == 'W' {
        Some(BlockKind::Window)
    } else if c == 'd' || c == 'D' {
        Some(BlockKind::Dirt)
    } else if c == 'v' || c == 'V' {
        Some(BlockKind::Glass)
    } else {
        None
    }
}

/// Decides which material a layer character places.
pub fn block_kind(c: char) -> (r: Option<BlockKind>)
    ensures
        r == kind_of(c),
{
    match c {
        'g' | 'G' => Some(BlockKind::Grass),
        't' | 'T' | 'r' | 'R' => Some(BlockKind::Trunk),
        'm' | 'M' => Some(BlockKind::Wood),
        'l' | 'L' => Some(BlockKind::Leaves),
        'f' | 'F' => Some(BlockKind::Lantern),
        'a' | 'A' => Some(BlockKind::Water),
        'w' | 'W' => Some(BlockKind::Window),
        'd' | 'D' => Some(BlockKind::Dirt),
        'v' | 'V' => Some(BlockKind::Glass),
        _ => None,
    }
}

/// The placement for the cell at (`row`, `col`) of a layout whose first row
/// has `cols0` columns and which has `rows_n` rows in all: columns and rows
/// are centered on the origin (x from the first row's width, z flipped so
/// the first row is farthest), and the layer index is the cube's height.
pub open spec fn block_at(cols0: int, rows_n: int, row: int, col: int, layer: int, k: BlockKind) -> Block {
    Block {
        x2: (2 * col - (cols0 - 1)) as i64,
        y2: (2 * layer) as i64,
        z2: ((rows_n - 1) - 2 * row) as i64,
        kind: k,
    }
}

/// The placements of the first `j` cells of one row, in column order.
pub open spec fn row_blocks(
    row: Seq<char>,
    j: int,
    cols0: int,
    rows_n: int,
    row_idx: int,
    layer: int,
) -> Seq<Block>
    decreases j,
{
    if j <= 0 {
        Seq::empty()
    } else {
        row_blocks(row, j - 1, cols0, rows_n, row_idx, layer) + match kind_of(row[j - 1]) {
            Some(k) => seq![block_at(cols0, rows_n, row_idx, j - 1, layer, k)],
            None => Seq::empty(),
        }
    }
}

/// The placements of the first `i` rows of a layer, in row-major order.
pub open spec fn rows_blocks(rows: Seq<Seq<char>>, i: int, layer: int) -> Seq<Block>
    decreases i,
{
    if i <= 0 {
        Seq::empty()
    } else {
        rows_blocks(rows, i - 1, layer) + row_blocks(
            rows[i - 1],
            rows[i - 1].len() as int,
            first_row_len(rows),
            rows.len() as int,
            i - 1,
            layer,
        )
    }
}

/// The width of the layout's first row, which centers every row's columns.
pub open spec fn first_row_len(rows: Seq<Seq<char>>) -> int {
    if rows.len() == 0 {
        0
    } else {
        rows[0].len() as int
    }
}

/// All placements of one layer of the scene layout.
pub open spec fn layer_blocks_spec(rows: Seq<Seq<char>>, layer: int) -> Seq<Block> {
    rows_blocks(rows, rows.len() as int, layer)
}

/// The character grids as sequences.
pub open spec fn rows_view(rows: Seq<Vec<char>>) -> Seq<Seq<char>> {
    rows.map(|i: int, v: Vec<char>| v@)
}

/// Turns one layer of the scene layout into cube placements: cell (row,
/// col) with a recognised character becomes a cube of that material at
/// doubled coordinates `(2 col - (cols - 1), 2 layer, (rows - 1) - 2 row)`,
/// where `cols` is the width of the first row. Empty and unknown cells
/// place nothing. The size bounds are machine limits.
pub fn layer_blocks(rows: &Vec<Vec<char>>, layer: usize) -> (r: Vec<Block>)
    requires
        rows@.len() <= 1_000_000,
        forall|i: int| 0 <= i < rows@.len() ==> (#[trigger] rows@[i])@.len() <= 1_000_000,
        layer <= 1_000_000,
    ensures
        r@ == layer_blocks_spec(rows_view(rows@), layer as int),
{
    let rows_n = rows.len();
    let cols0: usize = if rows_n == 0 {
        0
    } else {
        rows[0].len()
    };
    proof {
        assert(first_row_len(rows_view(rows@)) == cols0 as int);
    }
    let mut r: Vec<Block> = Vec::new();
    let mut i: usize = 0;
    while i < rows_n
        invariant
            rows_n == rows@.len() <= 1_000_000,
            forall|m: int| 0 <= m < rows@.len() ==> (#[trigger] rows@[m])@.len() <= 1_000_000,
            layer <= 1_000_000,
            cols0 as int == first_row_len(rows_view(rows@)),
            i <= rows_n,
            r@ == rows_blocks(rows_view(rows@), i as int, layer as int),
        decreases rows_n - i,
    {
        let row = &rows[i];
        let cols = row.len();
        let mut j: usize = 0;
        while j < cols
            invariant
                rows_n == rows@.len() <= 1_000_000,
                forall|m: int| 0 <= m < rows@.len() ==> (#[trigger] rows@[m])@.len() <= 1_000_000,
                layer <= 1_000_000,
                cols0 as int == first_row_len(rows_view(rows@)),
                i < rows_n,
                row == &rows[i as int],
                cols == row@.len(),
                j <= cols,
                r@ == rows_blocks(rows_view(rows@), i as int, layer as int) + row_blocks(
                    row@,
                    j as int,
                    cols0 as int,
                    rows_n as int,
                    i as int,
                    layer as int,
                ),
            decreases cols - j,
        {
            let c = row[j];
            let k = block_kind(c);
            match k {
                Some(kind) => {
                    let b = Block {
                        x2: 2 * (j as i64) - (cols0 as i64 - 1),
                        y2: 2 * (layer as i64),
                        z2: (rows_n as i64 - 1) - 2 * (i as i64),
                        kind,
                    };
                    r.push(b);
                    proof {
                        assert(b == block_at(
                            cols0 as int,
                            rows_n as int,
                            i as int,
                            j as int,
                            layer as int,
                            kind,
                        ));
                        assert(r@ =~= rows_blocks(rows_view(rows@), i as int, layer as int)
                            + row_blocks(
                            row@,
                            j as int + 1,
                            cols0 as int,
                            rows_n as int,
                            i as int,
                            layer as int,
                        ));
                    }
                },
                None => {
                    proof {
                        assert(r@ =~= rows_blocks(rows_view(rows@), i as int, layer as int)
                            + row_blocks(
                            row@,
                            j as int + 1,
                            cols0 as int,
                            rows_n as int,
                            i as int,
                            layer as int,
                        ));
                    }
                },
            }
            j = j + 1;
        }
        proof {
            assert(rows_view(rows@)[i as int] == row@);
            assert(r@ =~= rows_blocks(rows_view(rows@), i as int + 1, layer as int));
        }
        i = i + 1;
    }
    r
}


/// A color with channels in thousandths (0 to 1000).
#[derive(Clone, Copy, PartialEq, Eq, Structural, Debug)]
pub struct ColorMilli {
    pub r: u32,
    pub g: u32,
    pub b: u32,
}

/// The pointer's relation to the toggle button this frame.
#[derive(Clone, Copy, PartialEq, Eq, Structural, Debug)]
pub enum PointerInteraction {
    /// The button was just pressed.
    Pressed,
    /// The pointer hovers over the button.
    Hovered,
    /// The pointer is elsewhere.
    Idle,
}

/// The sky color for the mode: a dark night sky or a light blue day sky.
pub fn clear_color(night: bool) -> (c: ColorMilli)
    ensures
        night ==> c == (ColorMilli { r: 20u32, g: 30u32, b: 60u32 }),
        !night ==> c == (ColorMilli { r: 500u32, g: 700u32, b: 1000u32 }),
{
    if night {
        ColorMilli { r: 20, g: 30, b: 60 }
    } else {
        ColorMilli { r: 500, g: 700, b: 1000 }
    }
}

/// The sun's illuminance for the mode, in lux: dimmed far down at night.
pub fn directional_illuminance(night: bool) -> (r: u64)
    ensures
        night ==> r == 800,
        !night ==> r == 10_000,
{
    if night {
        800
    } else {
        10_000
    }
}

/// A lantern's point-light intensity: its base intensity by day, boosted by
/// three fifths at night.
pub fn lantern_intensity(base: u64, night: bool) -> (r: u64)
    requires
        base <= 0x0FFF_FFFF_FFFF_FFFF,
    ensures
        night ==> r == (base * 16) / 10,
        !night ==> r == base,
{
    if night {
        (base * 16) / 10
    } else {
        base
    }
}

/// A lantern's light range in micro-units: by night at least eight units.
pub fn lantern_range(range: u64, night: bool) -> (r: u64)
    ensures
        night ==> r == (if range >= 8_000_000 {
            range as int
        } else {
            8_000_000int
        }),
        !night ==> r == range,
{
    if night {
        if range >= 8_000_000 {
            range
        } else {
            8_000_000
        }
    } else {
        range
    }
}

/// The toggle button's response to the pointer: a press flips night mode
/// and flashes the button; hovering and resting only restyle it.
pub fn button_response(night: bool, i: PointerInteraction) -> (r: (bool, ColorMilli))
    ensures
        i == PointerInteraction::Pressed ==> r.0 == !night && r.1 == (ColorMilli {
            r: 200u32,
            g: 200u32,
            b: 250u32,
        }),
        i == PointerInteraction::Hovered ==> r.0 == night && r.1 == (ColorMilli {
            r: 200u32,
            g: 200u32,
            b: 300u32,
        }),
        i == PointerInteraction::Idle ==> r.0 == night && r.1 == (ColorMilli {
            r: 150u32,
            g: 150u32,
            b: 200u32,
        }),
{
    match i {
        PointerInteraction::Pressed => (!night, ColorMilli { r: 200, g: 200, b: 250 }),
        PointerInteraction::Hovered => (night, ColorMilli { r: 200, g: 200, b: 300 }),
        PointerInteraction::Idle => (night, ColorMilli { r: 150, g: 150, b: 200 }),
    }
}

} // verus!
