//! Turning a field into pixels: one colour per cell.

use crate::field::cells_view;
use vstd::prelude::*;

verus! {

/// The red channel of a packed colour: its lowest byte.
pub open spec fn red(pixel: u32) -> u32 {
    pixel & 0xff
}

/// The green channel of a packed colour: its second byte.
pub open spec fn green(pixel: u32) -> u32 {
    (pixel >> 8) & 0xff
}

/// The blue channel of a packed colour: its third byte.
pub open spec fn blue(pixel: u32) -> u32 {
    (pixel >> 16) & 0xff
}

/// The opaque colour of the given channels.
pub open spec fn pack(r: u32, g: u32, b: u32) -> u32 {
    b << 16 | g << 8 | r | 0xff00_0000u32
}

/// The sum of the red channels of the colours of the first `n` tiles of a
/// cell.
pub open spec fn red_sum(cell: Seq<usize>, tiles: Seq<u32>, n: int) -> int
    decreases n,
{
    if n <= 0 {
        0
    } else {
        red_sum(cell, tiles, n - 1) + red(tiles[cell[n - 1] as int])
    }
}

/// The sum of the green channels of the colours of the first `n` tiles of a
/// cell.
pub open spec fn green_sum(cell: Seq<usize>, tiles: Seq<u32>, n: int) -> int
    decreases n,
{
    if n <= 0 {
        0
    } else {
        green_sum(cell, tiles, n - 1) + green(tiles[cell[n - 1] as int])
    }
}

/// The sum of the blue channels of the colours of the first `n` tiles of a
/// cell.
pub open spec fn blue_sum(cell: Seq<usize>, tiles: Seq<u32>, n: int) -> int
    decreases n,
{
    if n <= 0 {
        0
    } else {
        blue_sum(cell, tiles, n - 1) + blue(tiles[cell[n - 1] as int])
    }
}

/// The colour that stands for a cell: 0 for a cell without a tile, the
/// tile's colour for a cell with one tile, and otherwise the opaque colour
/// whose channels are the means, rounded down, of the channels of the
/// colours of all tiles that are still possible.
pub open spec fn cell_color(cell: Seq<usize>, tiles: Seq<u32>) -> u32 {
    let n = cell.len() as int;
    if n == 0 {
        0
    } else if n == 1 {
        tiles[cell[0] as int]
    } else {
        pack(
            (red_sum(cell, tiles, n) / n) as u32,
            (green_sum(cell, tiles, n) / n) as u32,
            (blue_sum(cell, tiles, n) / n) as u32,
        )
    }
}

/// The three channels of a packed colour.
pub fn channels(pixel: u32) -> (c: (u32, u32, u32))
    ensures
        c.0 == red(pixel),
        c.1 == green(pixel),
        c.2 == blue(pixel),
        c.0 <= 255,
        c.1 <= 255,
        c.2 <= 255,
{
    assert(pixel & 0xff <= 255) by (bit_vector);
    assert((pixel >> 8) & 0xff <= 255) by (bit_vector);
    assert((pixel >> 16) & 0xff <= 255) by (bit_vector);
    (pixel & 0xff, (pixel >> 8) & 0xff, (pixel >> 16) & 0xff)
}

/// The colour of a cell with more than one tile: the mean of the colours.
fn mean_color(cell: &Vec<usize>, wfc_tiles: &[u32]) -> (color: u32)
    requires
        cell@.len() > 1,
        forall|k: int| 0 <= k < cell@.len() ==> cell@[k] < wfc_tiles@.len(),
    ensures
        color == cell_color(cell@, wfc_tiles@),
{
    let mut r: u128 = 0;
    let mut g: u128 = 0;
    let mut b: u128 = 0;
    let mut k: usize = 0;
    while k < cell.len()
        invariant
            forall|i: int| 0 <= i < cell@.len() ==> cell@[i] < wfc_tiles@.len(),
            k <= cell@.len(),
            r == red_sum(cell@, wfc_tiles@, k as int),
            g == green_sum(cell@, wfc_tiles@, k as int),
            b == blue_sum(cell@, wfc_tiles@, k as int),
            0 <= r <= 255 * k,
            0 <= g <= 255 * k,
            0 <= b <= 255 * k,
        decreases cell@.len() - k,
    {
        let c = channels(wfc_tiles[cell[k]]);
        r = r + c.0 as u128;
        g = g + c.1 as u128;
        b = b + c.2 as u128;
        k = k + 1;
    }
    let count = cell.len() as u128;
    let avg_r = (r / count) as u32;
    let avg_g = (g / count) as u32;
    let avg_b = (b / count) as u32;
    assert(r / count <= 255 && g / count <= 255 && b / count <= 255) by (nonlinear_arith)
        requires
            0 <= r <= 255 * count,
            0 <= g <= 255 * count,
            0 <= b <= 255 * count,
            count > 0,
    ;
    avg_b << 16 | avg_g << 8 | avg_r | 0xff00_0000u32
}

/// Writes the colour of each cell of the field to the grid: see
/// [`cell_color`]. What lies in the grid beyond the cells stays.
pub fn copy_superpositions_to_grid(
    grid: &mut [u32],
    superpositions: &[Vec<usize>],
    wfc_tiles: &[u32],
)
    requires
        superpositions@.len() <= old(grid)@.len(),
        forall|i: int, k: int|
            0 <= i < superpositions@.len() && 0 <= k < superpositions@[i]@.len()
                ==> #[trigger] superpositions@[i]@[k] < wfc_tiles@.len(),
    ensures
        final(grid)@.len() == old(grid)@.len(),
        forall|i: int|
            0 <= i < superpositions@.len() ==> #[trigger] final(grid)@[i] == cell_color(
                superpositions@[i]@,
                wfc_tiles@,
            ),
        forall|i: int|
            superpositions@.len() <= i < old(grid)@.len() ==> #[trigger] final(grid)@[i] == old(
                grid,
            )@[i],
{
    let mut i: usize = 0;
    while i < superpositions.len()
        invariant
            superpositions@.len() <= grid@.len(),
            grid@.len() == old(grid)@.len(),
            forall|c: int, k: int|
                0 <= c < superpositions@.len() && 0 <= k < superpositions@[c]@.len()
                    ==> #[trigger] superpositions@[c]@[k] < wfc_tiles@.len(),
            i <= superpositions@.len(),
            forall|c: int|
                0 <= c < i ==> #[trigger] grid@[c] == cell_color(superpositions@[c]@, wfc_tiles@),
            forall|c: int| i <= c < grid@.len() ==> #[trigger] grid@[c] == old(grid)@[c],
        decreases superpositions@.len() - i,
    {
        let cell = &superpositions[i];
        if cell.len() == 0 {
            grid[i] = 0;
        } else if cell.len() > 1 {
            assert forall|k: int| 0 <= k < cell@.len() implies cell@[k] < wfc_tiles@.len() by {
                assert(superpositions@[i as int]@[k] < wfc_tiles@.len());
            }
            grid[i] = mean_color(cell, wfc_tiles);
        } else {
            assert(superpositions@[i as int]@[0] < wfc_tiles@.len());
            grid[i] = wfc_tiles[cell[0]];
        }
        i = i + 1;
    }
}

} // verus!
