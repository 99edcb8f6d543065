//! Tiles: square samples of an image, and the four directions in which two
//! tiles can be neighbours.

use crate::image_data::lemma_index_in_grid;
use crate::image_data::wrap_spec;
use crate::image_data::wrap_value;
use crate::image_data::ImageData;
use crate::image_data::PixelGrid;
use vstd::arithmetic::div_mod::lemma_fundamental_div_mod_converse;
use vstd::prelude::*;

verus! {

/// One sample: `n * n` packed colours in row-major order.
pub type Tile = Vec<u32>;

/// The number of directions: up, right, down, left, in this order.
pub const DIRECTIONS: usize = 4;

/// The horizontal unit step of direction `d`.
pub open spec fn offset_x(d: int) -> int {
    if d == 1 {
        1
    } else if d == 3 {
        -1
    } else {
        0
    }
}

/// The vertical unit step of direction `d`; rows grow downwards.
pub open spec fn offset_y(d: int) -> int {
    if d == 0 {
        -1
    } else if d == 2 {
        1
    } else {
        0
    }
}

/// The direction that undoes `d`.
pub open spec fn opposite(d: int) -> int {
    (d + 2) % 4
}

/// The unit step of direction `d` as a pair `(dx, dy)`.
pub fn direction_offset(d: usize) -> (o: (isize, isize))
    requires
        d < DIRECTIONS,
    ensures
        o.0 == offset_x(d as int),
        o.1 == offset_y(d as int),
{
    if d == 0 {
        (0, -1)
    } else if d == 1 {
        (1, 0)
    } else if d == 2 {
        (0, 1)
    } else {
        (-1, 0)
    }
}

/// The `n` by `n` sample whose top-left pixel is `(tx, ty)`; it wraps around
/// the edges of the image.
pub open spec fn sample_spec(img: PixelGrid, n: int, tx: int, ty: int) -> Seq<u32> {
    Seq::new((n * n) as nat, |k: int| img.pixel_wrap(tx + k % n, ty + k / n))
}

/// Stepping a coordinate by one moves its wrapped value by one, back to 0 at
/// the edge.
pub proof fn lemma_wrap_step(v: int, max: int)
    requires
        max > 0,
    ensures
        wrap_spec(v + 1, max) == if wrap_spec(v, max) + 1 == max {
            0
        } else {
            wrap_spec(v, max) + 1
        },
{
    let q = v / max;
    let r = v % max;
    vstd::arithmetic::div_mod::lemma_fundamental_div_mod(v, max);
    assert(max * q == q * max) by (nonlinear_arith);
    if r + 1 == max {
        assert((q + 1) * max == q * max + max) by (nonlinear_arith);
        lemma_fundamental_div_mod_converse(v + 1, max, q + 1, 0);
    } else {
        lemma_fundamental_div_mod_converse(v + 1, max, q, r + 1);
    }
}

/// Row `j`, column `i` of an `n`-wide grid is at index `j * n + i`.
pub proof fn lemma_row_major(i: int, j: int, n: int)
    requires
        0 <= i < n,
        0 <= j,
    ensures
        (j * n + i) % n == i,
        (j * n + i) / n == j,
{
    lemma_fundamental_div_mod_converse(j * n + i, n, j, i);
}

/// Samples the `tile_sz` by `tile_sz` square whose top-left pixel is
/// `(tile_x, tile_y)`, wrapping around the edges of the image.
pub fn sample_square(data: &ImageData, tile_sz: isize, tile_x: isize, tile_y: isize) -> (tile:
    Tile)
    requires
        data.wf(),
        data@.width > 0,
        data@.height > 0,
        0 <= tile_sz,
        tile_sz * tile_sz <= usize::MAX,
    ensures
        tile@ == sample_spec(data@, tile_sz as int, tile_x as int, tile_y as int),
{
    let x0 = wrap_value(tile_x, data.width());
    let y0 = wrap_value(tile_y, data.height());
    sample_at(data, tile_sz as usize, x0, y0, Ghost(tile_x as int), Ghost(tile_y as int))
}

/// The same from a top-left pixel that is already wrapped onto the image:
/// `(x0, y0)` is the place of `(tile_x, tile_y)` on the torus.
pub(crate) fn sample_at(
    data: &ImageData,
    n: usize,
    x0: usize,
    y0: usize,
    Ghost(tile_x): Ghost<int>,
    Ghost(tile_y): Ghost<int>,
) -> (tile: Tile)
    requires
        data.wf(),
        data@.width > 0,
        data@.height > 0,
        n * n <= usize::MAX,
        x0 == wrap_spec(tile_x, data@.width as int),
        y0 == wrap_spec(tile_y, data@.height as int),
    ensures
        tile@ == sample_spec(data@, n as int, tile_x, tile_y),
{
    let ghost tile_sz = n as int;
    let w: usize = data.width();
    let h: usize = data.height();
    let ghost target = sample_spec(data@, tile_sz as int, tile_x as int, tile_y as int);
    let mut tile: Vec<u32> = Vec::new();
    let mut cy: usize = y0;
    let mut j: usize = 0;
    while j < n
        invariant
            data.wf(),
            w == data@.width,
            h == data@.height,
            w > 0,
            h > 0,
            n == tile_sz,
            n * n <= usize::MAX,
            j <= n,
            x0 == wrap_spec(tile_x, w as int),
            cy == wrap_spec(tile_y + j, h as int),
            cy < h,
            tile@.len() == j * n,
            target == sample_spec(data@, tile_sz as int, tile_x as int, tile_y as int),
            forall|k: int| 0 <= k < tile@.len() ==> tile@[k] == target[k],
        decreases n - j,
    {
        let mut cx: usize = x0;
        let mut i: usize = 0;
        while i < n
            invariant
                data.wf(),
                w == data@.width,
                h == data@.height,
                w > 0,
                h > 0,
                n == tile_sz,
                n * n <= usize::MAX,
                j < n,
                i <= n,
                cy == wrap_spec(tile_y + j, h as int),
                cy < h,
                cx == wrap_spec(tile_x + i, w as int),
                cx < w,
                tile@.len() == j * n + i,
                target == sample_spec(data@, tile_sz as int, tile_x as int, tile_y as int),
                forall|k: int| 0 <= k < tile@.len() ==> tile@[k] == target[k],
            decreases n - i,
        {
            proof {
                lemma_row_major(i as int, j as int, n as int);
                lemma_index_in_grid(i as int, j as int, n as int, n as int);
                lemma_index_in_grid(cx as int, cy as int, w as int, h as int);
                lemma_wrap_step(tile_x + i, w as int);
            }
            let p = data.get_pixel(cx, cy);
            assert(p == target[j * n + i]);
            tile.push(p);
            cx = cx + 1;
            if cx == w {
                cx = 0;
            }
            i = i + 1;
        }
        proof {
            lemma_wrap_step(tile_y + j, h as int);
            assert((j + 1) * n == j * n + n) by (nonlinear_arith);
        }
        cy = cy + 1;
        if cy == h {
            cy = 0;
        }
        j = j + 1;
    }
    assert(tile@ =~= target);
    tile
}

/// Where both tiles cover the position `(x, y)` of the first, they hold the
/// same colour there. The second tile lies shifted by `(ox, oy)` against the
/// first.
pub open spec fn overlap_agrees(
    t1: Seq<u32>,
    t2: Seq<u32>,
    ox: int,
    oy: int,
    n: int,
    x: int,
    y: int,
) -> bool {
    (0 <= x - ox < n && 0 <= y - oy < n) ==> t1[y * n + x] == t2[(y - oy) * n + (x - ox)]
}

/// The second tile, shifted by `(ox, oy)`, agrees with the first on every
/// position that both cover. Positions outside the overlap do not count.
pub open spec fn tiles_match_spec(t1: Seq<u32>, t2: Seq<u32>, ox: int, oy: int, n: int) -> bool {
    forall|x: int, y: int|
        0 <= x < n && 0 <= y < n ==> #[trigger] overlap_agrees(t1, t2, ox, oy, n, x, y)
}

/// Tells whether `tile2`, shifted by `(offset_x, offset_y)`, agrees with
/// `tile1` on the overlap of the two squares.
pub fn tiles_match(
    tile1: &Tile,
    tile2: &Tile,
    offset_x: isize,
    offset_y: isize,
    tile_sz: isize,
) -> (m: bool)
    requires
        tile_sz > 0 ==> tile1@.len() == tile_sz * tile_sz && tile2@.len() == tile_sz * tile_sz,
    ensures
        m == tiles_match_spec(
            tile1@,
            tile2@,
            offset_x as int,
            offset_y as int,
            tile_sz as int,
        ),
{
    if tile_sz <= 0 {
        return true;
    }
    tiles_match_at(tile1, tile2, offset_x, offset_y, tile_sz as usize)
}

/// The same for a side that is known to be positive.
pub(crate) fn tiles_match_at(
    tile1: &Tile,
    tile2: &Tile,
    offset_x: isize,
    offset_y: isize,
    n: usize,
) -> (m: bool)
    requires
        n > 0,
        tile1@.len() == n * n,
        tile2@.len() == n * n,
    ensures
        m == tiles_match_spec(tile1@, tile2@, offset_x as int, offset_y as int, n as int),
{
    let ghost tile_sz = n as int;
    let ghost ox = offset_x as int;
    let ghost oy = offset_y as int;
    let mut y: usize = 0;
    while y < n
        invariant
            n == tile_sz,
            n > 0,
            ox == offset_x,
            oy == offset_y,
            tile1@.len() == n * n,
            tile2@.len() == n * n,
            y <= n,
            forall|x: int, yy: int|
                0 <= x < n && 0 <= yy < y ==> #[trigger] overlap_agrees(
                    tile1@,
                    tile2@,
                    ox,
                    oy,
                    n as int,
                    x,
                    yy,
                ),
        decreases n - y,
    {
        let mut x: usize = 0;
        while x < n
            invariant
                n == tile_sz,
                n > 0,
                ox == offset_x,
                oy == offset_y,
                tile1@.len() == n * n,
                tile2@.len() == n * n,
                y < n,
                x <= n,
                forall|xx: int, yy: int|
                    0 <= xx < n && 0 <= yy < y ==> #[trigger] overlap_agrees(
                        tile1@,
                        tile2@,
                        ox,
                        oy,
                        n as int,
                        xx,
                        yy,
                    ),
                forall|xx: int|
                    0 <= xx < x ==> #[trigger] overlap_agrees(
                        tile1@,
                        tile2@,
                        ox,
                        oy,
                        n as int,
                        xx,
                        y as int,
                    ),
            decreases n - x,
        {
            let sx: i128 = x as i128 - offset_x as i128;
            let sy: i128 = y as i128 - offset_y as i128;
            if 0 <= sx && sx < n as i128 && 0 <= sy && sy < n as i128 {
                let ux: usize = sx as usize;
                let uy: usize = sy as usize;
                proof {
                    lemma_index_in_grid(x as int, y as int, n as int, n as int);
                    lemma_index_in_grid(ux as int, uy as int, n as int, n as int);
                    assert(tile1.len() == n * n);
                    assert(tile2.len() == n * n);
                }
                if tile1[y * n + x] != tile2[uy * n + ux] {
                    assert(!overlap_agrees(tile1@, tile2@, ox, oy, n as int, x as int, y as int));
                    return false;
                }
            }
            x = x + 1;
        }
        y = y + 1;
    }
    true
}

/// A tile laid over itself without a shift agrees with itself everywhere.
pub proof fn lemma_tile_matches_itself(t: Seq<u32>, n: int)
    ensures
        tiles_match_spec(t, t, 0, 0, n),
{
    assert forall|x: int, y: int| 0 <= x < n && 0 <= y < n implies #[trigger] overlap_agrees(
        t,
        t,
        0,
        0,
        n,
        x,
        y,
    ) by {}
}

/// If the second tile fits beside the first in one direction, the first fits
/// beside the second in the opposite direction.
pub proof fn lemma_tiles_match_symmetric(t1: Seq<u32>, t2: Seq<u32>, ox: int, oy: int, n: int)
    requires
        tiles_match_spec(t1, t2, ox, oy, n),
    ensures
        tiles_match_spec(t2, t1, -ox, -oy, n),
{
    assert forall|x: int, y: int| 0 <= x < n && 0 <= y < n implies #[trigger] overlap_agrees(
        t2,
        t1,
        -ox,
        -oy,
        n,
        x,
        y,
    ) by {
        if 0 <= x + ox < n && 0 <= y + oy < n {
            assert(overlap_agrees(t1, t2, ox, oy, n, x + ox, y + oy));
        }
    }
}

} // verus!
