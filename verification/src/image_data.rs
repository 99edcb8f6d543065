//! A grid of packed 32-bit colours with wrap-around (toroidal) addressing.

use vstd::arithmetic::div_mod::lemma_fundamental_div_mod;
use vstd::arithmetic::div_mod::lemma_fundamental_div_mod_converse;
use vstd::prelude::*;

verus! {

/// The coordinate `v` folded onto `[0, max)`: the Euclidean remainder, which
/// is non-negative for negative `v` too.
pub open spec fn wrap_spec(v: int, max: int) -> int {
    v % max
}

/// For negative `v`, the remainder can be read off the remainder of the
/// non-negative number `-v - 1`.
pub proof fn lemma_wrap_negative(v: int, max: int)
    requires
        v < 0,
        max > 0,
    ensures
        wrap_spec(v, max) == max - 1 - ((-v - 1) % max),
{
    let k = -v - 1;
    let q = k / max;
    let m = k % max;
    lemma_fundamental_div_mod(k, max);
    assert(k == max * q + m);
    assert(max * q == q * max) by (nonlinear_arith);
    assert((-(q + 1)) * max == -(q * max) - max) by (nonlinear_arith);
    lemma_fundamental_div_mod_converse(v, max, -(q + 1), max - 1 - m);
}

/// A row-major index stays inside a `w` by `h` grid.
pub proof fn lemma_index_in_grid(x: int, y: int, w: int, h: int)
    requires
        0 <= x < w,
        0 <= y < h,
    ensures
        0 <= x + y * w < w * h,
        0 <= y * w,
{
    assert(y * w + w <= h * w) by (nonlinear_arith)
        requires
            0 <= y < h,
            0 < w,
    ;
    assert(0 <= y * w) by (nonlinear_arith)
        requires
            0 <= y,
            0 < w,
    ;
    assert(h * w == w * h) by (nonlinear_arith);
}

/// Folds a signed coordinate onto `[0, max)`.
pub fn wrap_value(v: isize, max: usize) -> (r: usize)
    requires
        max > 0,
    ensures
        r == wrap_spec(v as int, max as int),
        r < max,
{
    if v < 0 {
        let back: usize = (-(v + 1)) as usize;
        let m: usize = back % max;
        proof {
            lemma_wrap_negative(v as int, max as int);
        }
        max - 1 - m
    } else {
        (v as usize) % max
    }
}

/// The colour packed from its four bytes, red lowest and alpha highest.
pub open spec fn packed(r: u8, g: u8, b: u8, a: u8) -> u32 {
    (r as u32) | (g as u32) << 8 | (b as u32) << 16 | (a as u32) << 24
}

/// Packs every four bytes of `buf`, read as red, green, blue and alpha,
/// into one colour. Up to three bytes left over at the end are dropped.
pub fn pack_rgba(buf: &[u8]) -> (pixels: Vec<u32>)
    ensures
        pixels@.len() == buf@.len() / 4,
        forall|i: int|
            0 <= i < pixels@.len() ==> #[trigger] pixels@[i] == packed(
                buf@[4 * i],
                buf@[4 * i + 1],
                buf@[4 * i + 2],
                buf@[4 * i + 3],
            ),
{
    let count = buf.len() / 4;
    let mut pixels: Vec<u32> = Vec::new();
    let mut i: usize = 0;
    while i < count
        invariant
            count == buf@.len() / 4,
            i <= count,
            pixels@.len() == i,
            forall|k: int|
                0 <= k < i ==> #[trigger] pixels@[k] == packed(
                    buf@[4 * k],
                    buf@[4 * k + 1],
                    buf@[4 * k + 2],
                    buf@[4 * k + 3],
                ),
        decreases count - i,
    {
        assert(4 * i + 3 < buf.len());
        let r = buf[4 * i];
        let g = buf[4 * i + 1];
        let b = buf[4 * i + 2];
        let a = buf[4 * i + 3];
        pixels.push((r as u32) | (g as u32) << 8 | (b as u32) << 16 | (a as u32) << 24);
        i = i + 1;
    }
    pixels
}

/// What an image holds: its dimensions and its pixels in row-major order.
pub struct PixelGrid {
    pub width: nat,
    pub height: nat,
    pub pixels: Seq<u32>,
}

impl PixelGrid {
    /// There is one pixel per coordinate.
    pub open spec fn wf(self) -> bool {
        self.pixels.len() == self.width * self.height
    }

    /// The pixel at `(x, y)`, or 0 outside the grid.
    pub open spec fn pixel(self, x: int, y: int) -> u32 {
        if 0 <= x < self.width && 0 <= y < self.height {
            self.pixels[y * self.width + x]
        } else {
            0
        }
    }

    /// The pixel at `(x, y)` on the torus: both coordinates wrap around.
    pub open spec fn pixel_wrap(self, x: int, y: int) -> u32 {
        self.pixels[wrap_spec(x, self.width as int) + wrap_spec(y, self.height as int)
            * self.width]
    }
}

/// An image of packed 32-bit colours.
pub struct ImageData {
    pixels: Vec<u32>,
    width: usize,
    height: usize,
}

impl View for ImageData {
    type V = PixelGrid;

    closed spec fn view(&self) -> PixelGrid {
        PixelGrid {
            width: self.width as nat,
            height: self.height as nat,
            pixels: self.pixels@,
        }
    }
}

impl ImageData {
    /// The image holds one pixel per coordinate. Every constructor
    /// establishes this and no method breaks it.
    pub open spec fn wf(&self) -> bool {
        self@.wf()
    }

    /// A `w` by `h` image whose pixels are all 0.
    pub fn new(w: usize, h: usize) -> (img: Self)
        requires
            w * h <= usize::MAX,
        ensures
            img.wf(),
            img@.width == w,
            img@.height == h,
            forall|i: int| 0 <= i < w * h ==> img@.pixels[i] == 0,
    {
        Self { pixels: vec![0; w * h], width: w, height: h }
    }

    /// The image of the given pixels, read row by row.
    pub fn from_pixels(grid: &[u32], w: usize, h: usize) -> (img: Self)
        requires
            grid@.len() == w * h,
        ensures
            img@ == (PixelGrid { width: w as nat, height: h as nat, pixels: grid@ }),
    {
        ImageData { pixels: vstd::slice::slice_to_vec(grid), width: w, height: h }
    }

    /// The pixel at `(x, y)`; 0 where the coordinate lies outside the image.
    pub fn get_pixel(&self, x: usize, y: usize) -> (p: u32)
        requires
            self.wf(),
        ensures
            p == self@.pixel(x as int, y as int),
    {
        if x >= self.width || y >= self.height {
            return 0;
        }
        proof {
            lemma_index_in_grid(x as int, y as int, self.width as int, self.height as int);
            assert(self.pixels.len() == self.width * self.height);
        }
        self.pixels[y * self.width + x]
    }

    /// The pixel at `(x, y)` with both coordinates wrapped around the edges.
    pub fn get_pixel_wrap(&self, x: isize, y: isize) -> (p: u32)
        requires
            self.wf(),
            self@.width > 0,
            self@.height > 0,
        ensures
            p == self@.pixel_wrap(x as int, y as int),
    {
        let wrapped_x = wrap_value(x, self.width);
        let wrapped_y = wrap_value(y, self.height);
        proof {
            lemma_index_in_grid(
                wrapped_x as int,
                wrapped_y as int,
                self.width as int,
                self.height as int,
            );
            assert(self.pixels.len() == self.width * self.height);
        }
        self.pixels[wrapped_x + wrapped_y * self.width]
    }

    /// The number of pixels in a row.
    pub fn width(&self) -> (w: usize)
        ensures
            w == self@.width,
    {
        self.width
    }

    /// The number of rows.
    pub fn height(&self) -> (h: usize)
        ensures
            h == self@.height,
    {
        self.height
    }

    /// The pixels in row-major order.
    pub fn pixels(&self) -> (p: &[u32])
        ensures
            p@ == self@.pixels,
    {
        self.pixels.as_slice()
    }

    /// The pixels, open to be overwritten in place; the dimensions stay.
    pub fn pixels_mut(&mut self) -> (p: &mut [u32])
        ensures
            p@ == old(self)@.pixels,
            final(self)@.pixels == final(p)@,
            final(self)@.width == old(self)@.width,
            final(self)@.height == old(self)@.height,
    {
        self.pixels.as_mut_slice()
    }
}

impl Clone for ImageData {
    fn clone(&self) -> (img: Self)
        ensures
            img@ == self@,
    {
        let img = ImageData { pixels: self.pixels.clone(), width: self.width, height: self.height };
        assert(img.pixels@ =~= self.pixels@);
        img
    }
}

} // verus!
