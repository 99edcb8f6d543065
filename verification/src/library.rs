//! Learning the tiles of a source image: every distinct sample, in the order
//! in which a row-by-row scan meets it first, with the number of times it
//! occurs.

use crate::error::WfcError;
use crate::image_data::lemma_index_in_grid;
use crate::image_data::ImageData;
use crate::image_data::PixelGrid;
use crate::tile::lemma_row_major;
use crate::tile::sample_at;
use crate::image_data::wrap_spec;
use crate::tile::overlap_agrees;
use crate::tile::sample_spec;
use crate::tile::tiles_match_spec;
use crate::tile::Tile;
use vstd::prelude::*;

verus! {

/// The samples of all source cells, row by row: the sample of cell `(x, y)`
/// is the `n` by `n` square whose top-left pixel is `(x, y)`.
pub open spec fn grid_samples(img: PixelGrid, n: int) -> Seq<Seq<u32>> {
    Seq::new(
        img.width * img.height,
        |k: int| sample_spec(img, n, k % (img.width as int), k / (img.width as int)),
    )
}

/// The values of `s` without repetition, each at the place of its first
/// occurrence.
pub open spec fn distinct(s: Seq<Seq<u32>>) -> Seq<Seq<u32>>
    decreases s.len(),
{
    if s.len() == 0 {
        Seq::empty()
    } else if distinct(s.drop_last()).contains(s.last()) {
        distinct(s.drop_last())
    } else {
        distinct(s.drop_last()).push(s.last())
    }
}

/// How often `t` occurs in `s`.
pub open spec fn occurrences(s: Seq<Seq<u32>>, t: Seq<u32>) -> nat
    decreases s.len(),
{
    if s.len() == 0 {
        0
    } else {
        occurrences(s.drop_last(), t) + if s.last() == t {
            1nat
        } else {
            0nat
        }
    }
}

/// The tiles as plain sequences of colours.
pub open spec fn tiles_view(tiles: Seq<Vec<u32>>) -> Seq<Seq<u32>> {
    Seq::new(tiles.len(), |i: int| tiles[i]@)
}

/// `distinct` holds exactly the values of the sequence, each once, and no
/// more values than the sequence has.
pub proof fn lemma_distinct(s: Seq<Seq<u32>>)
    ensures
        forall|t: Seq<u32>| #[trigger] distinct(s).contains(t) <==> s.contains(t),
        forall|i: int, j: int|
            0 <= i < j < distinct(s).len() ==> #[trigger] distinct(s)[i] != #[trigger] distinct(s)[j],
        distinct(s).len() <= s.len(),
    decreases s.len(),
{
    if s.len() > 0 {
        let rest = s.drop_last();
        let last = s.last();
        lemma_distinct(rest);
        assert forall|t: Seq<u32>| #[trigger] distinct(s).contains(t) <==> s.contains(t) by {
            if s.contains(t) {
                let i = choose|i: int| 0 <= i < s.len() && s[i] == t;
                if i < s.len() - 1 {
                    assert(rest[i] == t);
                    assert(rest.contains(t));
                    assert(distinct(rest).contains(t));
                    let j = choose|j: int| 0 <= j < distinct(rest).len() && distinct(rest)[j] == t;
                    assert(distinct(s)[j] == t);
                } else if !distinct(rest).contains(last) {
                    assert(distinct(s)[distinct(s).len() - 1] == t);
                }
            }
            if distinct(s).contains(t) {
                let j = choose|j: int| 0 <= j < distinct(s).len() && distinct(s)[j] == t;
                if j < distinct(rest).len() {
                    assert(distinct(rest)[j] == t);
                    assert(distinct(rest).contains(t));
                    assert(rest.contains(t));
                    let i = choose|i: int| 0 <= i < rest.len() && rest[i] == t;
                    assert(s[i] == t);
                } else {
                    assert(s[s.len() - 1] == t);
                }
            }
        }
        assert forall|i: int, j: int| 0 <= i < j < distinct(s).len() implies #[trigger] distinct(
            s,
        )[i] != #[trigger] distinct(s)[j] by {
            if j < distinct(rest).len() {
                assert(distinct(rest)[i] != distinct(rest)[j]);
            } else {
                assert(distinct(rest)[i] == distinct(s)[i]);
                assert(distinct(rest).contains(distinct(rest)[i]));
            }
        }
    }
}

/// A value occurs at most as often as the sequence is long, and not at all
/// exactly if the sequence does not hold it.
pub proof fn lemma_occurrences(s: Seq<Seq<u32>>, t: Seq<u32>)
    ensures
        occurrences(s, t) <= s.len(),
        occurrences(s, t) == 0 <==> !s.contains(t),
    decreases s.len(),
{
    if s.len() > 0 {
        let rest = s.drop_last();
        lemma_occurrences(rest, t);
        if s.contains(t) {
            let i = choose|i: int| 0 <= i < s.len() && s[i] == t;
            if i < s.len() - 1 {
                assert(rest[i] == t);
                assert(rest.contains(t));
            }
        }
        if rest.contains(t) {
            let i = choose|i: int| 0 <= i < rest.len() && rest[i] == t;
            assert(s[i] == t);
        }
        if s.last() == t {
            assert(s[s.len() - 1] == t);
        }
    }
}

/// Wrapping a coordinate before a step is added changes nothing on the
/// torus.
pub proof fn lemma_wrap_add(a: int, i: int, m: int)
    requires
        m > 0,
    ensures
        wrap_spec(wrap_spec(a, m) + i, m) == wrap_spec(a + i, m),
{
    vstd::arithmetic::div_mod::lemma_fundamental_div_mod(a, m);
    vstd::arithmetic::div_mod::lemma_mod_multiples_vanish(a / m, a % m + i, m);
}

/// A sample does not depend on which of the wrapped copies of its top-left
/// pixel it is taken from.
pub proof fn lemma_sample_wrap(img: PixelGrid, n: int, x: int, y: int)
    requires
        img.width > 0,
        img.height > 0,
    ensures
        sample_spec(img, n, wrap_spec(x, img.width as int), wrap_spec(y, img.height as int))
            == sample_spec(img, n, x, y),
{
    let w = img.width as int;
    let h = img.height as int;
    let a = sample_spec(img, n, wrap_spec(x, w), wrap_spec(y, h));
    let b = sample_spec(img, n, x, y);
    assert forall|k: int| 0 <= k < a.len() implies a[k] == b[k] by {
        lemma_wrap_add(x, k % n, w);
        lemma_wrap_add(y, k / n, h);
    }
    assert(a =~= b);
}

/// Two samples taken one step apart agree where they overlap: the second
/// fits beside the first in the direction of the step.
pub proof fn lemma_neighbor_samples_match(img: PixelGrid, n: int, x: int, y: int, ox: int, oy: int)
    requires
        n > 0,
    ensures
        tiles_match_spec(
            sample_spec(img, n, x, y),
            sample_spec(img, n, x + ox, y + oy),
            ox,
            oy,
            n,
        ),
{
    let t1 = sample_spec(img, n, x, y);
    let t2 = sample_spec(img, n, x + ox, y + oy);
    assert forall|i: int, j: int| 0 <= i < n && 0 <= j < n implies #[trigger] overlap_agrees(
        t1,
        t2,
        ox,
        oy,
        n,
        i,
        j,
    ) by {
        if 0 <= i - ox < n && 0 <= j - oy < n {
            lemma_row_major(i, j, n);
            lemma_row_major(i - ox, j - oy, n);
            lemma_index_in_grid(i, j, n, n);
            lemma_index_in_grid(i - ox, j - oy, n, n);
        }
    }
}

/// The tiles learned from a source image, with their frequencies.
pub struct TileLibrary {
    /// The tiles; the index of a tile is its id.
    pub tiles: Vec<Tile>,
    /// For each tile, the number of source cells whose sample it is.
    pub frequency: Vec<u32>,
    /// The side of the tiles.
    pub tile_sz: usize,
}

impl TileLibrary {
    /// Every tile is a square of side `tile_sz`, and has a frequency of at
    /// least 1.
    pub open spec fn wf(&self) -> bool {
        &&& self.tile_sz > 0
        &&& self.frequency@.len() == self.tiles@.len()
        &&& forall|i: int|
            0 <= i < self.tiles@.len() ==> (#[trigger] self.tiles@[i])@.len() == self.tile_sz
                * self.tile_sz
        &&& forall|i: int| 0 <= i < self.frequency@.len() ==> #[trigger] self.frequency@[i] >= 1
    }

    /// The library holds exactly what a scan of `img` with tiles of side
    /// `n` finds: the distinct samples in the order of their discovery, and
    /// how often each occurs.
    pub open spec fn learned_from(&self, img: PixelGrid, n: int) -> bool {
        &&& self.tile_sz == n
        &&& tiles_view(self.tiles@) == distinct(grid_samples(img, n))
        &&& self.frequency@.len() == self.tiles@.len()
        &&& forall|i: int|
            0 <= i < self.tiles@.len() ==> #[trigger] self.frequency@[i] == occurrences(
                grid_samples(img, n),
                self.tiles@[i]@,
            )
    }

    /// The error, if any, with which learning from `img` with tiles of side
    /// `n` ends.
    pub open spec fn rejects(img: PixelGrid, n: int) -> Option<WfcError> {
        if n <= 0 {
            Some(WfcError::InvalidTileSize)
        } else if img.width == 0 || img.height == 0 {
            Some(WfcError::EmptySource)
        } else if n * n > usize::MAX || img.width * img.height > u32::MAX {
            Some(WfcError::TooLarge)
        } else {
            None
        }
    }

    /// Scans the image row by row and collects its distinct tiles of side
    /// `tile_sz` with their frequencies.
    pub fn extract(data: &ImageData, tile_sz: isize) -> (res: Result<TileLibrary, WfcError>)
        requires
            data.wf(),
        ensures
            match res {
                Ok(lib) => Self::rejects(data@, tile_sz as int) is None && lib.wf()
                    && lib.learned_from(data@, tile_sz as int),
                Err(e) => Self::rejects(data@, tile_sz as int) == Some(e),
            },
    {
        if tile_sz <= 0 {
            return Err(WfcError::InvalidTileSize);
        }
        let w = data.width();
        let h = data.height();
        if w == 0 || h == 0 {
            return Err(WfcError::EmptySource);
        }
        let n: usize = tile_sz as usize;
        if n.checked_mul(n).is_none() {
            return Err(WfcError::TooLarge);
        }
        if data.pixels().len() > u32::MAX as usize {
            return Err(WfcError::TooLarge);
        }
        let ghost samples = grid_samples(data@, n as int);
        let mut tiles: Vec<Tile> = Vec::new();
        let mut frequency: Vec<u32> = Vec::new();
        let mut y: usize = 0;
        proof {
            assert(samples.take(0) =~= Seq::<Seq<u32>>::empty());
            assert(tiles_view(tiles@) =~= distinct(samples.take(0)));
        }
        while y < h
            invariant
                data.wf(),
                w == data@.width,
                h == data@.height,
                w > 0,
                h > 0,
                n * n <= usize::MAX,
                w * h <= u32::MAX,
                samples == grid_samples(data@, n as int),
                samples.len() == w * h,
                y <= h,
                tiles_view(tiles@) == distinct(samples.take(y * w)),
                frequency@.len() == tiles@.len(),
                forall|i: int| 0 <= i < tiles@.len() ==> (#[trigger] tiles@[i])@.len() == n * n,
                forall|i: int| 0 <= i < frequency@.len() ==> #[trigger] frequency@[i] >= 1,
                forall|i: int|
                    0 <= i < tiles@.len() ==> #[trigger] frequency@[i] == occurrences(
                        samples.take(y * w),
                        tiles@[i]@,
                    ),
            decreases h - y,
        {
            let mut x: usize = 0;
            while x < w
                invariant
                    data.wf(),
                    w == data@.width,
                    h == data@.height,
                    w > 0,
                    h > 0,
                    n * n <= usize::MAX,
                    w * h <= u32::MAX,
                    samples == grid_samples(data@, n as int),
                    samples.len() == w * h,
                    y < h,
                    x <= w,
                    tiles_view(tiles@) == distinct(samples.take(y * w + x)),
                    frequency@.len() == tiles@.len(),
                    forall|i: int| 0 <= i < tiles@.len() ==> (#[trigger] tiles@[i])@.len() == n * n,
                    forall|i: int| 0 <= i < frequency@.len() ==> #[trigger] frequency@[i] >= 1,
                    forall|i: int|
                        0 <= i < tiles@.len() ==> #[trigger] frequency@[i] == occurrences(
                            samples.take(y * w + x),
                            tiles@[i]@,
                        ),
                decreases w - x,
            {
                let ghost k = y * w + x;
                let ghost seen = samples.take(k);
                let ghost next = samples.take(k + 1);
                proof {
                    lemma_index_in_grid(x as int, y as int, w as int, h as int);
                    lemma_row_major(x as int, y as int, w as int);
                    vstd::arithmetic::div_mod::lemma_small_mod(x as nat, w as nat);
                    vstd::arithmetic::div_mod::lemma_small_mod(y as nat, h as nat);
                    assert(next.drop_last() =~= seen);
                    assert(next.last() == samples[k]);
                    lemma_distinct(seen);
                }
                let tile = sample_at(data, n, x, y, Ghost(x as int), Ghost(y as int));
                assert(tile@ == samples[k]);
                match find_tile(&tiles, &tile) {
                    Some(i) => {
                        proof {
                            lemma_occurrences(seen, tile@);
                            assert(tiles_view(tiles@)[i as int] == tile@);
                            assert(distinct(seen).contains(tile@));
                        }
                        let seen_so_far = frequency[i];
                        frequency[i] = seen_so_far + 1;
                        proof {
                            assert forall|j: int| 0 <= j < tiles@.len() implies #[trigger] frequency@[j]
                                == occurrences(next, tiles@[j]@) by {
                                if j != i {
                                    assert(tiles_view(tiles@)[j] == tiles@[j]@);
                                    assert(tiles_view(tiles@)[i as int] == tiles@[i as int]@);
                                    assert(tiles@[j]@ != tile@);
                                }
                            }
                        }
                    },
                    None => {
                        let ghost old_tiles = tiles@;
                        tiles.push(tile);
                        frequency.push(1);
                        proof {
                            assert forall|t: Seq<u32>| distinct(seen).contains(t) implies t != tile@ by {
                                let j = choose|j: int|
                                    0 <= j < distinct(seen).len() && distinct(seen)[j] == t;
                                assert(tiles_view(old_tiles)[j] == old_tiles[j]@);
                            }
                            assert(!distinct(seen).contains(tile@));
                            assert(tiles_view(tiles@) =~= distinct(seen).push(tile@));
                            lemma_occurrences(seen, tile@);
                            assert forall|j: int| 0 <= j < tiles@.len() implies #[trigger] frequency@[j]
                                == occurrences(next, tiles@[j]@) by {
                                if j < old_tiles.len() {
                                    assert(tiles_view(old_tiles)[j] == old_tiles[j]@);
                                    assert(distinct(seen).contains(old_tiles[j]@));
                                }
                            }
                        }
                    },
                }
                x = x + 1;
            }
            proof {
                assert((y + 1) * w == y * w + w) by (nonlinear_arith);
            }
            y = y + 1;
        }
        proof {
            assert(h * w == w * h) by (nonlinear_arith);
            assert(samples.take(h * w) =~= samples);
        }
        Ok(TileLibrary { tiles, frequency, tile_sz: n })
    }
}

/// Whether two tiles hold the same colours.
fn same_tile(a: &Tile, b: &Tile) -> (same: bool)
    ensures
        same == (a@ == b@),
{
    if a.len() != b.len() {
        return false;
    }
    let mut i: usize = 0;
    while i < a.len()
        invariant
            a@.len() == b@.len(),
            i <= a@.len(),
            forall|k: int| 0 <= k < i ==> a@[k] == b@[k],
        decreases a@.len() - i,
    {
        if a[i] != b[i] {
            return false;
        }
        i = i + 1;
    }
    assert(a@ =~= b@);
    true
}

/// The index of the first tile equal to `tile`, if there is one.
fn find_tile(tiles: &Vec<Tile>, tile: &Tile) -> (found: Option<usize>)
    ensures
        match found {
            Some(i) => i < tiles@.len() && tiles@[i as int]@ == tile@,
            None => forall|i: int| 0 <= i < tiles@.len() ==> (#[trigger] tiles@[i])@ != tile@,
        },
{
    let mut i: usize = 0;
    while i < tiles.len()
        invariant
            i <= tiles@.len(),
            forall|k: int| 0 <= k < i ==> (#[trigger] tiles@[k])@ != tile@,
        decreases tiles@.len() - i,
    {
        if same_tile(&tiles[i], tile) {
            return Some(i);
        }
        i = i + 1;
    }
    None
}

} // verus!
