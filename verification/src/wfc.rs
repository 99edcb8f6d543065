//! What is learned from a source image, and the generation of a new grid
//! from it.

use crate::compose::cell_color;
use crate::compose::copy_superpositions_to_grid;
use crate::error::WfcError;
use crate::field::arc_consistent;
use crate::field::field_valid;
use crate::field::no_empty_cell;
use crate::field::total_size;
use crate::superposition::is_done;
use crate::superposition::lemma_full_field_arc_consistent;
use crate::superposition::SuperpositionField;
use rand::rngs::StdRng;
use crate::field::lemma_cell_index;
use crate::field::lemma_neighbor_in_grid;
use crate::image_data::ImageData;
use crate::image_data::PixelGrid;
use crate::image_data::wrap_spec;
use crate::library::distinct;
use crate::library::grid_samples;
use crate::library::lemma_distinct;
use crate::library::lemma_neighbor_samples_match;
use crate::library::lemma_sample_wrap;
use crate::library::occurrences;
use crate::library::tiles_view;
use crate::library::TileLibrary;
use crate::rules::lemma_described_rules_symmetric;
use crate::rules::RuleTable;
use crate::tile::offset_x;
use crate::tile::offset_y;
use vstd::prelude::*;

verus! {

/// The rules learned from a torus-shaped source rule out no tile: in every
/// direction, every learned tile is allowed beside some learned tile,
/// namely beside the sample one step back from one of its own occurrences.
pub proof fn lemma_learned_rules_supportive(table: RuleTable, img: PixelGrid, n: int)
    requires
        img.wf(),
        img.width > 0,
        img.height > 0,
        n > 0,
        table.describes(distinct(grid_samples(img, n)), n),
    ensures
        table.supportive(),
{
    let w = img.width as int;
    let h = img.height as int;
    let samples = grid_samples(img, n);
    let tiles = distinct(samples);
    lemma_distinct(samples);
    assert forall|d: int, b: int| 0 <= d < 4 && 0 <= b < table.count() implies #[trigger] table.has_supporter(
        d,
        b,
    ) by {
        let ox = offset_x(d);
        let oy = offset_y(d);
        assert(tiles.contains(tiles[b]));
        assert(samples.contains(tiles[b]));
        let k = choose|k: int| 0 <= k < samples.len() && samples[k] == tiles[b];
        lemma_neighbor_in_grid(w, h, k, d);
        let x = k % w;
        let y = k / w;
        let bx = wrap_spec(x - ox, w);
        let by = wrap_spec(y - oy, h);
        let kb = bx + by * w;
        lemma_cell_index(w, h, bx, by);
        assert(samples[kb] == crate::tile::sample_spec(img, n, bx, by));
        lemma_sample_wrap(img, n, x - ox, y - oy);
        lemma_neighbor_samples_match(img, n, x - ox, y - oy, ox, oy);
        assert(samples.contains(samples[kb]));
        assert(tiles.contains(samples[kb]));
        let a = choose|a: int| 0 <= a < tiles.len() && tiles[a] == samples[kb];
        assert(table.allowed(d, a, b));
    }
}

/// What generation needs to know of the source image.
pub struct WFCParameters {
    /// The colour that stands for each tile: its top-left pixel.
    pub wfc_tiles: Vec<u32>,
    /// Which tile may lie beside which.
    pub wfc_rules: RuleTable,
    /// How often each tile occurs in the source.
    pub wfc_frequency: Vec<u32>,
    /// The side of the tiles.
    pub wfc_tile_sz: usize,
}

impl WFCParameters {
    /// Colours, frequencies and rules speak of the same tiles.
    pub open spec fn wf(&self) -> bool {
        &&& self.wfc_rules.wf()
        &&& self.wfc_rules.count() == self.wfc_tiles@.len()
        &&& self.wfc_frequency@.len() == self.wfc_tiles@.len()
        &&& forall|i: int|
            0 <= i < self.wfc_frequency@.len() ==> #[trigger] self.wfc_frequency@[i] >= 1
    }

    /// The number of tiles.
    pub open spec fn count(&self) -> nat {
        self.wfc_tiles@.len()
    }

    /// The parameters are what the image `img` teaches with tiles of side
    /// `n`: the tiles are the distinct samples of the image in the order of
    /// a row-by-row scan; each has its top-left pixel as colour and the
    /// number of its occurrences as frequency; and the rules describe them.
    pub open spec fn learned_from(&self, img: PixelGrid, n: int) -> bool {
        let tiles = distinct(grid_samples(img, n));
        &&& self.wfc_tile_sz == n
        &&& self.wfc_tiles@.len() == tiles.len()
        &&& self.wfc_frequency@.len() == tiles.len()
        &&& forall|i: int| 0 <= i < tiles.len() ==> #[trigger] self.wfc_tiles@[i] == tiles[i][0]
        &&& forall|i: int|
            0 <= i < tiles.len() ==> #[trigger] self.wfc_frequency@[i] == occurrences(
                grid_samples(img, n),
                tiles[i],
            )
        &&& self.wfc_rules.describes(tiles, n)
    }

    /// The error, if any, with which learning from `img` with tiles of side
    /// `n` ends.
    pub open spec fn rejects(img: PixelGrid, n: int) -> Option<WfcError> {
        match TileLibrary::rejects(img, n) {
            Some(e) => Some(e),
            None => {
                let count = distinct(grid_samples(img, n)).len();
                if count * count * 4 > usize::MAX {
                    Some(WfcError::TooLarge)
                } else {
                    None
                }
            },
        }
    }

    /// The image `img` shows the field `cells`, and the field is a result
    /// of generation: no cell is undetermined; no cell is empty, if there
    /// are tiles at all; and under rules that rule out no tile from the
    /// start, the field is arc-consistent.
    pub open spec fn is_generated(&self, cells: Seq<Seq<usize>>, img: PixelGrid) -> bool {
        &&& field_valid(cells, img.width as int, img.height as int, self.count() as int)
        &&& is_done(cells)
        &&& self.count() > 0 ==> no_empty_cell(cells)
        &&& self.wfc_rules.supportive() ==> arc_consistent(
            cells,
            self.wfc_rules,
            img.width as int,
            img.height as int,
        )
        &&& img.pixels.len() == cells.len()
        &&& forall|i: int|
            0 <= i < cells.len() ==> #[trigger] img.pixels[i] == cell_color(
                cells[i],
                self.wfc_tiles@,
            )
    }

    /// Generates a grid of `w` by `h` cells: starts from the field in which
    /// everything is possible and takes steps until no cell is
    /// undetermined, then shows each cell by the colour of its tile. Ends
    /// with `Contradiction` as soon as a step fails.
    pub fn generate_grid(&self, w: usize, h: usize, rng: &mut StdRng) -> (res: Result<
        ImageData,
        WfcError,
    >)
        requires
            self.wf(),
        ensures
            match res {
                Ok(img) => {
                    &&& img.wf()
                    &&& img@.width == w
                    &&& img@.height == h
                    &&& exists|cells: Seq<Seq<usize>>| self.is_generated(cells, img@)
                },
                Err(e) => if w == 0 || h == 0 {
                    e == WfcError::EmptyGrid
                } else if w * h > usize::MAX {
                    e == WfcError::TooLarge
                } else {
                    e == WfcError::Contradiction && self.count() > 1
                },
            },
    {
        let count = self.wfc_tiles.len();
        let mut field = match SuperpositionField::new(w, h, count) {
            Ok(field) => field,
            Err(e) => {
                return Err(e);
            },
        };
        proof {
            if self.wfc_rules.supportive() {
                lemma_full_field_arc_consistent(self.wfc_rules, w as int, h as int);
            }
            if count > 0 {
                assert forall|i: int| 0 <= i < field@.cells.len() implies (#[trigger] field@.cells[i]).len()
                    > 0 by {}
            }
            if count <= 1 {
                assert forall|i: int| 0 <= i < field@.cells.len() implies (#[trigger] field@.cells[i]).len()
                    <= 1 by {}
            }
        }
        while !field.done()
            invariant
                w > 0,
                h > 0,
                w * h <= usize::MAX,
                self.wf(),
                field.wf(),
                field.fits(*self),
                field@.width == w,
                field@.height == h,
                field@.tile_count == count,
                count == self.count(),
                count <= 1 ==> is_done(field@.cells),
                count > 0 ==> no_empty_cell(field@.cells),
                self.wfc_rules.supportive() ==> arc_consistent(
                    field@.cells,
                    self.wfc_rules,
                    w as int,
                    h as int,
                ),
            decreases total_size(field@.cells),
        {
            match field.step(self, rng) {
                Ok(()) => {},
                Err(e) => {
                    return Err(e);
                },
            }
        }
        let mut grid: Vec<u32> = vec![0; w * h];
        let cells = field.cells();
        assert forall|i: int, k: int|
            0 <= i < cells@.len() && 0 <= k < cells@[i]@.len() implies #[trigger] cells@[i]@[k]
            < self.wfc_tiles@.len() by {
            assert(field@.cells[i][k] < count);
        }
        copy_superpositions_to_grid(grid.as_mut_slice(), cells, self.wfc_tiles.as_slice());
        let img = ImageData::from_pixels(grid.as_slice(), w, h);
        proof {
            let shown = field@.cells;
            assert forall|i: int| 0 <= i < shown.len() implies #[trigger] img@.pixels[i]
                == cell_color(shown[i], self.wfc_tiles@) by {
                assert(shown[i] == cells@[i]@);
            }
            assert(self.is_generated(shown, img@));
        }
        Ok(img)
    }

    /// Learns from an image: samples the square of side `tile_sz` at every
    /// pixel, wrapping around the edges, gives each distinct sample an id
    /// in the order of discovery, counts how often it occurs, and derives
    /// which tile may lie beside which.
    pub fn from_image_data(data: &ImageData, tile_sz: isize) -> (res: Result<Self, WfcError>)
        requires
            data.wf(),
        ensures
            match res {
                Ok(params) => {
                    &&& Self::rejects(data@, tile_sz as int) is None
                    &&& params.wf()
                    &&& params.learned_from(data@, tile_sz as int)
                    &&& params.wfc_rules.symmetric()
                    &&& params.wfc_rules.supportive()
                },
                Err(e) => Self::rejects(data@, tile_sz as int) == Some(e),
            },
    {
        let lib = match TileLibrary::extract(data, tile_sz) {
            Ok(lib) => lib,
            Err(e) => {
                return Err(e);
            },
        };
        let ghost tiles = distinct(grid_samples(data@, tile_sz as int));
        let count = lib.tiles.len();
        assert(tiles_view(lib.tiles@).len() == count);
        let fits = match count.checked_mul(count) {
            Some(square) => square.checked_mul(4).is_some(),
            None => false,
        };
        if !fits {
            proof {
                assert(count * count * 4 >= count * count) by (nonlinear_arith);
            }
            return Err(WfcError::TooLarge);
        }
        let rules = RuleTable::derive(&lib.tiles, lib.tile_sz);
        let mut colors: Vec<u32> = Vec::new();
        let mut i: usize = 0;
        while i < count
            invariant
                lib.wf(),
                count == lib.tiles@.len(),
                tiles == tiles_view(lib.tiles@),
                i <= count,
                colors@.len() == i,
                forall|k: int| 0 <= k < i ==> #[trigger] colors@[k] == tiles[k][0],
            decreases count - i,
        {
            assert(tiles[i as int] == lib.tiles@[i as int]@);
            assert(lib.tiles@[i as int]@.len() == lib.tile_sz * lib.tile_sz);
            assert(lib.tile_sz * lib.tile_sz > 0) by (nonlinear_arith)
                requires
                    lib.tile_sz > 0,
            ;
            colors.push(lib.tiles[i][0]);
            i = i + 1;
        }
        proof {
            lemma_described_rules_symmetric(rules, tiles, tile_sz as int);
            lemma_learned_rules_supportive(rules, data@, tile_sz as int);
            assert forall|k: int| 0 <= k < tiles.len() implies #[trigger] lib.frequency@[k]
                == occurrences(grid_samples(data@, tile_sz as int), tiles[k]) by {
                assert(tiles[k] == lib.tiles@[k]@);
            }
        }
        Ok(
            WFCParameters {
                wfc_tiles: colors,
                wfc_rules: rules,
                wfc_frequency: lib.frequency,
                wfc_tile_sz: lib.tile_sz,
            },
        )
    }
}

impl Clone for WFCParameters {
    fn clone(&self) -> (params: Self)
        ensures
            params.wfc_tiles@ == self.wfc_tiles@,
            params.wfc_frequency@ == self.wfc_frequency@,
            params.wfc_tile_sz == self.wfc_tile_sz,
            params.wfc_rules.count() == self.wfc_rules.count(),
            params.wfc_rules.wf() == self.wfc_rules.wf(),
            forall|d: int, a: int, b: int| #[trigger]
                params.wfc_rules.allowed(d, a, b) == self.wfc_rules.allowed(d, a, b),
            params.wf() == self.wf(),
    {
        let params = WFCParameters {
            wfc_tiles: self.wfc_tiles.clone(),
            wfc_rules: self.wfc_rules.clone(),
            wfc_frequency: self.wfc_frequency.clone(),
            wfc_tile_sz: self.wfc_tile_sz,
        };
        assert(params.wfc_tiles@ =~= self.wfc_tiles@);
        assert(params.wfc_frequency@ =~= self.wfc_frequency@);
        params
    }
}

} // verus!
