//! The field of superpositions as a value of its own, and the collapse step
//! that drives it: pick a cell of lowest entropy, settle it on one of its
//! tiles by weight, and propagate.
//!
//! The cells to pick from are found anew in every step, by a scan of the
//! field for the undetermined cells and their entropies. So a step always
//! goes by the entropy that a cell has now, and no record of an earlier
//! entropy can mislead it.

use crate::entropy::lemma_lowest_entropy_nonempty;
use crate::entropy::lowest_entropy;
use crate::entropy::lowest_entropy_spec;
use crate::error::WfcError;
use crate::field::arc_consistent;
use crate::field::cells_view;
use crate::field::clean;
use crate::field::clean_except;
use crate::field::every_tile_has_partner;
use crate::field::field_narrows;
use crate::field::field_valid;
use crate::field::has_support;
use crate::field::lemma_clean_preserved;
use crate::field::lemma_arc_consistent_partners;
use crate::field::lemma_field_narrows_transitive;
use crate::field::lemma_neighbor_in_grid;
use crate::propagation::lemma_propagation_unique;
use crate::field::subfield;
use crate::field::lemma_total_size_shrinks;
use crate::field::narrows;
use crate::field::neighbor_index;
use crate::field::no_empty_cell;
use crate::propagation::propagate_at;
use crate::propagation::propagated;
use crate::field::solvable;
use crate::field::supported;
use crate::field::total_size;
use crate::random::draw_u32;
use crate::random::draw_usize;
use crate::random::lemma_prefix_sum_positive;
use crate::random::lemma_weighted_choice_exists;
use crate::random::uniform_choice;
use crate::random::weighted_choice;
use crate::random::weighted_index;
use crate::rules::RuleTable;
use crate::wfc::WFCParameters;
use rand::rngs::StdRng;
use vstd::prelude::*;

verus! {

/// The cell that holds every tile: the ids from 0 up to `count`, in order.
pub open spec fn full_cell(count: nat) -> Seq<usize> {
    Seq::new(count, |i: int| i as usize)
}

/// The field of `cells` cells in which everything is still possible.
pub open spec fn full_field(cells: nat, count: nat) -> Seq<Seq<usize>> {
    Seq::new(cells, |i: int| full_cell(count))
}

/// The indices from 0 up to `n`, in order.
pub open spec fn all_indices(n: nat) -> Seq<usize> {
    Seq::new(n, |i: int| i as usize)
}

/// Whether a cell is undetermined: it holds more than one tile.
pub open spec fn is_open(cells: Seq<Seq<usize>>) -> spec_fn(usize) -> bool {
    |c: usize| cells[c as int].len() > 1
}

/// The indices of the undetermined cells, in order.
pub open spec fn undetermined_spec(cells: Seq<Seq<usize>>) -> Seq<usize> {
    all_indices(cells.len()).filter(is_open(cells))
}

/// No cell is undetermined: each holds one tile, or none.
pub open spec fn is_done(cells: Seq<Seq<usize>>) -> bool {
    forall|i: int| 0 <= i < cells.len() ==> (#[trigger] cells[i]).len() <= 1
}

/// The frequencies of the tiles of a cell, in the order of the tiles.
pub open spec fn cell_weights(cell: Seq<usize>, frequencies: Seq<u32>) -> Seq<u32> {
    Seq::new(cell.len(), |k: int| frequencies[cell[k] as int])
}

/// The cell that a step collapses: among the undetermined cells of lowest
/// entropy, the one that the drawn number `r_cell` picks.
pub open spec fn chosen_cell(cells: Seq<Seq<usize>>, frequencies: Seq<u32>, r_cell: int) -> int {
    let lowest = lowest_entropy_spec(cells, undetermined_spec(cells), frequencies);
    lowest[uniform_choice(r_cell, lowest.len() as int)] as int
}

/// The tile on which a step settles the cell: the one that the drawn number
/// `r_tile` picks by the frequencies of the tiles of the cell.
pub open spec fn chosen_tile(
    cells: Seq<Seq<usize>>,
    frequencies: Seq<u32>,
    cell: int,
    r_tile: int,
) -> usize {
    cells[cell][weighted_choice(cell_weights(cells[cell], frequencies), r_tile)]
}

/// The field after `cell` was settled on `tile`, before anything is
/// propagated.
pub open spec fn collapse_spec(cells: Seq<Seq<usize>>, cell: int, tile: usize) -> Seq<Seq<usize>> {
    cells.update(cell, seq![tile])
}

/// The field from which the propagation of a step starts.
pub open spec fn step_start(
    cells: Seq<Seq<usize>>,
    frequencies: Seq<u32>,
    r_cell: int,
    r_tile: int,
) -> Seq<Seq<usize>> {
    let cell = chosen_cell(cells, frequencies, r_cell);
    collapse_spec(cells, cell, chosen_tile(cells, frequencies, cell, r_tile))
}

/// The undetermined cells are cells of the field with more than one tile,
/// and there is none exactly if the field is done.
pub proof fn lemma_undetermined(cells: Seq<Seq<usize>>)
    requires
        cells.len() <= usize::MAX,
    ensures
        forall|k: int|
            0 <= k < undetermined_spec(cells).len() ==> (#[trigger] undetermined_spec(cells)[k])
                < cells.len() && cells[undetermined_spec(cells)[k] as int].len() > 1,
        undetermined_spec(cells).len() == 0 <==> is_done(cells),
{
    let all = all_indices(cells.len());
    let pred = is_open(cells);
    let open = undetermined_spec(cells);
    assert forall|k: int| 0 <= k < open.len() implies (#[trigger] open[k]) < cells.len()
        && cells[open[k] as int].len() > 1 by {
        all.lemma_filter_pred(pred, k);
        assert(open.contains(open[k]));
        all.lemma_filter_contains_rev(pred, open[k]);
        let i = choose|i: int| 0 <= i < all.len() && all[i] == open[k];
        assert(all[i] == i);
    }
    if !is_done(cells) {
        let i = choose|i: int| 0 <= i < cells.len() && (#[trigger] cells[i]).len() > 1;
        assert(all[i] == i as usize);
        assert(pred(all[i]));
        all.lemma_filter_contains(pred, i);
    }
    if open.len() > 0 {
        assert(cells[open[0] as int].len() > 1);
    }
}

/// In a field where everything is still possible, every cell supports its
/// neighbours, provided the rules rule out no tile from the start.
pub proof fn lemma_full_field_arc_consistent(rules: RuleTable, w: int, h: int)
    requires
        0 < w,
        0 < h,
        rules.count() <= usize::MAX,
        rules.supportive(),
    ensures
        arc_consistent(full_field((w * h) as nat, rules.count()), rules, w, h),
{
    let f = full_field((w * h) as nat, rules.count());
    let cell = full_cell(rules.count());
    assert forall|p: int| 0 <= p < w * h implies #[trigger] clean(f, rules, w, h, p) by {
        assert forall|d: int| 0 <= d < 4 implies #[trigger] supported(f, rules, w, h, p, d) by {
            let q = neighbor_index(w, h, p, d);
            lemma_neighbor_in_grid(w, h, p, d);
            assert forall|j: int| 0 <= j < f[q].len() implies has_support(
                rules,
                f[p],
                d,
                #[trigger] f[q][j],
            ) by {
                assert(rules.has_supporter(d, j));
                let a = choose|a: int| 0 <= a < rules.count() && rules.allowed(d, a, j);
                assert(cell[a] == a as usize);
                assert(rules.allowed(d, f[p][a] as int, f[q][j] as int));
            }
        }
    }
}

/// Settling a cell on one of its tiles only loses tiles, keeps the field
/// valid, and leaves every other cell in support of its neighbours.
pub proof fn lemma_collapse(
    cells: Seq<Seq<usize>>,
    rules: RuleTable,
    w: int,
    h: int,
    count: int,
    cell: int,
    k: int,
)
    requires
        field_valid(cells, w, h, count),
        0 <= cell < cells.len(),
        cells[cell].len() > 1,
        0 <= k < cells[cell].len(),
    ensures
        field_valid(collapse_spec(cells, cell, cells[cell][k]), w, h, count),
        field_narrows(cells, collapse_spec(cells, cell, cells[cell][k])),
        total_size(collapse_spec(cells, cell, cells[cell][k])) < total_size(cells),
        no_empty_cell(cells) ==> no_empty_cell(collapse_spec(cells, cell, cells[cell][k])),
        arc_consistent(cells, rules, w, h) ==> clean_except(
            collapse_spec(cells, cell, cells[cell][k]),
            rules,
            w,
            h,
            cell,
        ),
{
    let tile = cells[cell][k];
    let after = collapse_spec(cells, cell, tile);
    assert forall|i: int| 0 <= i < cells.len() implies #[trigger] narrows(cells[i], after[i]) by {
        if i == cell {
            assert forall|t: usize| #[trigger] after[i].contains(t) implies cells[i].contains(t) by {
                let j = choose|j: int| 0 <= j < after[i].len() && after[i][j] == t;
                assert(cells[i][k] == t);
            }
        }
    }
    assert forall|i: int, j: int| 0 <= i < after.len() && 0 <= j < after[i].len() implies #[trigger] after[i][j]
        < count by {
        if i == cell {
            assert(cells[cell][k] < count);
        } else {
            assert(cells[i][j] < count);
        }
    }
    assert forall|i: int| 0 <= i < cells.len() implies after[i].len() <= cells[i].len() by {
        assert(narrows(cells[i], after[i]));
    }
    lemma_total_size_shrinks(cells, after, cell);
    if no_empty_cell(cells) {
        assert forall|i: int| 0 <= i < after.len() implies (#[trigger] after[i]).len() > 0 by {
            if i != cell {
                assert(cells[i].len() > 0);
            }
        }
    }
    if arc_consistent(cells, rules, w, h) {
        assert forall|c: int| 0 <= c < w * h && c != cell implies #[trigger] clean(
            after,
            rules,
            w,
            h,
            c,
        ) by {
            assert(clean(cells, rules, w, h, c));
            lemma_clean_preserved(cells, after, rules, w, h, c);
        }
    }
}

/// On a field that is not done, the numbers drawn choose an undetermined
/// cell of the field and one of its tiles.
pub proof fn lemma_step_choice(
    cells: Seq<Seq<usize>>,
    frequencies: Seq<u32>,
    r_cell: int,
    r_tile: int,
)
    requires
        cells.len() <= usize::MAX,
        !is_done(cells),
        forall|i: int, k: int|
            0 <= i < cells.len() && 0 <= k < cells[i].len() ==> #[trigger] cells[i][k]
                < frequencies.len(),
        forall|i: int| 0 <= i < frequencies.len() ==> #[trigger] frequencies[i] >= 1,
        0 <= r_cell,
        0 <= r_tile,
    ensures
        0 <= chosen_cell(cells, frequencies, r_cell) < cells.len(),
        cells[chosen_cell(cells, frequencies, r_cell)].len() > 1,
        cells[chosen_cell(cells, frequencies, r_cell)].contains(
            chosen_tile(cells, frequencies, chosen_cell(cells, frequencies, r_cell), r_tile),
        ),
{
    let open = undetermined_spec(cells);
    let lowest = lowest_entropy_spec(cells, open, frequencies);
    lemma_undetermined(cells);
    lemma_lowest_entropy_nonempty(cells, open, frequencies);
    let pick = uniform_choice(r_cell, lowest.len() as int);
    assert(0 <= pick < lowest.len()) by (nonlinear_arith)
        requires
            pick == r_cell % (lowest.len() as int),
            lowest.len() > 0,
            0 <= r_cell,
    ;
    assert(open.contains(lowest[pick]));
    let j = choose|j: int| 0 <= j < open.len() && open[j] == lowest[pick];
    assert(open[j] < cells.len() && cells[open[j] as int].len() > 1);
    let cell = chosen_cell(cells, frequencies, r_cell);
    let weights = cell_weights(cells[cell], frequencies);
    assert forall|i: int| 0 <= i < weights.len() implies weights[i] >= 1 by {
        assert(cells[cell][i] < frequencies.len());
    }
    lemma_prefix_sum_positive(weights, weights.len() as int);
    lemma_weighted_choice_exists(weights, r_tile);
}

/// A step has one outcome: the same field, the same parameters and the
/// same numbers drawn lead to the same result and, where the step succeeds,
/// to the same tiles in every cell. This holds of every field without an
/// empty cell that is arc-consistent.
pub proof fn lemma_step_deterministic(
    before: FieldView,
    first: FieldView,
    first_res: Result<(), WfcError>,
    second: FieldView,
    second_res: Result<(), WfcError>,
    params: WFCParameters,
    r_cell: int,
    r_tile: int,
)
    requires
        field_valid(
            before.cells,
            before.width as int,
            before.height as int,
            before.tile_count as int,
        ),
        before.cells.len() <= usize::MAX,
        params.wf(),
        params.count() == before.tile_count,
        no_empty_cell(before.cells),
        arc_consistent(
            before.cells,
            params.wfc_rules,
            before.width as int,
            before.height as int,
        ),
        0 <= r_cell,
        0 <= r_tile,
        step_outcome(before, first, first_res, params, r_cell, r_tile),
        step_outcome(before, second, second_res, params, r_cell, r_tile),
    ensures
        first_res is Ok <==> second_res is Ok,
        first_res is Ok ==> subfield(first.cells, second.cells) && subfield(
            second.cells,
            first.cells,
        ),
{
    let w = before.width as int;
    let h = before.height as int;
    if is_done(before.cells) {
        assert forall|i: int, t: usize|
            0 <= i < first.cells.len() && #[trigger] first.cells[i].contains(t) implies second.cells[i].contains(
            t,
        ) by {}
    } else {
        let frequencies = params.wfc_frequency@;
        assert forall|i: int, k: int|
            0 <= i < before.cells.len() && 0 <= k < before.cells[i].len() implies #[trigger] before.cells[i][k]
            < frequencies.len() by {}
        lemma_step_choice(before.cells, frequencies, r_cell, r_tile);
        let cell = chosen_cell(before.cells, frequencies, r_cell);
        let tile = chosen_tile(before.cells, frequencies, cell, r_tile);
        let k = choose|k: int| 0 <= k < before.cells[cell].len() && before.cells[cell][k] == tile;
        lemma_collapse(
            before.cells,
            params.wfc_rules,
            w,
            h,
            before.tile_count as int,
            cell,
            k,
        );
        lemma_propagation_unique(
            step_start(before.cells, frequencies, r_cell, r_tile),
            first.cells,
            first_res is Err,
            second.cells,
            second_res is Err,
            params.wfc_rules,
            w,
            h,
            cell,
        );
    }
}

/// What a field holds: its dimensions, the number of tiles, and for each
/// cell, row by row, the tiles that are still possible there.
pub struct FieldView {
    pub width: nat,
    pub height: nat,
    pub tile_count: nat,
    pub cells: Seq<Seq<usize>>,
}

/// The state of a generation: the superposition of every cell of the
/// output grid.
pub struct SuperpositionField {
    cells: Vec<Vec<usize>>,
    width: usize,
    height: usize,
    tile_count: usize,
}

impl View for SuperpositionField {
    type V = FieldView;

    closed spec fn view(&self) -> FieldView {
        FieldView {
            width: self.width as nat,
            height: self.height as nat,
            tile_count: self.tile_count as nat,
            cells: cells_view(self.cells@),
        }
    }
}

/// What one step makes of a field, given the two numbers that it draws.
///
/// A field that is done stays as it is. Otherwise the step settles the
/// chosen cell on the chosen tile and propagates from there: see
/// [`propagated`]. The step fails exactly if the propagation does.
pub open spec fn step_outcome(
    before: FieldView,
    after: FieldView,
    res: Result<(), WfcError>,
    params: WFCParameters,
    r_cell: int,
    r_tile: int,
) -> bool {
    if is_done(before.cells) {
        res is Ok && after == before
    } else {
        propagated(
            step_start(before.cells, params.wfc_frequency@, r_cell, r_tile),
            after.cells,
            res is Err,
            params.wfc_rules,
            before.width as int,
            before.height as int,
            chosen_cell(before.cells, params.wfc_frequency@, r_cell),
        )
    }
}

/// What every step keeps, whatever it draws.
///
/// The field never gains a tile, and a step on a field that is not done
/// takes at least one away. The only failure is a contradiction. A step
/// that succeeds empties no cell where none was empty before, and leaves
/// an arc-consistent field arc-consistent; under rules that read the same
/// in both ways, every tile of every cell then allows, in every direction,
/// some tile of the neighbour there.
pub open spec fn step_keeps(
    before: FieldView,
    after: FieldView,
    res: Result<(), WfcError>,
    params: WFCParameters,
) -> bool {
    let w = before.width as int;
    let h = before.height as int;
    &&& after.width == before.width
    &&& after.height == before.height
    &&& after.tile_count == before.tile_count
    &&& field_narrows(before.cells, after.cells)
    &&& !is_done(before.cells) ==> total_size(after.cells) < total_size(before.cells)
    &&& res matches Err(e) ==> e == WfcError::Contradiction
    &&& res is Ok && no_empty_cell(before.cells) ==> no_empty_cell(after.cells)
    &&& res is Ok && arc_consistent(before.cells, params.wfc_rules, w, h) ==> arc_consistent(
        after.cells,
        params.wfc_rules,
        w,
        h,
    )
    &&& res is Ok && arc_consistent(before.cells, params.wfc_rules, w, h)
        && params.wfc_rules.symmetric() ==> every_tile_has_partner(
        after.cells,
        params.wfc_rules,
        w,
        h,
    )
}

impl SuperpositionField {
    /// The field has one cell per coordinate, and every tile id in it is
    /// below the number of tiles.
    pub open spec fn wf(&self) -> bool {
        field_valid(
            self@.cells,
            self@.width as int,
            self@.height as int,
            self@.tile_count as int,
        )
    }

    /// The field fits the parameters: both speak of the same tiles.
    pub open spec fn fits(&self, params: WFCParameters) -> bool {
        params.wf() && params.count() == self@.tile_count
    }

    /// A fresh field of `width` by `height` cells in which every cell holds
    /// all `tile_count` tiles. A grid without cells is refused.
    pub fn new(width: usize, height: usize, tile_count: usize) -> (res: Result<Self, WfcError>)
        ensures
            match res {
                Ok(field) => {
                    &&& width > 0 && height > 0 && width * height <= usize::MAX
                    &&& field.wf()
                    &&& field@.width == width
                    &&& field@.height == height
                    &&& field@.tile_count == tile_count
                    &&& field@.cells == full_field((width * height) as nat, tile_count as nat)
                },
                Err(e) => if width == 0 || height == 0 {
                    e == WfcError::EmptyGrid
                } else {
                    e == WfcError::TooLarge && width * height > usize::MAX
                },
            },
    {
        if width == 0 || height == 0 {
            return Err(WfcError::EmptyGrid);
        }
        let count = match width.checked_mul(height) {
            Some(count) => count,
            None => {
                return Err(WfcError::TooLarge);
            },
        };
        let cells = Self::full_cells(count, tile_count);
        Ok(SuperpositionField { cells, width, height, tile_count })
    }

    /// `count` cells that each hold all `tile_count` tiles.
    fn full_cells(count: usize, tile_count: usize) -> (cells: Vec<Vec<usize>>)
        ensures
            cells_view(cells@) == full_field(count as nat, tile_count as nat),
    {
        let mut cells: Vec<Vec<usize>> = Vec::new();
        let mut i: usize = 0;
        while i < count
            invariant
                i <= count,
                cells@.len() == i,
                forall|c: int| 0 <= c < i ==> (#[trigger] cells@[c])@ == full_cell(tile_count as nat),
            decreases count - i,
        {
            let mut cell: Vec<usize> = Vec::new();
            let mut t: usize = 0;
            while t < tile_count
                invariant
                    t <= tile_count,
                    cell@.len() == t,
                    forall|k: int| 0 <= k < t ==> cell@[k] == k,
                decreases tile_count - t,
            {
                cell.push(t);
                t = t + 1;
            }
            assert(cell@ =~= full_cell(tile_count as nat));
            cells.push(cell);
            i = i + 1;
        }
        assert(cells_view(cells@) =~= full_field(count as nat, tile_count as nat));
        cells
    }

    /// Puts the field back to where everything is possible.
    pub fn reset(&mut self)
        requires
            old(self).wf(),
        ensures
            final(self).wf(),
            final(self)@.width == old(self)@.width,
            final(self)@.height == old(self)@.height,
            final(self)@.tile_count == old(self)@.tile_count,
            final(self)@.cells == full_field(
                (old(self)@.width * old(self)@.height) as nat,
                old(self)@.tile_count,
            ),
    {
        let count = self.cells.len();
        assert(self@.cells.len() == count);
        self.cells = Self::full_cells(count, self.tile_count);
    }

    /// The number of cells in a row.
    pub fn width(&self) -> (w: usize)
        ensures
            w == self@.width,
    {
        self.width
    }

    /// The number of rows.
    pub fn height(&self) -> (h: usize)
        ensures
            h == self@.height,
    {
        self.height
    }

    /// The cells, row by row.
    pub fn cells(&self) -> (cells: &[Vec<usize>])
        ensures
            cells_view(cells@) == self@.cells,
    {
        self.cells.as_slice()
    }

    /// The indices of the undetermined cells, in order.
    pub fn undetermined(&self) -> (open: Vec<usize>)
        ensures
            open@ == undetermined_spec(self@.cells),
    {
        let ghost cells = cells_view(self.cells@);
        let ghost all = all_indices(cells.len());
        let ghost pred = is_open(cells);
        let mut open: Vec<usize> = Vec::new();
        let mut i: usize = 0;
        proof {
            reveal(Seq::filter);
            assert(all.take(0) =~= Seq::<usize>::empty());
        }
        while i < self.cells.len()
            invariant
                cells == cells_view(self.cells@),
                all == all_indices(cells.len()),
                pred == is_open(cells),
                i <= self.cells@.len(),
                open@ == all.take(i as int).filter(pred),
            decreases self.cells@.len() - i,
        {
            proof {
                reveal(Seq::filter);
                assert(all.take(i + 1).drop_last() =~= all.take(i as int));
                assert(all.take(i + 1).last() == i);
                assert(cells[i as int] == self.cells@[i as int]@);
            }
            if self.cells[i].len() > 1 {
                open.push(i);
            }
            i = i + 1;
        }
        assert(all.take(all.len() as int) =~= all);
        open
    }

    /// Whether no undetermined cell remains.
    pub fn done(&self) -> (finished: bool)
        ensures
            finished == is_done(self@.cells),
    {
        let ghost cells = cells_view(self.cells@);
        let mut i: usize = 0;
        while i < self.cells.len()
            invariant
                cells == cells_view(self.cells@),
                i <= self.cells@.len(),
                forall|c: int| 0 <= c < i ==> (#[trigger] cells[c]).len() <= 1,
            decreases self.cells@.len() - i,
        {
            assert(cells[i as int] == self.cells@[i as int]@);
            if self.cells[i].len() > 1 {
                return false;
            }
            i = i + 1;
        }
        true
    }

    /// Settles the cell `cell` on `chosen_tile`, one of its tiles.
    pub fn collapse(&mut self, cell: usize, chosen_tile: usize)
        requires
            old(self).wf(),
            cell < old(self)@.cells.len(),
            old(self)@.cells[cell as int].contains(chosen_tile),
        ensures
            final(self).wf(),
            final(self)@ == (FieldView {
                cells: collapse_spec(old(self)@.cells, cell as int, chosen_tile),
                ..old(self)@
            }),
    {
        let ghost before = self@.cells;
        let mut single: Vec<usize> = Vec::new();
        single.push(chosen_tile);
        self.cells[cell] = single;
        proof {
            let after = collapse_spec(before, cell as int, chosen_tile);
            assert(single@ =~= seq![chosen_tile]);
            assert(cells_view(self.cells@) =~= after);
            let k = choose|k: int| 0 <= k < before[cell as int].len() && before[cell as int][k]
                == chosen_tile;
            assert forall|i: int, j: int|
                0 <= i < after.len() && 0 <= j < after[i].len() implies #[trigger] after[i][j]
                < self.tile_count by {
                if i == cell {
                    assert(before[cell as int][k] < self.tile_count);
                } else {
                    assert(before[i][j] < self.tile_count);
                }
            }
        }
    }

    /// The frequencies of the tiles of the cell `cell`.
    fn weights_of(&self, cell: usize, frequencies: &Vec<u32>) -> (weights: Vec<u32>)
        requires
            cell < self@.cells.len(),
            forall|k: int|
                0 <= k < self@.cells[cell as int].len() ==> self@.cells[cell as int][k]
                    < frequencies@.len(),
        ensures
            weights@ == cell_weights(self@.cells[cell as int], frequencies@),
    {
        let ghost tiles = self@.cells[cell as int];
        assert(tiles == self.cells@[cell as int]@);
        let mut weights: Vec<u32> = Vec::new();
        let mut k: usize = 0;
        while k < self.cells[cell].len()
            invariant
                cell < self.cells@.len(),
                tiles == self.cells@[cell as int]@,
                forall|i: int| 0 <= i < tiles.len() ==> tiles[i] < frequencies@.len(),
                k <= tiles.len(),
                weights@.len() == k,
                forall|i: int| 0 <= i < k ==> weights@[i] == frequencies@[tiles[i] as int],
            decreases tiles.len() - k,
        {
            weights.push(frequencies[self.cells[cell][k]]);
            k = k + 1;
        }
        assert(weights@ =~= cell_weights(tiles, frequencies@));
        weights
    }

    /// One step of the generation with the two drawn numbers given: see
    /// [`step_outcome`]. The field never gains a tile; a step on a field
    /// that is not done takes at least one tile away; a step that succeeds
    /// on an arc-consistent field leaves it arc-consistent, and leaves no
    /// cell empty where none was empty before.
    pub fn step_with(&mut self, params: &WFCParameters, r_cell: usize, r_tile: u32) -> (res: Result<
        (),
        WfcError,
    >)
        requires
            old(self).wf(),
            old(self).fits(*params),
        ensures
            final(self).wf(),
            step_outcome(old(self)@, final(self)@, res, *params, r_cell as int, r_tile as int),
            step_keeps(old(self)@, final(self)@, res, *params),
            !is_done(old(self)@.cells) && no_empty_cell(old(self)@.cells) && arc_consistent(
                old(self)@.cells,
                params.wfc_rules,
                old(self)@.width as int,
                old(self)@.height as int,
            ) ==> (res is Err <==> !solvable(
                step_start(old(self)@.cells, params.wfc_frequency@, r_cell as int, r_tile as int),
                params.wfc_rules,
                old(self)@.width as int,
                old(self)@.height as int,
            )),
    {
        let ghost before = self@.cells;
        let ghost w = self.width as int;
        let ghost h = self.height as int;
        let ghost count = self.tile_count as int;
        let ghost frequencies = params.wfc_frequency@;
        let open = self.undetermined();
        proof {
            assert(before.len() == self.cells.len());
            lemma_undetermined(before);
            assert forall|i: int| 0 <= i < before.len() implies #[trigger] narrows(
                before[i],
                before[i],
            ) by {}
        }
        if open.len() == 0 {
            proof {
                if arc_consistent(before, params.wfc_rules, w, h) && params.wfc_rules.symmetric() {
                    lemma_arc_consistent_partners(before, params.wfc_rules, w, h);
                }
            }
            return Ok(());
        }
        assert forall|i: int, k: int|
            0 <= i < self.cells@.len() && 0 <= k < self.cells@[i]@.len() implies #[trigger] self.cells@[i]@[k]
            < params.wfc_frequency@.len() by {
            assert(before[i][k] < count);
        }
        let lowest = lowest_entropy(
            self.cells.as_slice(),
            open.as_slice(),
            params.wfc_frequency.as_slice(),
        );
        proof {
            lemma_lowest_entropy_nonempty(before, open@, frequencies);
        }
        let pick = r_cell % lowest.len();
        assert(pick == uniform_choice(r_cell as int, lowest@.len() as int));
        let cell = lowest[pick];
        proof {
            assert(open@.contains(lowest@[pick as int]));
            let k = choose|k: int| 0 <= k < open@.len() && open@[k] == cell;
            assert(open@[k] < before.len() && before[open@[k] as int].len() > 1);
            assert(cell as int == chosen_cell(before, frequencies, r_cell as int));
        }
        assert forall|k: int| 0 <= k < self@.cells[cell as int].len() implies self@.cells[cell as int][k]
            < params.wfc_frequency@.len() by {
            assert(before[cell as int][k] < count);
        }
        let weights = self.weights_of(cell, &params.wfc_frequency);
        proof {
            assert forall|i: int| 0 <= i < weights@.len() implies weights@[i] >= 1 by {
                assert(before[cell as int][i] < count);
                assert(frequencies[before[cell as int][i] as int] >= 1);
            }
            lemma_prefix_sum_positive(weights@, weights@.len() as int);
        }
        let k = weighted_index(weights.as_slice(), r_tile);
        assert(before[cell as int] == self.cells@[cell as int]@);
        let tile = self.cells[cell][k];
        let mut single: Vec<usize> = Vec::new();
        single.push(tile);
        self.cells[cell] = single;
        let ghost start = collapse_spec(before, cell as int, tile);
        proof {
            assert(tile == chosen_tile(before, frequencies, cell as int, r_tile as int));
            assert(single@ =~= seq![tile]);
            assert(cells_view(self.cells@) =~= start);
            assert(start == step_start(before, frequencies, r_cell as int, r_tile as int));
            lemma_collapse(before, params.wfc_rules, w, h, count, cell as int, k as int);
            lemma_neighbor_in_grid(w, h, cell as int, 0);
        }
        let x = cell % self.width;
        let y = cell / self.width;
        let failed = propagate_at(
            self.cells.as_mut_slice(),
            &params.wfc_rules,
            x,
            y,
            self.width,
            self.height,
        );
        proof {
            let after = cells_view(self.cells@);
            lemma_field_narrows_transitive(before, start, after);
            assert forall|i: int| 0 <= i < start.len() implies after[i].len() <= start[i].len() by {
                assert(narrows(start[i], after[i]));
            }
            lemma_total_size_shrinks(start, after, -1);
            if !failed && arc_consistent(before, params.wfc_rules, w, h)
                && params.wfc_rules.symmetric() {
                lemma_arc_consistent_partners(after, params.wfc_rules, w, h);
            }
        }
        if failed {
            Err(WfcError::Contradiction)
        } else {
            Ok(())
        }
    }

    /// One step of the generation: if an undetermined cell remains, draws
    /// two numbers from the generator and does with them what
    /// [`SuperpositionField::step_with`] does. On a field that is done,
    /// nothing is drawn and nothing changes.
    pub fn step(&mut self, params: &WFCParameters, rng: &mut StdRng) -> (res: Result<(), WfcError>)
        requires
            old(self).wf(),
            old(self).fits(*params),
        ensures
            final(self).wf(),
            exists|r_cell: usize, r_tile: u32|
                step_outcome(
                    old(self)@,
                    final(self)@,
                    res,
                    *params,
                    r_cell as int,
                    r_tile as int,
                ),
            step_keeps(old(self)@, final(self)@, res, *params),
    {
        if self.done() {
            let res = self.step_with(params, 0, 0);
            assert(step_outcome(old(self)@, self@, res, *params, 0usize as int, 0u32 as int));
            return res;
        }
        let r_cell = draw_usize(rng);
        let r_tile = draw_u32(rng);
        let res = self.step_with(params, r_cell, r_tile);
        assert(step_outcome(old(self)@, self@, res, *params, r_cell as int, r_tile as int));
        res
    }
}

} // verus!
