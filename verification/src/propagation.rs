//! Propagation of constraints: after a cell has changed, its neighbours lose
//! the tiles that it no longer allows, and so on from every neighbour that
//! lost a tile, until nothing changes or a cell is left empty.

use crate::field::arc_consistent;
use crate::field::cell_index;
use crate::field::cells_view;
use crate::field::clean;
use crate::field::clean_except;
use crate::field::field_narrows;
use crate::field::field_valid;
use crate::field::has_empty_cell;
use crate::field::has_support;
use crate::field::is_neighbor_upto;
use crate::field::keeps_consistent_subfields;
use crate::field::lemma_cell_index;
use crate::field::lemma_clean_preserved;
use crate::field::lemma_empty_cell_unsolvable;
use crate::field::lemma_field_narrows_transitive;
use crate::field::lemma_narrows_is_subfield;
use crate::field::lemma_neighbor_in_grid;
use crate::field::lemma_restrict_keeps_consistent;
use crate::field::lemma_restrict_neighbor;
use crate::field::lemma_restrict_upto;
use crate::field::lemma_total_size_shrinks;
use crate::field::narrows;
use crate::field::neighbor_index;
use crate::field::no_empty_cell;
use crate::field::restrict_neighbor;
use crate::field::restrict_upto;
use crate::field::solvable;
use crate::field::subfield;
use crate::field::support_pred;
use crate::field::support_upto;
use crate::field::supported;
use crate::field::total_size;
use crate::field::update_adjacent_spec;
use crate::image_data::lemma_index_in_grid;
use crate::image_data::wrap_spec;
use crate::rules::RuleTable;
use crate::tile::direction_offset;
use crate::tile::DIRECTIONS;
use vstd::prelude::*;

verus! {

/// Cell `c` waits on the stack to be looked at.
pub open spec fn on_stack(stack: Seq<(usize, usize)>, w: int, c: int) -> bool {
    exists|k: int|
        0 <= k < stack.len() && cell_index(w, (#[trigger] stack[k]).0 as int, stack[k].1 as int) == c
}

/// Cell `c` is settled: it supports all its neighbours, or it is another
/// cell than `p0` and holds what it held before.
pub open spec fn settled_cell(
    before: Seq<Seq<usize>>,
    after: Seq<Seq<usize>>,
    rules: RuleTable,
    w: int,
    h: int,
    p0: int,
    c: int,
) -> bool {
    clean(after, rules, w, h, c) || (c != p0 && after[c] == before[c])
}

/// Every cell is settled: `p0` and every cell that changed support all
/// their neighbours.
pub open spec fn settled(
    before: Seq<Seq<usize>>,
    after: Seq<Seq<usize>>,
    rules: RuleTable,
    w: int,
    h: int,
    p0: int,
) -> bool {
    forall|c: int| 0 <= c < w * h ==> #[trigger] settled_cell(before, after, rules, w, h, p0, c)
}

/// Every cell either waits on the stack or is settled.
pub open spec fn pending_or_settled(
    before: Seq<Seq<usize>>,
    after: Seq<Seq<usize>>,
    rules: RuleTable,
    w: int,
    h: int,
    stack: Seq<(usize, usize)>,
    p0: int,
) -> bool {
    forall|c: int|
        0 <= c < w * h ==> on_stack(stack, w, c) || #[trigger] settled_cell(
            before,
            after,
            rules,
            w,
            h,
            p0,
            c,
        )
}

/// What propagation from cell `p0` makes of a field.
///
/// The field only loses tiles, and none that an arc-consistent subfield
/// could hold. A failure leaves some cell empty. Without a failure, `p0` and
/// every cell that changed support their neighbours, and no cell was
/// emptied. If every cell but `p0` supported its neighbours before, the
/// field is arc-consistent after a success; and if moreover no cell was
/// empty before, propagation fails exactly if the field cannot be narrowed
/// to an arc-consistent field without an empty cell.
pub open spec fn propagated(
    before: Seq<Seq<usize>>,
    after: Seq<Seq<usize>>,
    failed: bool,
    rules: RuleTable,
    w: int,
    h: int,
    p0: int,
) -> bool {
    &&& field_narrows(before, after)
    &&& keeps_consistent_subfields(before, after, rules, w, h)
    &&& failed ==> has_empty_cell(after)
    &&& !failed ==> settled(before, after, rules, w, h, p0)
    &&& !failed && no_empty_cell(before) ==> no_empty_cell(after)
    &&& !failed && clean_except(before, rules, w, h, p0) ==> arc_consistent(after, rules, w, h)
    &&& no_empty_cell(before) && clean_except(before, rules, w, h, p0) ==> (failed <==> !solvable(
        before,
        rules,
        w,
        h,
    ))
}

/// Puts together what propagation has shown of its result.
proof fn lemma_propagated(
    before: Seq<Seq<usize>>,
    after: Seq<Seq<usize>>,
    failed: bool,
    rules: RuleTable,
    w: int,
    h: int,
    p0: int,
)
    requires
        0 < w,
        0 < h,
        before.len() == w * h,
        field_narrows(before, after),
        keeps_consistent_subfields(before, after, rules, w, h),
        failed ==> has_empty_cell(after),
        !failed ==> settled(before, after, rules, w, h, p0),
        !failed && no_empty_cell(before) ==> no_empty_cell(after),
    ensures
        propagated(before, after, failed, rules, w, h, p0),
{
    if failed {
        lemma_empty_cell_unsolvable(before, after, rules, w, h);
    } else if clean_except(before, rules, w, h, p0) {
        assert forall|c: int| 0 <= c < w * h implies #[trigger] clean(after, rules, w, h, c) by {
            assert(settled_cell(before, after, rules, w, h, p0, c));
            if !clean(after, rules, w, h, c) {
                assert(clean(before, rules, w, h, c));
                lemma_clean_preserved(before, after, rules, w, h, c);
            }
        }
        if no_empty_cell(before) {
            lemma_narrows_is_subfield(before, after);
            assert(no_empty_cell(after));
            assert(solvable(before, rules, w, h));
        }
    }
}

/// Propagation has one outcome. Of a field without an empty cell in which
/// every cell but `p0` supports its neighbours, two propagations from `p0`
/// either both fail or both succeed, and if they succeed, they leave the
/// same tiles in every cell.
pub proof fn lemma_propagation_unique(
    before: Seq<Seq<usize>>,
    first: Seq<Seq<usize>>,
    first_failed: bool,
    second: Seq<Seq<usize>>,
    second_failed: bool,
    rules: RuleTable,
    w: int,
    h: int,
    p0: int,
)
    requires
        no_empty_cell(before),
        clean_except(before, rules, w, h, p0),
        propagated(before, first, first_failed, rules, w, h, p0),
        propagated(before, second, second_failed, rules, w, h, p0),
    ensures
        first_failed == second_failed,
        !first_failed ==> subfield(first, second) && subfield(second, first),
{
    if !first_failed {
        lemma_narrows_is_subfield(before, first);
        lemma_narrows_is_subfield(before, second);
    }
}

/// Rules that allow nothing cannot be met: under them, propagation through
/// a field without an empty cell always fails.
pub proof fn lemma_nothing_allowed_fails(
    before: Seq<Seq<usize>>,
    after: Seq<Seq<usize>>,
    failed: bool,
    rules: RuleTable,
    w: int,
    h: int,
    p0: int,
)
    requires
        0 < w,
        0 < h,
        before.len() == w * h,
        0 <= p0 < w * h,
        no_empty_cell(before),
        forall|d: int, a: int, b: int| !#[trigger] rules.allowed(d, a, b),
        propagated(before, after, failed, rules, w, h, p0),
    ensures
        failed,
{
    if !failed {
        let q = neighbor_index(w, h, p0, 0);
        lemma_neighbor_in_grid(w, h, p0, 0);
        assert(settled_cell(before, after, rules, w, h, p0, p0));
        assert(supported(after, rules, w, h, p0, 0));
        assert(after[q].len() > 0);
        assert(has_support(rules, after[p0], 0, after[q][0]));
    }
}

/// Moves a coordinate by one step of a direction, around the edge.
fn neighbor_coordinate(v: usize, step: isize, max: usize) -> (r: usize)
    requires
        v < max,
        -1 <= step <= 1,
    ensures
        r == wrap_spec(v + step, max as int),
        r < max,
{
    if step > 0 {
        if v + 1 == max {
            proof {
                vstd::arithmetic::div_mod::lemma_fundamental_div_mod_converse(
                    v + 1,
                    max as int,
                    1,
                    0,
                );
            }
            0
        } else {
            proof {
                vstd::arithmetic::div_mod::lemma_small_mod((v + 1) as nat, max as nat);
            }
            v + 1
        }
    } else if step < 0 {
        if v == 0 {
            proof {
                vstd::arithmetic::div_mod::lemma_fundamental_div_mod_converse(
                    -1,
                    max as int,
                    -1,
                    max - 1,
                );
            }
            max - 1
        } else {
            proof {
                vstd::arithmetic::div_mod::lemma_small_mod((v - 1) as nat, max as nat);
            }
            v - 1
        }
    } else {
        proof {
            vstd::arithmetic::div_mod::lemma_small_mod(v as nat, max as nat);
        }
        v
    }
}

/// The index of the neighbour of the cell at `(x, y)` in `direction`,
/// together with its coordinates.
fn neighbor_of(
    x: usize,
    y: usize,
    w: usize,
    h: usize,
    direction: usize,
) -> (r: (usize, usize, usize))
    requires
        x < w,
        y < h,
        w * h <= usize::MAX,
        direction < DIRECTIONS,
    ensures
        r.0 < w,
        r.1 < h,
        r.2 == cell_index(w as int, r.0 as int, r.1 as int),
        r.2 == neighbor_index(w as int, h as int, cell_index(w as int, x as int, y as int), direction as int),
        r.2 < w * h,
{
    let offset = direction_offset(direction);
    let nx = neighbor_coordinate(x, offset.0, w);
    let ny = neighbor_coordinate(y, offset.1, h);
    proof {
        lemma_cell_index(w as int, h as int, x as int, y as int);
        lemma_cell_index(w as int, h as int, nx as int, ny as int);
    }
    (nx, ny, nx + ny * w)
}

/// For each tile id, whether some tile of cell `p` allows it as a neighbour
/// in `direction`.
fn allowed_union(cell: &Vec<usize>, direction: usize, rules: &RuleTable) -> (allowed: Vec<bool>)
    requires
        rules.wf(),
        direction < DIRECTIONS,
        forall|k: int| 0 <= k < cell@.len() ==> cell@[k] < rules.count(),
    ensures
        allowed@.len() == rules.count(),
        forall|t: usize|
            t < rules.count() ==> allowed@[t as int] == #[trigger] has_support(
                *rules,
                cell@,
                direction as int,
                t,
            ),
{
    let count = rules.tile_count();
    let mut allowed: Vec<bool> = vec![false; count];
    let mut k: usize = 0;
    while k < cell.len()
        invariant
            rules.wf(),
            direction < DIRECTIONS,
            count == rules.count(),
            forall|i: int| 0 <= i < cell@.len() ==> cell@[i] < rules.count(),
            k <= cell@.len(),
            allowed@.len() == count,
            forall|t: usize|
                t < count ==> allowed@[t as int] == #[trigger] support_upto(
                    *rules,
                    cell@,
                    direction as int,
                    t,
                    k as int,
                ),
        decreases cell@.len() - k,
    {
        let tile = cell[k];
        let mut t2: usize = 0;
        while t2 < count
            invariant
                rules.wf(),
                direction < DIRECTIONS,
                count == rules.count(),
                k < cell@.len(),
                tile == cell@[k as int],
                tile < rules.count(),
                t2 <= count,
                allowed@.len() == count,
                forall|t: usize|
                    t < t2 ==> allowed@[t as int] == #[trigger] support_upto(
                        *rules,
                        cell@,
                        direction as int,
                        t,
                        k + 1,
                    ),
                forall|t: usize|
                    t2 <= t < count ==> allowed@[t as int] == #[trigger] support_upto(
                        *rules,
                        cell@,
                        direction as int,
                        t,
                        k as int,
                    ),
            decreases count - t2,
        {
            let ok = rules.okay(direction, tile, t2);
            let before = allowed[t2];
            allowed[t2] = before || ok;
            proof {
                let d = direction as int;
                assert(before == support_upto(*rules, cell@, d, t2, k as int));
                if before {
                    let k0 = choose|k0: int|
                        0 <= k0 < k && k0 < cell@.len() && #[trigger] rules.allowed(
                            d,
                            cell@[k0] as int,
                            t2 as int,
                        );
                    assert(rules.allowed(d, cell@[k0] as int, t2 as int));
                }
                if ok {
                    assert(rules.allowed(d, cell@[k as int] as int, t2 as int));
                }
                assert((before || ok) == support_upto(*rules, cell@, d, t2, k + 1));
            }
            t2 = t2 + 1;
        }
        k = k + 1;
    }
    allowed
}

/// The tiles of `cell` that `allowed` admits, in their order.
fn retain_allowed(
    cell: &Vec<usize>,
    allowed: &Vec<bool>,
    Ghost(pred): Ghost<spec_fn(usize) -> bool>,
) -> (kept: Vec<usize>)
    requires
        forall|k: int| 0 <= k < cell@.len() ==> cell@[k] < allowed@.len(),
        forall|t: usize| t < allowed@.len() ==> allowed@[t as int] == pred(t),
    ensures
        kept@ == cell@.filter(pred),
{
    let mut kept: Vec<usize> = Vec::new();
    let mut j: usize = 0;
    proof {
        reveal(Seq::filter);
        assert(cell@.take(0) =~= Seq::<usize>::empty());
    }
    while j < cell.len()
        invariant
            forall|k: int| 0 <= k < cell@.len() ==> cell@[k] < allowed@.len(),
            forall|t: usize| t < allowed@.len() ==> allowed@[t as int] == pred(t),
            j <= cell@.len(),
            kept@ == cell@.take(j as int).filter(pred),
        decreases cell@.len() - j,
    {
        let tile = cell[j];
        proof {
            reveal(Seq::filter);
            assert(cell@.take(j + 1).drop_last() =~= cell@.take(j as int));
            assert(cell@.take(j + 1).last() == tile);
        }
        if allowed[tile] {
            kept.push(tile);
        }
        j = j + 1;
    }
    assert(cell@.take(cell@.len() as int) =~= cell@);
    kept
}

/// Restricts each of the four neighbours of the cell at `(x, y)` to the
/// tiles that some tile of the cell allows there, one direction after the
/// other.
pub fn update_adjacent_tiles(
    superpositions: &mut [Vec<usize>],
    x: isize,
    y: isize,
    w: usize,
    h: usize,
    rules: &RuleTable,
)
    requires
        rules.wf(),
        field_valid(cells_view(old(superpositions)@), w as int, h as int, rules.count() as int),
        0 <= x < w,
        0 <= y < h,
    ensures
        cells_view(final(superpositions)@) == update_adjacent_spec(
            cells_view(old(superpositions)@),
            *rules,
            w as int,
            h as int,
            cell_index(w as int, x as int, y as int),
        ),
{
    update_adjacent_at(superpositions, x as usize, y as usize, w, h, rules);
}

/// The same with unsigned coordinates.
fn update_adjacent_at(
    superpositions: &mut [Vec<usize>],
    ux: usize,
    uy: usize,
    w: usize,
    h: usize,
    rules: &RuleTable,
)
    requires
        rules.wf(),
        field_valid(cells_view(old(superpositions)@), w as int, h as int, rules.count() as int),
        ux < w,
        uy < h,
    ensures
        cells_view(final(superpositions)@) == update_adjacent_spec(
            cells_view(old(superpositions)@),
            *rules,
            w as int,
            h as int,
            cell_index(w as int, ux as int, uy as int),
        ),
{
    let ghost x = ux as int;
    let ghost y = uy as int;
    let ghost start = cells_view(superpositions@);
    let ghost p = cell_index(w as int, x, y);
    let ghost count = rules.count() as int;
    proof {
        lemma_cell_index(w as int, h as int, x, y);
        lemma_index_in_grid(x, y, w as int, h as int);
        assert(superpositions.len() == w * h);
    }
    let here: usize = ux + uy * w;
    let mut direction: usize = 0;
    while direction < DIRECTIONS
        invariant
            rules.wf(),
            count == rules.count(),
            ux == x,
            uy == y,
            ux < w,
            uy < h,
            w * h <= usize::MAX,
            here == p,
            p == cell_index(w as int, x, y),
            0 <= p < w * h,
            direction <= DIRECTIONS,
            field_valid(start, w as int, h as int, count),
            field_valid(cells_view(superpositions@), w as int, h as int, count),
            cells_view(superpositions@) == restrict_upto(
                start,
                *rules,
                w as int,
                h as int,
                p,
                direction as nat,
            ),
        decreases DIRECTIONS - direction,
    {
        let ghost before = cells_view(superpositions@);
        let (_, _, index) = neighbor_of(ux, uy, w, h, direction);
        assert(before[here as int] == superpositions@[here as int]@);
        assert forall|k: int| 0 <= k < superpositions@[here as int]@.len() implies superpositions@[here as int]@[k]
            < rules.count() by {
            assert(before[here as int][k] < count);
        }
        let allowed = allowed_union(&superpositions[here], direction, rules);
        let ghost pred = support_pred(*rules, before[here as int], direction as int);
        assert(before[index as int] == superpositions@[index as int]@);
        assert forall|k: int| 0 <= k < superpositions@[index as int]@.len() implies superpositions@[index as int]@[k]
            < allowed@.len() by {
            assert(before[index as int][k] < count);
        }
        let updated = retain_allowed(&superpositions[index], &allowed, Ghost(pred));
        superpositions[index] = updated;
        proof {
            lemma_restrict_neighbor(before, *rules, w as int, h as int, count, p, direction as int);
            assert(cells_view(superpositions@) =~= restrict_neighbor(
                before,
                *rules,
                w as int,
                h as int,
                p,
                direction as int,
            ));
        }
        direction = direction + 1;
    }
}

/// Propagates the change of the cell at `(x, y)` through the field: the
/// neighbours of a changed cell lose the tiles that it no longer allows,
/// until nothing changes any more or a cell is left without a tile.
///
/// Returns `true` on such a contradiction; the field is then no longer of
/// use. What holds of the field after is said by [`propagated`].
pub fn propagate(
    superpositions: &mut [Vec<usize>],
    wfc_rules: &RuleTable,
    x: isize,
    y: isize,
    w: usize,
    h: usize,
) -> (failed: bool)
    requires
        wfc_rules.wf(),
        field_valid(
            cells_view(old(superpositions)@),
            w as int,
            h as int,
            wfc_rules.count() as int,
        ),
        0 <= x < w,
        0 <= y < h,
    ensures
        field_valid(
            cells_view(final(superpositions)@),
            w as int,
            h as int,
            wfc_rules.count() as int,
        ),
        propagated(
            cells_view(old(superpositions)@),
            cells_view(final(superpositions)@),
            failed,
            *wfc_rules,
            w as int,
            h as int,
            cell_index(w as int, x as int, y as int),
        ),
{
    propagate_at(superpositions, wfc_rules, x as usize, y as usize, w, h)
}

/// The same with unsigned coordinates.
pub(crate) fn propagate_at(
    superpositions: &mut [Vec<usize>],
    wfc_rules: &RuleTable,
    x: usize,
    y: usize,
    w: usize,
    h: usize,
) -> (failed: bool)
    requires
        wfc_rules.wf(),
        field_valid(
            cells_view(old(superpositions)@),
            w as int,
            h as int,
            wfc_rules.count() as int,
        ),
        x < w,
        y < h,
    ensures
        field_valid(
            cells_view(final(superpositions)@),
            w as int,
            h as int,
            wfc_rules.count() as int,
        ),
        propagated(
            cells_view(old(superpositions)@),
            cells_view(final(superpositions)@),
            failed,
            *wfc_rules,
            w as int,
            h as int,
            cell_index(w as int, x as int, y as int),
        ),
{
    let ghost start = cells_view(superpositions@);
    let ghost p0 = cell_index(w as int, x as int, y as int);
    let ghost count = wfc_rules.count() as int;
    let ghost wi = w as int;
    let ghost hi = h as int;
    let mut stack: Vec<(usize, usize)> = Vec::new();
    stack.push((x, y));
    proof {
        assert(superpositions.len() == w * h);
        assert forall|i: int| 0 <= i < start.len() implies #[trigger] narrows(start[i], start[i]) by {}
        assert(cell_index(wi, stack@[0].0 as int, stack@[0].1 as int) == p0);
        assert(on_stack(stack@, wi, p0));
        assert forall|c: int| 0 <= c < w * h implies on_stack(stack@, wi, c) || #[trigger] settled_cell(
            start,
            start,
            *wfc_rules,
            wi,
            hi,
            p0,
            c,
        ) by {}
    }
    while stack.len() > 0
        invariant
            wfc_rules.wf(),
            count == wfc_rules.count(),
            wi == w,
            hi == h,
            w * h <= usize::MAX,
            start == cells_view(old(superpositions)@),
            field_valid(start, wi, hi, count),
            field_valid(cells_view(superpositions@), wi, hi, count),
            field_narrows(start, cells_view(superpositions@)),
            keeps_consistent_subfields(start, cells_view(superpositions@), *wfc_rules, wi, hi),
            forall|k: int| 0 <= k < stack@.len() ==> (#[trigger] stack@[k]).0 < w && stack@[k].1 < h,
            no_empty_cell(start) ==> no_empty_cell(cells_view(superpositions@)),
            p0 == cell_index(wi, x as int, y as int),
            pending_or_settled(
                start,
                cells_view(superpositions@),
                *wfc_rules,
                wi,
                hi,
                stack@,
                p0,
            ),
        decreases total_size(cells_view(superpositions@)), stack@.len(),
    {
        let ghost stack_top = stack@;
        let (px, py) = stack.pop().unwrap();
        let ghost before = cells_view(superpositions@);
        let ghost rest = stack@;
        let ghost p = cell_index(wi, px as int, py as int);
        proof {
            lemma_cell_index(wi, hi, px as int, py as int);
        }
        let mut previous: Vec<usize> = Vec::new();
        let mut direction: usize = 0;
        while direction < DIRECTIONS
            invariant
                px < w,
                py < h,
                wi == w,
                hi == h,
                w * h <= usize::MAX,
                p == cell_index(wi, px as int, py as int),
                superpositions@.len() == w * h,
                before == cells_view(superpositions@),
                direction <= DIRECTIONS,
                previous@.len() == direction,
                forall|d: int|
                    0 <= d < direction ==> #[trigger] previous@[d] == before[neighbor_index(
                        wi,
                        hi,
                        p,
                        d,
                    )].len(),
            decreases DIRECTIONS - direction,
        {
            let (_, _, index) = neighbor_of(px, py, w, h, direction);
            assert(before[index as int] == superpositions@[index as int]@);
            previous.push(superpositions[index].len());
            direction = direction + 1;
        }
        update_adjacent_at(superpositions, px, py, w, h, wfc_rules);
        let ghost after = cells_view(superpositions@);
        proof {
            lemma_restrict_upto(before, *wfc_rules, wi, hi, count, p, 4);
            lemma_field_narrows_transitive(start, before, after);
            assert forall|k: Seq<Seq<usize>>|
                subfield(k, start) && arc_consistent(k, *wfc_rules, wi, hi) implies #[trigger] subfield(
                k,
                after,
            ) by {
                assert(subfield(k, before));
                lemma_restrict_keeps_consistent(before, k, *wfc_rules, wi, hi, count, p, 4);
            }
        }
        let ghost mut shrunk: int = -1;
        let mut direction: usize = 0;
        while direction < DIRECTIONS
            invariant
                px < w,
                py < h,
                wi == w,
                hi == h,
                w * h <= usize::MAX,
                p == cell_index(wi, px as int, py as int),
                0 <= p < w * h,
                superpositions@.len() == w * h,
                after == cells_view(superpositions@),
                before.len() == w * h,
                field_narrows(before, after),
                count == wfc_rules.count(),
                field_valid(after, wi, hi, count),
                field_narrows(start, after),
                keeps_consistent_subfields(start, after, *wfc_rules, wi, hi),
                start == cells_view(old(superpositions)@),
                p0 == cell_index(wi, x as int, y as int),
                direction <= DIRECTIONS,
                previous@.len() == DIRECTIONS,
                forall|d: int|
                    0 <= d < DIRECTIONS ==> #[trigger] previous@[d] == before[neighbor_index(
                        wi,
                        hi,
                        p,
                        d,
                    )].len(),
                forall|k: int|
                    0 <= k < stack@.len() ==> (#[trigger] stack@[k]).0 < w && stack@[k].1 < h,
                forall|c: int| on_stack(rest, wi, c) ==> on_stack(stack@, wi, c),
                forall|d: int|
                    0 <= d < direction ==> after[#[trigger] neighbor_index(wi, hi, p, d)].len() > 0,
                forall|d: int|
                    0 <= d < direction && after[neighbor_index(wi, hi, p, d)].len()
                        != before[neighbor_index(wi, hi, p, d)].len() ==> on_stack(
                        stack@,
                        wi,
                        #[trigger] neighbor_index(wi, hi, p, d),
                    ),
                stack@.len() >= rest.len(),
                stack@.len() > rest.len() ==> 0 <= shrunk < before.len() && after[shrunk].len()
                    < before[shrunk].len(),
            decreases DIRECTIONS - direction,
        {
            let (nx, ny, index) = neighbor_of(px, py, w, h, direction);
            assert(after[index as int] == superpositions@[index as int]@);
            if superpositions[index].len() == 0 {
                proof {
                    assert(after[index as int].len() == 0);
                    lemma_propagated(start, after, true, *wfc_rules, wi, hi, p0);
                }
                return true;
            }
            if superpositions[index].len() != previous[direction] {
                let ghost pushed_on = stack@;
                stack.push((nx, ny));
                proof {
                    shrunk = index as int;
                    assert(narrows(before[index as int], after[index as int]));
                    assert(stack@[stack@.len() - 1] == (nx, ny));
                    assert(on_stack(stack@, wi, index as int));
                    assert forall|c: int| on_stack(pushed_on, wi, c) implies on_stack(
                        stack@,
                        wi,
                        c,
                    ) by {
                        let k = choose|k: int|
                            0 <= k < pushed_on.len() && cell_index(
                                wi,
                                (#[trigger] pushed_on[k]).0 as int,
                                pushed_on[k].1 as int,
                            ) == c;
                        assert(stack@[k] == pushed_on[k]);
                    }
                }
            }
            direction = direction + 1;
        }
        proof {
            assert forall|k: int| 0 <= k < before.len() implies after[k].len() <= before[k].len() by {
                assert(narrows(before[k], after[k]));
            }
            lemma_total_size_shrinks(before, after, shrunk);
            if no_empty_cell(start) {
                assert forall|i: int| 0 <= i < after.len() implies (#[trigger] after[i]).len() > 0 by {
                    if is_neighbor_upto(wi, hi, p, i, 4) {
                        let d = choose|d: int|
                            0 <= d < 4 && #[trigger] neighbor_index(wi, hi, p, d) == i;
                        assert(after[neighbor_index(wi, hi, p, d)].len() > 0);
                    } else {
                        assert(after[i] == before[i]);
                        assert(before[i].len() > 0);
                    }
                }
            }
            assert forall|c: int| 0 <= c < w * h implies on_stack(stack@, wi, c) || #[trigger] settled_cell(
                start,
                after,
                *wfc_rules,
                wi,
                hi,
                p0,
                c,
            ) by {
                assert(narrows(before[c], after[c]));
                if after[c] == before[c] {
                    if on_stack(stack_top, wi, c) {
                        let k = choose|k: int|
                            0 <= k < stack_top.len() && cell_index(
                                wi,
                                (#[trigger] stack_top[k]).0 as int,
                                stack_top[k].1 as int,
                            ) == c;
                        if k == stack_top.len() - 1 {
                            assert(c == p);
                            assert(forall|d: int|
                                0 <= d < 4 ==> #[trigger] supported(
                                    after,
                                    *wfc_rules,
                                    wi,
                                    hi,
                                    p,
                                    d,
                                ));
                        } else {
                            assert(rest[k] == stack_top[k]);
                            assert(on_stack(rest, wi, c));
                        }
                    } else {
                        assert(settled_cell(start, before, *wfc_rules, wi, hi, p0, c));
                        if clean(before, *wfc_rules, wi, hi, c) {
                            lemma_clean_preserved(before, after, *wfc_rules, wi, hi, c);
                        }
                    }
                } else {
                    assert(is_neighbor_upto(wi, hi, p, c, 4));
                    let d = choose|d: int|
                        0 <= d < 4 && #[trigger] neighbor_index(wi, hi, p, d) == c;
                    assert(after[neighbor_index(wi, hi, p, d)].len() != before[neighbor_index(
                        wi,
                        hi,
                        p,
                        d,
                    )].len());
                    assert(on_stack(stack@, wi, neighbor_index(wi, hi, p, d)));
                }
            }
        }
    }
    proof {
        let last = cells_view(superpositions@);
        assert forall|c: int| 0 <= c < w * h implies #[trigger] settled_cell(
            start,
            last,
            *wfc_rules,
            wi,
            hi,
            p0,
            c,
        ) by {
            assert(on_stack(stack@, wi, c) || settled_cell(start, last, *wfc_rules, wi, hi, p0, c));
        }
        lemma_propagated(start, last, false, *wfc_rules, wi, hi, p0);
    }
    false
}

} // verus!
