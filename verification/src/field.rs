//! The superposition field: for each cell of the output grid, the tiles that
//! are still possible there. What it means for neighbouring cells to agree,
//! and what restricting a neighbour does to a field.

use crate::image_data::lemma_index_in_grid;
use crate::image_data::wrap_spec;
use crate::library::lemma_wrap_add;
use crate::rules::RuleTable;
use crate::tile::lemma_row_major;
use crate::tile::offset_x;
use crate::tile::offset_y;
use crate::tile::opposite;
use vstd::prelude::*;

verus! {

/// The cells of a field as plain sequences of tile ids.
pub open spec fn cells_view(cells: Seq<Vec<usize>>) -> Seq<Seq<usize>> {
    Seq::new(cells.len(), |i: int| cells[i]@)
}

/// The field has one cell per coordinate of a `w` by `h` grid, and every
/// tile id in it is below `count`.
pub open spec fn field_valid(f: Seq<Seq<usize>>, w: int, h: int, count: int) -> bool {
    &&& 0 < w
    &&& 0 < h
    &&& f.len() == w * h
    &&& forall|i: int, j: int| 0 <= i < f.len() && 0 <= j < f[i].len() ==> #[trigger] f[i][j] < count
}

/// The index of the cell at `(x, y)`.
pub open spec fn cell_index(w: int, x: int, y: int) -> int {
    x + y * w
}

/// The index of the neighbour of cell `p` in direction `d`, on the torus.
pub open spec fn neighbor_index(w: int, h: int, p: int, d: int) -> int {
    cell_index(w, wrap_spec(p % w + offset_x(d), w), wrap_spec(p / w + offset_y(d), h))
}

/// Cell `i` is the neighbour of cell `p` in one of the first `n` directions.
pub open spec fn is_neighbor_upto(w: int, h: int, p: int, i: int, n: int) -> bool {
    exists|d: int| 0 <= d < n && #[trigger] neighbor_index(w, h, p, d) == i
}

/// One of the first `n` tiles of `src` allows tile `t` as its neighbour in
/// direction `d`.
pub open spec fn support_upto(rules: RuleTable, src: Seq<usize>, d: int, t: usize, n: int) -> bool {
    exists|k: int|
        0 <= k < n && k < src.len() && #[trigger] rules.allowed(d, src[k] as int, t as int)
}

/// Some tile of `src` allows tile `t` as its neighbour in direction `d`.
pub open spec fn has_support(rules: RuleTable, src: Seq<usize>, d: int, t: usize) -> bool {
    support_upto(rules, src, d, t, src.len() as int)
}

/// The test that a tile of a neighbour has to pass, as a predicate.
pub open spec fn support_pred(rules: RuleTable, src: Seq<usize>, d: int) -> spec_fn(usize) -> bool {
    |t: usize| has_support(rules, src, d, t)
}

/// The field after the neighbour of cell `p` in direction `d` has lost every
/// tile that no tile of `p` allows there.
pub open spec fn restrict_neighbor(
    f: Seq<Seq<usize>>,
    rules: RuleTable,
    w: int,
    h: int,
    p: int,
    d: int,
) -> Seq<Seq<usize>> {
    let q = neighbor_index(w, h, p, d);
    f.update(q, f[q].filter(support_pred(rules, f[p], d)))
}

/// The field after the neighbours of cell `p` in the first `n` directions
/// were restricted, one direction after the other. On a narrow grid two
/// directions may lead to the same cell, or back to `p` itself; each step
/// reads what the steps before it left.
pub open spec fn restrict_upto(
    f: Seq<Seq<usize>>,
    rules: RuleTable,
    w: int,
    h: int,
    p: int,
    n: nat,
) -> Seq<Seq<usize>>
    decreases n,
{
    if n == 0 {
        f
    } else {
        restrict_neighbor(restrict_upto(f, rules, w, h, p, (n - 1) as nat), rules, w, h, p, n - 1)
    }
}

/// The field after all four neighbours of cell `p` were restricted.
pub open spec fn update_adjacent_spec(
    f: Seq<Seq<usize>>,
    rules: RuleTable,
    w: int,
    h: int,
    p: int,
) -> Seq<Seq<usize>> {
    restrict_upto(f, rules, w, h, p, 4)
}

/// Every tile in the neighbour of `p` in direction `d` is allowed there by
/// some tile of `p`.
pub open spec fn supported(
    f: Seq<Seq<usize>>,
    rules: RuleTable,
    w: int,
    h: int,
    p: int,
    d: int,
) -> bool {
    forall|j: int|
        0 <= j < f[neighbor_index(w, h, p, d)].len() ==> has_support(
            rules,
            f[p],
            d,
            #[trigger] f[neighbor_index(w, h, p, d)][j],
        )
}

/// Cell `p` supports all its four neighbours.
pub open spec fn clean(f: Seq<Seq<usize>>, rules: RuleTable, w: int, h: int, p: int) -> bool {
    forall|d: int| 0 <= d < 4 ==> #[trigger] supported(f, rules, w, h, p, d)
}

/// Every cell but `p0` supports all its neighbours.
pub open spec fn clean_except(
    f: Seq<Seq<usize>>,
    rules: RuleTable,
    w: int,
    h: int,
    p0: int,
) -> bool {
    forall|c: int| 0 <= c < w * h && c != p0 ==> #[trigger] clean(f, rules, w, h, c)
}

/// The field is arc-consistent: every cell supports all its neighbours.
pub open spec fn arc_consistent(f: Seq<Seq<usize>>, rules: RuleTable, w: int, h: int) -> bool {
    forall|p: int| 0 <= p < w * h ==> #[trigger] clean(f, rules, w, h, p)
}

/// Tile `t` allows some tile of `dst` as its neighbour in direction `d`.
pub open spec fn has_partner(rules: RuleTable, t: usize, d: int, dst: Seq<usize>) -> bool {
    exists|j: int| 0 <= j < dst.len() && #[trigger] rules.allowed(d, t as int, dst[j] as int)
}

/// The `i`-th tile of cell `c` allows some tile of the neighbour of `c` in
/// direction `d`.
pub open spec fn tile_has_partner(
    f: Seq<Seq<usize>>,
    rules: RuleTable,
    w: int,
    h: int,
    c: int,
    d: int,
    i: int,
) -> bool {
    has_partner(rules, f[c][i], d, f[neighbor_index(w, h, c, d)])
}

/// Every tile of every cell allows, in every direction, some tile of the
/// neighbour in that direction.
pub open spec fn every_tile_has_partner(
    f: Seq<Seq<usize>>,
    rules: RuleTable,
    w: int,
    h: int,
) -> bool {
    forall|c: int, d: int, i: int|
        0 <= c < w * h && 0 <= d < 4 && 0 <= i < f[c].len() ==> #[trigger] tile_has_partner(
            f,
            rules,
            w,
            h,
            c,
            d,
            i,
        )
}

/// Cell `b` came from cell `a` by losing tiles: it holds no tile that `a`
/// does not hold, it is no longer, and if it is as long, it is the same.
pub open spec fn narrows(a: Seq<usize>, b: Seq<usize>) -> bool {
    &&& forall|t: usize| #[trigger] b.contains(t) ==> a.contains(t)
    &&& b.len() <= a.len()
    &&& b.len() == a.len() ==> b == a
}

/// Field `g` came from field `f` by losing tiles, cell by cell.
pub open spec fn field_narrows(f: Seq<Seq<usize>>, g: Seq<Seq<usize>>) -> bool {
    &&& g.len() == f.len()
    &&& forall|i: int| 0 <= i < f.len() ==> #[trigger] narrows(f[i], g[i])
}

/// Every tile of every cell of `g` is a tile of the same cell of `f`.
pub open spec fn subfield(g: Seq<Seq<usize>>, f: Seq<Seq<usize>>) -> bool {
    &&& g.len() == f.len()
    &&& forall|i: int, t: usize| 0 <= i < g.len() && #[trigger] g[i].contains(t) ==> f[i].contains(t)
}

/// Every arc-consistent subfield of `f` is a subfield of `g`: going from
/// `f` to `g` lost no tile that an arc-consistent choice could use.
pub open spec fn keeps_consistent_subfields(
    f: Seq<Seq<usize>>,
    g: Seq<Seq<usize>>,
    rules: RuleTable,
    w: int,
    h: int,
) -> bool {
    forall|k: Seq<Seq<usize>>|
        subfield(k, f) && arc_consistent(k, rules, w, h) ==> #[trigger] subfield(k, g)
}

/// No cell of the field is empty.
pub open spec fn no_empty_cell(f: Seq<Seq<usize>>) -> bool {
    forall|i: int| 0 <= i < f.len() ==> (#[trigger] f[i]).len() > 0
}

/// Some cell of the field is empty: a contradiction.
pub open spec fn has_empty_cell(f: Seq<Seq<usize>>) -> bool {
    exists|i: int| 0 <= i < f.len() && (#[trigger] f[i]).len() == 0
}

/// The field can be narrowed to an arc-consistent field without an empty
/// cell.
pub open spec fn solvable(f: Seq<Seq<usize>>, rules: RuleTable, w: int, h: int) -> bool {
    exists|g: Seq<Seq<usize>>|
        subfield(g, f) && arc_consistent(g, rules, w, h) && #[trigger] no_empty_cell(g)
}

/// The number of tiles in the whole field, cell by cell.
pub open spec fn total_size(f: Seq<Seq<usize>>) -> nat
    decreases f.len(),
{
    if f.len() == 0 {
        0
    } else {
        total_size(f.drop_last()) + f.last().len()
    }
}

/// The index of the cell at `(x, y)` gives back `x` and `y`.
pub proof fn lemma_cell_index(w: int, h: int, x: int, y: int)
    requires
        0 <= x < w,
        0 <= y < h,
    ensures
        0 <= cell_index(w, x, y) < w * h,
        cell_index(w, x, y) % w == x,
        cell_index(w, x, y) / w == y,
{
    lemma_index_in_grid(x, y, w, h);
    lemma_row_major(x, y, w);
}

/// The neighbour of a cell of the grid is a cell of the grid, and the cell
/// at `(x, y)` has the index from which `x` and `y` can be read back.
pub proof fn lemma_neighbor_in_grid(w: int, h: int, p: int, d: int)
    requires
        0 < w,
        0 < h,
        0 <= p < w * h,
        0 <= d < 4,
    ensures
        0 <= neighbor_index(w, h, p, d) < w * h,
        0 <= p % w < w,
        0 <= p / w < h,
        p == cell_index(w, p % w, p / w),
{
    vstd::arithmetic::div_mod::lemma_fundamental_div_mod(p, w);
    assert(w * (p / w) == (p / w) * w) by (nonlinear_arith);
    let y = p / w;
    assert(0 <= y < h) by (nonlinear_arith)
        requires
            0 <= p < w * h,
            p == y * w + p % w,
            0 <= p % w < w,
            0 < w,
    ;
    let nx = wrap_spec(p % w + offset_x(d), w);
    let ny = wrap_spec(p / w + offset_y(d), h);
    lemma_index_in_grid(nx, ny, w, h);
}

/// Going to a neighbour and back in the opposite direction leads to where
/// one came from.
pub proof fn lemma_neighbor_opposite(w: int, h: int, c: int, d: int)
    requires
        0 < w,
        0 < h,
        0 <= c < w * h,
        0 <= d < 4,
    ensures
        0 <= opposite(d) < 4,
        opposite(opposite(d)) == d,
        0 <= neighbor_index(w, h, c, d) < w * h,
        neighbor_index(w, h, neighbor_index(w, h, c, d), opposite(d)) == c,
{
    lemma_neighbor_in_grid(w, h, c, d);
    let x = c % w;
    let y = c / w;
    let ox = offset_x(d);
    let oy = offset_y(d);
    let nx = wrap_spec(x + ox, w);
    let ny = wrap_spec(y + oy, h);
    lemma_cell_index(w, h, nx, ny);
    lemma_wrap_add(x + ox, -ox, w);
    lemma_wrap_add(y + oy, -oy, h);
    vstd::arithmetic::div_mod::lemma_small_mod(x as nat, w as nat);
    vstd::arithmetic::div_mod::lemma_small_mod(y as nat, h as nat);
}

/// A filter that drops nothing leaves the sequence as it is.
pub proof fn lemma_filter_same_len(s: Seq<usize>, pred: spec_fn(usize) -> bool)
    requires
        s.filter(pred).len() == s.len(),
    ensures
        s.filter(pred) == s,
    decreases s.len(),
{
    reveal(Seq::filter);
    if s.len() > 0 {
        let sub = s.drop_last().filter(pred);
        s.drop_last().lemma_filter_len(pred);
        if pred(s.last()) {
            lemma_filter_same_len(s.drop_last(), pred);
            assert(s.drop_last().push(s.last()) =~= s);
        }
    }
}

/// Filtering narrows a cell.
pub proof fn lemma_filter_narrows(s: Seq<usize>, pred: spec_fn(usize) -> bool)
    ensures
        narrows(s, s.filter(pred)),
{
    s.lemma_filter_len(pred);
    assert forall|t: usize| #[trigger] s.filter(pred).contains(t) implies s.contains(t) by {
        s.lemma_filter_contains_rev(pred, t);
    }
    if s.filter(pred).len() == s.len() {
        lemma_filter_same_len(s, pred);
    }
}

/// Narrowing twice is narrowing.
pub proof fn lemma_narrows_transitive(a: Seq<usize>, b: Seq<usize>, c: Seq<usize>)
    requires
        narrows(a, b),
        narrows(b, c),
    ensures
        narrows(a, c),
{
    assert forall|t: usize| #[trigger] c.contains(t) implies a.contains(t) by {
        assert(b.contains(t));
    }
}

/// Narrowing a field twice is narrowing it.
pub proof fn lemma_field_narrows_transitive(
    f: Seq<Seq<usize>>,
    g: Seq<Seq<usize>>,
    k: Seq<Seq<usize>>,
)
    requires
        field_narrows(f, g),
        field_narrows(g, k),
    ensures
        field_narrows(f, k),
{
    assert forall|i: int| 0 <= i < f.len() implies #[trigger] narrows(f[i], k[i]) by {
        assert(narrows(f[i], g[i]));
        assert(narrows(g[i], k[i]));
        lemma_narrows_transitive(f[i], g[i], k[i]);
    }
}

/// A field that came from another by losing tiles is a subfield of it.
pub proof fn lemma_narrows_is_subfield(f: Seq<Seq<usize>>, g: Seq<Seq<usize>>)
    requires
        field_narrows(f, g),
    ensures
        subfield(g, f),
{
    assert forall|i: int, t: usize| 0 <= i < g.len() && #[trigger] g[i].contains(t) implies f[i].contains(
        t,
    ) by {
        assert(narrows(f[i], g[i]));
    }
}

/// Support from a cell is support from any cell that holds its tiles.
pub proof fn lemma_support_grows(
    rules: RuleTable,
    small: Seq<usize>,
    large: Seq<usize>,
    d: int,
    t: usize,
)
    requires
        has_support(rules, small, d, t),
        forall|u: usize| #[trigger] small.contains(u) ==> large.contains(u),
    ensures
        has_support(rules, large, d, t),
{
    let k = choose|k: int|
        0 <= k < small.len() && k < small.len() && #[trigger] rules.allowed(
            d,
            small[k] as int,
            t as int,
        );
    assert(small.contains(small[k]));
    let k2 = choose|k2: int| 0 <= k2 < large.len() && large[k2] == small[k];
    assert(rules.allowed(d, large[k2] as int, t as int));
}

/// Restricting one neighbour keeps the field valid and narrows it; only
/// the neighbour's cell changes.
pub proof fn lemma_restrict_neighbor(
    f: Seq<Seq<usize>>,
    rules: RuleTable,
    w: int,
    h: int,
    count: int,
    p: int,
    d: int,
)
    requires
        field_valid(f, w, h, count),
        0 <= p < w * h,
        0 <= d < 4,
    ensures
        field_valid(restrict_neighbor(f, rules, w, h, p, d), w, h, count),
        field_narrows(f, restrict_neighbor(f, rules, w, h, p, d)),
        forall|i: int|
            0 <= i < f.len() && i != neighbor_index(w, h, p, d) ==> restrict_neighbor(
                f,
                rules,
                w,
                h,
                p,
                d,
            )[i] == f[i],
{
    let q = neighbor_index(w, h, p, d);
    let g = restrict_neighbor(f, rules, w, h, p, d);
    let pred = support_pred(rules, f[p], d);
    lemma_neighbor_in_grid(w, h, p, d);
    lemma_filter_narrows(f[q], pred);
    assert forall|i: int| 0 <= i < f.len() implies #[trigger] narrows(f[i], g[i]) by {}
    assert forall|i: int, j: int| 0 <= i < g.len() && 0 <= j < g[i].len() implies #[trigger] g[i][j]
        < count by {
        if i == q {
            assert(g[i].contains(g[i][j]));
            assert(f[i].contains(g[i][j]));
            let k = choose|k: int| 0 <= k < f[i].len() && f[i][k] == g[i][j];
            assert(f[i][k] < count);
        } else {
            assert(f[i][j] < count);
        }
    }
}

/// What the restriction of the first `n` neighbours of `p` does to a field:
/// it stays valid, it only loses tiles, only neighbours of `p` change, and
/// if `p` itself is left as it was, `p` supports those neighbours.
pub proof fn lemma_restrict_upto(
    f: Seq<Seq<usize>>,
    rules: RuleTable,
    w: int,
    h: int,
    count: int,
    p: int,
    n: nat,
)
    requires
        field_valid(f, w, h, count),
        0 <= p < w * h,
        n <= 4,
    ensures
        field_valid(restrict_upto(f, rules, w, h, p, n), w, h, count),
        field_narrows(f, restrict_upto(f, rules, w, h, p, n)),
        forall|i: int|
            0 <= i < f.len() && !is_neighbor_upto(w, h, p, i, n as int) ==> #[trigger] restrict_upto(
                f,
                rules,
                w,
                h,
                p,
                n,
            )[i] == f[i],
        restrict_upto(f, rules, w, h, p, n)[p] == f[p] ==> forall|d: int|
            0 <= d < n ==> #[trigger] supported(restrict_upto(f, rules, w, h, p, n), rules, w, h, p, d),
    decreases n,
{
    if n == 0 {
        assert forall|i: int| 0 <= i < f.len() implies #[trigger] narrows(f[i], f[i]) by {}
    } else {
        let m = (n - 1) as nat;
        let g = restrict_upto(f, rules, w, h, p, m);
        let k = restrict_upto(f, rules, w, h, p, n);
        let q = neighbor_index(w, h, p, m as int);
        lemma_restrict_upto(f, rules, w, h, count, p, m);
        lemma_restrict_neighbor(g, rules, w, h, count, p, m as int);
        lemma_field_narrows_transitive(f, g, k);
        lemma_neighbor_in_grid(w, h, p, m as int);
        assert forall|i: int|
            0 <= i < f.len() && !is_neighbor_upto(w, h, p, i, n as int) implies #[trigger] k[i]
            == f[i] by {
            assert(neighbor_index(w, h, p, m as int) != i);
            if is_neighbor_upto(w, h, p, i, m as int) {
                let d = choose|d: int| 0 <= d < m && #[trigger] neighbor_index(w, h, p, d) == i;
                assert(neighbor_index(w, h, p, d) == i);
            }
        }
        if k[p] == f[p] {
            assert(narrows(f[p], g[p]));
            assert(narrows(g[p], k[p]));
            assert(g[p] == f[p]);
            assert forall|d: int| 0 <= d < n implies #[trigger] supported(k, rules, w, h, p, d) by {
                let qd = neighbor_index(w, h, p, d);
                lemma_neighbor_in_grid(w, h, p, d);
                assert forall|j: int| 0 <= j < k[qd].len() implies has_support(
                    rules,
                    k[p],
                    d,
                    #[trigger] k[qd][j],
                ) by {
                    let t = k[qd][j];
                    if d == m {
                        let pred = support_pred(rules, g[p], d);
                        g[q].lemma_filter_pred(pred, j);
                        assert(pred(t));
                    } else {
                        assert(supported(g, rules, w, h, p, d));
                        assert(narrows(g[qd], k[qd]));
                        assert(k[qd].contains(t));
                        assert(g[qd].contains(t));
                        let j2 = choose|j2: int| 0 <= j2 < g[qd].len() && g[qd][j2] == t;
                        assert(has_support(rules, g[p], d, g[qd][j2]));
                    }
                }
            }
        }
    }
}

/// A cell that supported its neighbours still does after the field lost
/// tiles elsewhere.
pub proof fn lemma_clean_preserved(
    f: Seq<Seq<usize>>,
    g: Seq<Seq<usize>>,
    rules: RuleTable,
    w: int,
    h: int,
    c: int,
)
    requires
        0 < w,
        0 < h,
        f.len() == w * h,
        0 <= c < w * h,
        field_narrows(f, g),
        g[c] == f[c],
        clean(f, rules, w, h, c),
    ensures
        clean(g, rules, w, h, c),
{
    assert forall|d: int| 0 <= d < 4 implies #[trigger] supported(g, rules, w, h, c, d) by {
        let q = neighbor_index(w, h, c, d);
        lemma_neighbor_in_grid(w, h, c, d);
        assert(supported(f, rules, w, h, c, d));
        assert(narrows(f[q], g[q]));
        assert forall|j: int| 0 <= j < g[q].len() implies has_support(
            rules,
            g[c],
            d,
            #[trigger] g[q][j],
        ) by {
            let t = g[q][j];
            assert(g[q].contains(t));
            assert(f[q].contains(t));
            let j2 = choose|j2: int| 0 <= j2 < f[q].len() && f[q][j2] == t;
            assert(has_support(rules, f[c], d, f[q][j2]));
        }
    }
}

/// An arc-consistent subfield survives the restriction of the neighbours
/// of any cell: no tile of it is lost.
pub proof fn lemma_restrict_keeps_consistent(
    f: Seq<Seq<usize>>,
    g: Seq<Seq<usize>>,
    rules: RuleTable,
    w: int,
    h: int,
    count: int,
    p: int,
    n: nat,
)
    requires
        field_valid(f, w, h, count),
        0 <= p < w * h,
        n <= 4,
        subfield(g, f),
        arc_consistent(g, rules, w, h),
    ensures
        subfield(g, restrict_upto(f, rules, w, h, p, n)),
    decreases n,
{
    if n > 0 {
        let m = (n - 1) as nat;
        let d = m as int;
        let fm = restrict_upto(f, rules, w, h, p, m);
        let fn_ = restrict_upto(f, rules, w, h, p, n);
        let q = neighbor_index(w, h, p, d);
        lemma_restrict_keeps_consistent(f, g, rules, w, h, count, p, m);
        lemma_restrict_upto(f, rules, w, h, count, p, m);
        lemma_neighbor_in_grid(w, h, p, d);
        let pred = support_pred(rules, fm[p], d);
        assert forall|i: int, t: usize| 0 <= i < g.len() && #[trigger] g[i].contains(t) implies fn_[i].contains(
            t,
        ) by {
            assert(fm[i].contains(t));
            if i == q {
                let j = choose|j: int| 0 <= j < g[q].len() && g[q][j] == t;
                assert(clean(g, rules, w, h, p));
                assert(supported(g, rules, w, h, p, d));
                assert(has_support(rules, g[p], d, g[q][j]));
                assert forall|u: usize| #[trigger] g[p].contains(u) implies fm[p].contains(u) by {}
                lemma_support_grows(rules, g[p], fm[p], d, t);
                let j2 = choose|j2: int| 0 <= j2 < fm[q].len() && fm[q][j2] == t;
                assert(pred(fm[q][j2]));
                fm[q].lemma_filter_contains(pred, j2);
            }
        }
    }
}

/// A field that lost tiles is no larger, and smaller if cell `i` lost one.
pub proof fn lemma_total_size_shrinks(f: Seq<Seq<usize>>, g: Seq<Seq<usize>>, i: int)
    requires
        g.len() == f.len(),
        forall|k: int| 0 <= k < f.len() ==> g[k].len() <= f[k].len(),
    ensures
        total_size(g) <= total_size(f),
        0 <= i < f.len() && g[i].len() < f[i].len() ==> total_size(g) < total_size(f),
    decreases f.len(),
{
    if f.len() > 0 {
        assert forall|k: int| 0 <= k < f.drop_last().len() implies g.drop_last()[k].len()
            <= f.drop_last()[k].len() by {
            assert(g[k].len() <= f[k].len());
        }
        lemma_total_size_shrinks(f.drop_last(), g.drop_last(), i);
        assert(g.last().len() <= f.last().len());
    }
}

/// Under rules that read the same in both ways, arc-consistency says of
/// every tile what it says of its supporters: in an arc-consistent field,
/// every tile of every cell allows, in every direction, some tile of the
/// neighbour there.
pub proof fn lemma_arc_consistent_partners(
    f: Seq<Seq<usize>>,
    rules: RuleTable,
    w: int,
    h: int,
)
    requires
        field_valid(f, w, h, rules.count() as int),
        rules.symmetric(),
        arc_consistent(f, rules, w, h),
    ensures
        every_tile_has_partner(f, rules, w, h),
{
    assert forall|c: int, d: int, i: int|
        0 <= c < w * h && 0 <= d < 4 && 0 <= i < f[c].len() implies #[trigger] tile_has_partner(
        f,
        rules,
        w,
        h,
        c,
        d,
        i,
    ) by {
        let q = neighbor_index(w, h, c, d);
        let back = opposite(d);
        lemma_neighbor_opposite(w, h, c, d);
        assert(clean(f, rules, w, h, q));
        assert(supported(f, rules, w, h, q, back));
        assert(has_support(rules, f[q], back, f[c][i]));
        let k = choose|k: int|
            0 <= k < f[q].len() && k < f[q].len() && #[trigger] rules.allowed(
                back,
                f[q][k] as int,
                f[c][i] as int,
            );
        assert(f[q][k] < rules.count());
        assert(f[c][i] < rules.count());
        assert(rules.allowed(opposite(back), f[c][i] as int, f[q][k] as int));
    }
}

/// A contradiction is no accident of the order in which cells were looked
/// at: where the field lost no tile that an arc-consistent subfield could
/// hold and yet has an empty cell, every arc-consistent subfield of the
/// field before has an empty cell too.
pub proof fn lemma_contradiction_is_genuine(
    before: Seq<Seq<usize>>,
    after: Seq<Seq<usize>>,
    g: Seq<Seq<usize>>,
    rules: RuleTable,
    w: int,
    h: int,
)
    requires
        keeps_consistent_subfields(before, after, rules, w, h),
        has_empty_cell(after),
        subfield(g, before),
        arc_consistent(g, rules, w, h),
    ensures
        has_empty_cell(g),
{
    assert(subfield(g, after));
    let i = choose|i: int| 0 <= i < after.len() && (#[trigger] after[i]).len() == 0;
    if g[i].len() > 0 {
        assert(g[i].contains(g[i][0]));
        assert(after[i].contains(g[i][0]));
    }
}

/// A field that lost no tile of an arc-consistent subfield and has an empty
/// cell came from a field that cannot be solved.
pub proof fn lemma_empty_cell_unsolvable(
    before: Seq<Seq<usize>>,
    after: Seq<Seq<usize>>,
    rules: RuleTable,
    w: int,
    h: int,
)
    requires
        keeps_consistent_subfields(before, after, rules, w, h),
        has_empty_cell(after),
    ensures
        !solvable(before, rules, w, h),
{
    if solvable(before, rules, w, h) {
        let g = choose|g: Seq<Seq<usize>>|
            subfield(g, before) && arc_consistent(g, rules, w, h) && #[trigger] no_empty_cell(g);
        lemma_contradiction_is_genuine(before, after, g, rules, w, h);
        let i = choose|i: int| 0 <= i < g.len() && (#[trigger] g[i]).len() == 0;
        assert(g[i].len() > 0);
    }
}

} // verus!
