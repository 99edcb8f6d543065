//! The entropy of a cell, in fixed-point arithmetic, and the choice of the
//! cells of lowest entropy.
//!
//! The entropy of a cell is the Shannon entropy of its tiles weighted by
//! their frequencies: with `total` the sum of the frequencies `f` of the
//! tiles of the cell, it is `log2(total) - (sum of f * log2(f)) / total`.
//! Binary logarithms are taken with 16 binary places, one bit at a time; all
//! numbers are integers, scaled by 65536.

use vstd::arithmetic::power2::lemma2_to64;
use vstd::arithmetic::power2::lemma_pow2_adds;
use vstd::arithmetic::power2::lemma_pow2_unfold;
use vstd::arithmetic::power2::pow2;
use vstd::prelude::*;

verus! {

/// The whole part of the binary logarithm of `x`; 0 for 0.
pub open spec fn floor_log2(x: nat) -> nat
    decreases x,
{
    if x < 2 {
        0
    } else {
        1 + floor_log2(x / 2)
    }
}

/// `m` halved until it is below 2^32.
pub open spec fn shrink_mantissa(m: nat) -> nat
    decreases m,
{
    if m >= 0x1_0000_0000 {
        shrink_mantissa(m / 2)
    } else {
        m
    }
}

/// `m` doubled until it is at least 2^31; 0 stays 0.
pub open spec fn grow_mantissa(m: nat) -> nat
    decreases
        (if m < 0x8000_0000 {
            0x8000_0000 - m
        } else {
            0
        }),
{
    if 0 < m < 0x8000_0000 {
        grow_mantissa(2 * m)
    } else {
        m
    }
}

/// The mantissa of `x`: `x` scaled by a power of two into the range from
/// 2^31 up to, but not including, 2^32. It stands for a number from 1 up
/// to 2.
pub open spec fn mantissa(x: nat) -> nat {
    grow_mantissa(shrink_mantissa(x))
}

/// The binary places of the logarithm of a mantissa `m`, worth `weight` for
/// the first, half of that for the next, and so on: squaring the mantissa
/// doubles its logarithm, whose whole part is then the next binary place.
pub open spec fn log2_fraction(m: nat, weight: nat) -> nat
    decreases weight,
{
    if weight == 0 {
        0
    } else {
        let square = m * m / 0x8000_0000;
        if square >= 0x1_0000_0000 {
            weight + log2_fraction(square / 2, weight / 2)
        } else {
            log2_fraction(square, weight / 2)
        }
    }
}

/// The binary logarithm of `x`, scaled by 65536.
pub open spec fn log2_scaled(x: nat) -> nat {
    floor_log2(x) * 65536 + log2_fraction(mantissa(x), 32768)
}

/// A number below 2^k has a logarithm whose whole part is below `k`.
pub proof fn lemma_floor_log2_bound(x: nat, k: nat)
    requires
        k >= 1,
        x < pow2(k),
    ensures
        floor_log2(x) < k,
    decreases x,
{
    if x >= 2 {
        lemma2_to64();
        if k == 1 {
            assert(pow2(1) == 2);
        } else {
            lemma_pow2_unfold(k);
            lemma_floor_log2_bound(x / 2, (k - 1) as nat);
        }
    }
}

/// The binary places are worth less than twice the weight of the first.
pub proof fn lemma_log2_fraction_bound(m: nat, weight: nat)
    ensures
        log2_fraction(m, weight) <= 2 * weight,
        weight > 0 ==> log2_fraction(m, weight) < 2 * weight,
    decreases weight,
{
    if weight > 0 {
        let square = m * m / 0x8000_0000;
        lemma_log2_fraction_bound(square / 2, weight / 2);
        lemma_log2_fraction_bound(square, weight / 2);
    }
}

/// A mantissa squared and scaled back stays a number from 1 up to 4.
pub proof fn lemma_square_bounds(m: nat)
    requires
        0x8000_0000 <= m < 0x1_0000_0000,
    ensures
        m * m < 0x1_0000_0000_0000_0000,
        0x8000_0000 <= m * m / 0x8000_0000 < 0x2_0000_0000,
{
    assert(m * m < 0x1_0000_0000_0000_0000 && m * m >= 0x4000_0000_0000_0000) by (nonlinear_arith)
        requires
            0x8000_0000 <= m < 0x1_0000_0000,
    ;
}

/// The binary logarithm of `x`, scaled by 65536.
pub fn log2_fixed(x: u128) -> (r: u64)
    requires
        x >= 1,
    ensures
        r == log2_scaled(x as nat),
        r < 128 * 65536,
{
    proof {
        lemma2_to64();
        lemma_pow2_adds(64, 64);
        assert(pow2(128) == 0x1_0000_0000_0000_0000_0000_0000_0000_0000) by (nonlinear_arith)
            requires
                pow2(128) == pow2(64) * pow2(64),
                pow2(64) == 0x1_0000_0000_0000_0000,
        ;
        lemma_floor_log2_bound(x as nat, 128);
    }
    let mut whole: u64 = 0;
    let mut rest: u128 = x;
    while rest >= 2
        invariant
            rest >= 1,
            whole + floor_log2(rest as nat) == floor_log2(x as nat),
            floor_log2(x as nat) < 128,
        decreases rest,
    {
        rest = rest / 2;
        whole = whole + 1;
    }
    let mut m: u128 = x;
    while m >= 0x1_0000_0000
        invariant
            m >= 1,
            mantissa(x as nat) == grow_mantissa(shrink_mantissa(m as nat)),
        decreases m,
    {
        m = m / 2;
    }
    while m < 0x8000_0000
        invariant
            1 <= m < 0x1_0000_0000,
            mantissa(x as nat) == grow_mantissa(m as nat),
        decreases
            (if m < 0x8000_0000 {
                0x8000_0000 - m
            } else {
                0
            }),
    {
        m = m * 2;
    }
    let ghost first = m as nat;
    let mut mant: u64 = m as u64;
    let mut places: u64 = 0;
    let mut weight: u64 = 32768;
    while weight > 0
        invariant
            0x8000_0000 <= mant < 0x1_0000_0000,
            weight <= 32768,
            places + 2 * weight <= 65536,
            places + log2_fraction(mant as nat, weight as nat) == log2_fraction(first, 32768),
        decreases weight,
    {
        proof {
            lemma_square_bounds(mant as nat);
        }
        let square: u64 = mant * mant / 0x8000_0000;
        if square >= 0x1_0000_0000 {
            places = places + weight;
            mant = square / 2;
        } else {
            mant = square;
        }
        weight = weight / 2;
    }
    proof {
        lemma_log2_fraction_bound(first, 32768);
    }
    whole * 65536 + places
}

/// The sum of the frequencies of the first `n` tiles of a cell.
pub open spec fn weight_sum(cell: Seq<usize>, frequencies: Seq<u32>, n: int) -> nat
    decreases n,
{
    if n <= 0 {
        0
    } else {
        weight_sum(cell, frequencies, n - 1) + frequencies[cell[n - 1] as int] as nat
    }
}

/// What one tile of frequency `f` adds to the weighted sum of logarithms.
pub open spec fn log_term(f: u32) -> nat {
    if f == 0 {
        0
    } else {
        f as nat * log2_scaled(f as nat)
    }
}

/// The sum of `f * log2(f)`, scaled, over the frequencies `f` of the first
/// `n` tiles of a cell.
pub open spec fn log_sum(cell: Seq<usize>, frequencies: Seq<u32>, n: int) -> nat
    decreases n,
{
    if n <= 0 {
        0
    } else {
        log_sum(cell, frequencies, n - 1) + log_term(frequencies[cell[n - 1] as int])
    }
}

/// The entropy of a cell, scaled by 65536: the logarithm of the total
/// frequency less the mean of the logarithms of the frequencies; 0 for a
/// cell without weight, and never below 0.
pub open spec fn entropy_spec(cell: Seq<usize>, frequencies: Seq<u32>) -> nat {
    let total = weight_sum(cell, frequencies, cell.len() as int);
    if total == 0 {
        0
    } else {
        let top = log2_scaled(total);
        let mean = log_sum(cell, frequencies, cell.len() as int) / total;
        if top >= mean {
            (top - mean) as nat
        } else {
            0
        }
    }
}

/// The entropy of a cell whose tiles have the given frequencies, scaled by
/// 65536.
pub fn entropy(superposition: &[usize], frequencies: &[u32]) -> (e: u64)
    requires
        forall|k: int|
            0 <= k < superposition@.len() ==> superposition@[k] < frequencies@.len(),
    ensures
        e == entropy_spec(superposition@, frequencies@),
{
    let mut total: u128 = 0;
    let mut logs: u128 = 0;
    let mut k: usize = 0;
    while k < superposition.len()
        invariant
            forall|i: int|
                0 <= i < superposition@.len() ==> superposition@[i] < frequencies@.len(),
            k <= superposition@.len(),
            total == weight_sum(superposition@, frequencies@, k as int),
            logs == log_sum(superposition@, frequencies@, k as int),
            total <= k * 0x1_0000_0000,
            logs <= k * 0x80_0000_0000_0000,
        decreases superposition@.len() - k,
    {
        let f: u32 = frequencies[superposition[k]];
        if f > 0 {
            let l = log2_fixed(f as u128);
            proof {
                lemma2_to64();
                lemma_floor_log2_bound(f as nat, 32);
                lemma_log2_fraction_bound(mantissa(f as nat), 32768);
                assert(l < 32 * 65536) by (nonlinear_arith)
                    requires
                        l == floor_log2(f as nat) * 65536 + log2_fraction(
                            mantissa(f as nat),
                            32768,
                        ),
                        floor_log2(f as nat) < 32,
                        log2_fraction(mantissa(f as nat), 32768) < 65536,
                ;
                assert(f * l <= 0x80_0000_0000_0000) by (nonlinear_arith)
                    requires
                        f < 0x1_0000_0000,
                        l < 32 * 65536,
                ;
            }
            logs = logs + (f as u128) * (l as u128);
        }
        total = total + f as u128;
        k = k + 1;
    }
    if total == 0 {
        return 0;
    }
    let top = log2_fixed(total);
    let mean: u128 = logs / total;
    if (top as u128) >= mean {
        top - (mean as u64)
    } else {
        0
    }
}

/// The lowest entropy among the first `n` listed cells; none listed, 0.
pub open spec fn min_entropy(
    cells: Seq<Seq<usize>>,
    listed: Seq<usize>,
    frequencies: Seq<u32>,
    n: int,
) -> nat
    decreases n,
{
    if n <= 0 {
        0
    } else if n == 1 {
        entropy_spec(cells[listed[0] as int], frequencies)
    } else {
        let before = min_entropy(cells, listed, frequencies, n - 1);
        let here = entropy_spec(cells[listed[n - 1] as int], frequencies);
        if here < before {
            here
        } else {
            before
        }
    }
}

/// Whether a cell has the given entropy, as a predicate on its index.
pub open spec fn has_entropy(cells: Seq<Seq<usize>>, frequencies: Seq<u32>, value: nat) -> spec_fn(
    usize,
) -> bool {
    |c: usize| entropy_spec(cells[c as int], frequencies) == value
}

/// The listed cells whose entropy is the lowest among the listed cells, in
/// the order of the list.
pub open spec fn lowest_entropy_spec(
    cells: Seq<Seq<usize>>,
    listed: Seq<usize>,
    frequencies: Seq<u32>,
) -> Seq<usize> {
    listed.filter(
        has_entropy(
            cells,
            frequencies,
            min_entropy(cells, listed, frequencies, listed.len() as int),
        ),
    )
}

/// The lowest entropy is the entropy of a listed cell, and no listed cell
/// has a lower one.
pub proof fn lemma_min_entropy(
    cells: Seq<Seq<usize>>,
    listed: Seq<usize>,
    frequencies: Seq<u32>,
    n: int,
)
    requires
        0 < n <= listed.len(),
    ensures
        forall|i: int|
            0 <= i < n ==> min_entropy(cells, listed, frequencies, n) <= entropy_spec(
                cells[#[trigger] listed[i] as int],
                frequencies,
            ),
        exists|i: int|
            0 <= i < n && min_entropy(cells, listed, frequencies, n) == entropy_spec(
                cells[#[trigger] listed[i] as int],
                frequencies,
            ),
    decreases n,
{
    if n > 1 {
        lemma_min_entropy(cells, listed, frequencies, n - 1);
        let before = min_entropy(cells, listed, frequencies, n - 1);
        let here = entropy_spec(cells[listed[n - 1] as int], frequencies);
        let i = choose|i: int|
            0 <= i < n - 1 && before == entropy_spec(
                cells[#[trigger] listed[i] as int],
                frequencies,
            );
        if here < before {
            assert(min_entropy(cells, listed, frequencies, n) == entropy_spec(
                cells[listed[n - 1] as int],
                frequencies,
            ));
        } else {
            assert(min_entropy(cells, listed, frequencies, n) == entropy_spec(
                cells[listed[i] as int],
                frequencies,
            ));
        }
    } else {
        assert(min_entropy(cells, listed, frequencies, n) == entropy_spec(
            cells[listed[0] as int],
            frequencies,
        ));
    }
}

/// Where cells are listed, at least one of them has the lowest entropy.
pub proof fn lemma_lowest_entropy_nonempty(
    cells: Seq<Seq<usize>>,
    listed: Seq<usize>,
    frequencies: Seq<u32>,
)
    requires
        listed.len() > 0,
    ensures
        lowest_entropy_spec(cells, listed, frequencies).len() > 0,
        forall|k: int|
            0 <= k < lowest_entropy_spec(cells, listed, frequencies).len() ==> listed.contains(
                #[trigger] lowest_entropy_spec(cells, listed, frequencies)[k],
            ),
{
    let n = listed.len() as int;
    let low = min_entropy(cells, listed, frequencies, n);
    let pred = has_entropy(cells, frequencies, low);
    let found = lowest_entropy_spec(cells, listed, frequencies);
    lemma_min_entropy(cells, listed, frequencies, n);
    let i = choose|i: int|
        0 <= i < n && low == entropy_spec(cells[#[trigger] listed[i] as int], frequencies);
    assert(pred(listed[i]));
    listed.lemma_filter_contains(pred, i);
    assert forall|k: int| 0 <= k < found.len() implies listed.contains(#[trigger] found[k]) by {
        assert(found.contains(found[k]));
        listed.lemma_filter_contains_rev(pred, found[k]);
    }
}

/// The cells, among those listed in `not_collapsed`, whose entropy is the
/// lowest there, in the order of the list.
pub fn lowest_entropy(
    superpositions: &[Vec<usize>],
    not_collapsed: &[usize],
    frequencies: &[u32],
) -> (lowest: Vec<usize>)
    requires
        forall|k: int|
            0 <= k < not_collapsed@.len() ==> not_collapsed@[k] < superpositions@.len(),
        forall|i: int, k: int|
            0 <= i < superpositions@.len() && 0 <= k < superpositions@[i]@.len()
                ==> #[trigger] superpositions@[i]@[k] < frequencies@.len(),
    ensures
        lowest@ == lowest_entropy_spec(
            crate::field::cells_view(superpositions@),
            not_collapsed@,
            frequencies@,
        ),
{
    let ghost cells = crate::field::cells_view(superpositions@);
    if not_collapsed.len() == 0 {
        proof {
            reveal(Seq::filter);
        }
        return Vec::new();
    }
    let mut cached: Vec<u64> = Vec::new();
    let mut low: u64 = 0;
    let mut i: usize = 0;
    while i < not_collapsed.len()
        invariant
            cells == crate::field::cells_view(superpositions@),
            forall|k: int|
                0 <= k < not_collapsed@.len() ==> not_collapsed@[k] < superpositions@.len(),
            forall|c: int, k: int|
                0 <= c < superpositions@.len() && 0 <= k < superpositions@[c]@.len()
                    ==> #[trigger] superpositions@[c]@[k] < frequencies@.len(),
            i <= not_collapsed@.len(),
            cached@.len() == i,
            forall|k: int|
                0 <= k < i ==> #[trigger] cached@[k] == entropy_spec(
                    cells[not_collapsed@[k] as int],
                    frequencies@,
                ),
            low == min_entropy(cells, not_collapsed@, frequencies@, i as int),
        decreases not_collapsed@.len() - i,
    {
        let index = not_collapsed[i];
        let cell = &superpositions[index];
        assert(cells[index as int] == cell@);
        assert forall|k: int| 0 <= k < cell@.len() implies cell@[k] < frequencies@.len() by {
            assert(superpositions@[index as int]@[k] < frequencies@.len());
        }
        let value = entropy(cell.as_slice(), frequencies);
        if i == 0 || value < low {
            low = value;
        }
        cached.push(value);
        i = i + 1;
    }
    let ghost pred = has_entropy(cells, frequencies@, low as nat);
    let mut lowest: Vec<usize> = Vec::new();
    let mut j: usize = 0;
    proof {
        reveal(Seq::filter);
        assert(not_collapsed@.take(0) =~= Seq::<usize>::empty());
    }
    while j < not_collapsed.len()
        invariant
            cached@.len() == not_collapsed@.len(),
            forall|k: int|
                0 <= k < not_collapsed@.len() ==> #[trigger] cached@[k] == entropy_spec(
                    cells[not_collapsed@[k] as int],
                    frequencies@,
                ),
            pred == has_entropy(cells, frequencies@, low as nat),
            j <= not_collapsed@.len(),
            lowest@ == not_collapsed@.take(j as int).filter(pred),
        decreases not_collapsed@.len() - j,
    {
        proof {
            reveal(Seq::filter);
            assert(not_collapsed@.take(j + 1).drop_last() =~= not_collapsed@.take(j as int));
            assert(not_collapsed@.take(j + 1).last() == not_collapsed@[j as int]);
        }
        if cached[j] == low {
            lowest.push(not_collapsed[j]);
        }
        j = j + 1;
    }
    assert(not_collapsed@.take(not_collapsed@.len() as int) =~= not_collapsed@);
    lowest
}

} // verus!
