//! The adjacency relation between tiles: which tile may lie beside which, in
//! each of the four directions.

use crate::library::tiles_view;
use crate::tile::direction_offset;
use crate::tile::lemma_tiles_match_symmetric;
use crate::tile::offset_x;
use crate::tile::offset_y;
use crate::tile::opposite;
use crate::tile::tiles_match_at;
use crate::tile::tiles_match_spec;
use crate::tile::Tile;
use crate::tile::DIRECTIONS;
use vstd::arithmetic::div_mod::lemma_fundamental_div_mod_converse;
use vstd::prelude::*;

verus! {

/// The place of the triple `(id1, direction, id2)` in the flat table.
pub open spec fn rule_index(count: int, direction: int, id1: int, id2: int) -> int {
    id1 * count * 4 + direction * count + id2
}

/// Every triple has a place inside the table.
pub proof fn lemma_rule_index_bound(count: int, direction: int, id1: int, id2: int)
    requires
        0 <= direction < 4,
        0 <= id1 < count,
        0 <= id2 < count,
    ensures
        0 <= rule_index(count, direction, id1, id2) < count * count * 4,
        0 <= id1 * count,
        0 <= id1 * count * 4,
        0 <= direction * count,
        id1 * count * 4 + direction * count <= rule_index(count, direction, id1, id2),
{
    assert(0 <= id1 * count && id1 * count + count <= count * count) by (nonlinear_arith)
        requires
            0 <= id1 < count,
    ;
    assert(0 <= direction * count && direction * count + count <= 4 * count) by (nonlinear_arith)
        requires
            0 <= direction < 4,
            0 < count,
    ;
}

/// Two different triples have different places.
pub proof fn lemma_rule_index_injective(
    count: int,
    d1: int,
    a1: int,
    b1: int,
    d2: int,
    a2: int,
    b2: int,
)
    requires
        0 <= d1 < 4,
        0 <= a1 < count,
        0 <= b1 < count,
        0 <= d2 < 4,
        0 <= a2 < count,
        0 <= b2 < count,
        rule_index(count, d1, a1, b1) == rule_index(count, d2, a2, b2),
    ensures
        d1 == d2,
        a1 == a2,
        b1 == b2,
{
    let i = rule_index(count, d1, a1, b1);
    assert(a1 * count * 4 + d1 * count == (a1 * 4 + d1) * count) by (nonlinear_arith);
    assert(a2 * count * 4 + d2 * count == (a2 * 4 + d2) * count) by (nonlinear_arith);
    lemma_fundamental_div_mod_converse(i, count, a1 * 4 + d1, b1);
    lemma_fundamental_div_mod_converse(i, count, a2 * 4 + d2, b2);
}

/// For each ordered pair of tiles and each direction, whether the second
/// tile may lie beside the first in that direction.
pub struct RuleTable {
    rules: Vec<bool>,
    tile_count: usize,
}

impl RuleTable {
    /// The number of tiles that the table speaks of.
    pub closed spec fn count(&self) -> nat {
        self.tile_count as nat
    }

    /// The table has one entry per triple.
    pub closed spec fn wf(&self) -> bool {
        self.rules@.len() == self.tile_count * self.tile_count * 4
    }

    /// Tile `id2` may lie beside tile `id1` in `direction`.
    pub closed spec fn allowed(&self, direction: int, id1: int, id2: int) -> bool {
        self.rules@[rule_index(self.tile_count as int, direction, id1, id2)]
    }

    /// The table reads the same in both ways: what is allowed in one
    /// direction is allowed, the tiles exchanged, in the opposite one.
    pub open spec fn symmetric(&self) -> bool {
        forall|d: int, a: int, b: int|
            0 <= d < 4 && 0 <= a < self.count() && 0 <= b < self.count() ==> (
            #[trigger] self.allowed(d, a, b) ==> self.allowed(crate::tile::opposite(d), b, a))
    }

    /// Tile `b` has a tile that allows it as its neighbour in direction `d`.
    pub open spec fn has_supporter(&self, d: int, b: int) -> bool {
        exists|a: int| 0 <= a < self.count() && self.allowed(d, a, b)
    }

    /// No tile is ruled out from the start: in every direction, every tile
    /// is allowed beside at least one tile.
    pub open spec fn supportive(&self) -> bool {
        forall|d: int, b: int|
            0 <= d < 4 && 0 <= b < self.count() ==> #[trigger] self.has_supporter(d, b)
    }

    /// The table says of the given tiles of side `n` exactly what the
    /// overlap test says: the second tile may lie beside the first in a
    /// direction if, shifted by one step in that direction, it agrees with
    /// the first wherever the two overlap.
    pub open spec fn describes(&self, tiles: Seq<Seq<u32>>, n: int) -> bool {
        &&& self.wf()
        &&& self.count() == tiles.len()
        &&& forall|d: int, a: int, b: int|
            0 <= d < 4 && 0 <= a < tiles.len() && 0 <= b < tiles.len() ==> (#[trigger] self.allowed(
                d,
                a,
                b,
            ) <==> tiles_match_spec(tiles[a], tiles[b], offset_x(d), offset_y(d), n))
    }

    /// A table for `count` tiles that allows nothing.
    pub fn new(count: usize) -> (table: Self)
        requires
            count * count * 4 <= usize::MAX,
        ensures
            table.wf(),
            table.count() == count,
            forall|d: int, a: int, b: int|
                0 <= d < 4 && 0 <= a < count && 0 <= b < count ==> !#[trigger] table.allowed(
                    d,
                    a,
                    b,
                ),
    {
        assert(count * count <= count * count * 4) by (nonlinear_arith);
        let table = Self { rules: vec![false; count * count * DIRECTIONS], tile_count: count };
        assert forall|d: int, a: int, b: int|
            0 <= d < 4 && 0 <= a < count && 0 <= b < count implies !#[trigger] table.allowed(
            d,
            a,
            b,
        ) by {
            lemma_rule_index_bound(count as int, d, a, b);
        }
        table
    }

    /// The number of tiles that the table speaks of.
    pub fn tile_count(&self) -> (n: usize)
        ensures
            n == self.count(),
    {
        self.tile_count
    }

    /// Allows tile `id2` beside tile `id1` in `direction`. Nothing else
    /// changes.
    pub fn add_rule(&mut self, direction: usize, id1: usize, id2: usize)
        requires
            old(self).wf(),
            direction < 4,
            id1 < old(self).count(),
            id2 < old(self).count(),
        ensures
            final(self).wf(),
            final(self).count() == old(self).count(),
            forall|d: int, a: int, b: int|
                0 <= d < 4 && 0 <= a < old(self).count() && 0 <= b < old(self).count() ==> (
                #[trigger] final(self).allowed(d, a, b) <==> (old(self).allowed(d, a, b) || (d
                    == direction && a == id1 && b == id2))),
    {
        let ghost count = self.tile_count as int;
        proof {
            lemma_rule_index_bound(count, direction as int, id1 as int, id2 as int);
            assert(self.rules.len() == self.tile_count * self.tile_count * 4);
        }
        let index = id1 * self.tile_count * DIRECTIONS + direction * self.tile_count + id2;
        self.rules[index] = true;
        proof {
            assert forall|d: int, a: int, b: int|
                0 <= d < 4 && 0 <= a < count && 0 <= b < count implies (
            #[trigger] self.allowed(d, a, b) <==> (old(self).allowed(d, a, b) || (d == direction
                && a == id1 && b == id2))) by {
                lemma_rule_index_bound(count, d, a, b);
                if rule_index(count, d, a, b) == index {
                    lemma_rule_index_injective(
                        count,
                        d,
                        a,
                        b,
                        direction as int,
                        id1 as int,
                        id2 as int,
                    );
                }
            }
        }
    }

    /// Whether tile `id2` may lie beside tile `id1` in `direction`.
    pub fn okay(&self, direction: usize, id1: usize, id2: usize) -> (ok: bool)
        requires
            self.wf(),
            direction < 4,
            id1 < self.count(),
            id2 < self.count(),
        ensures
            ok == self.allowed(direction as int, id1 as int, id2 as int),
    {
        proof {
            lemma_rule_index_bound(
                self.tile_count as int,
                direction as int,
                id1 as int,
                id2 as int,
            );
            assert(self.rules.len() == self.tile_count * self.tile_count * 4);
        }
        self.rules[id1 * self.tile_count * DIRECTIONS + direction * self.tile_count + id2]
    }
}

/// Whether the triple `(a, b, d)` comes before `(a1, b1, d1)` when the
/// pairs of tiles are gone through in order and, for each pair, the
/// directions.
pub open spec fn visited_before(a: int, b: int, d: int, a1: int, b1: int, d1: int) -> bool {
    a < a1 || (a == a1 && (b < b1 || (b == b1 && d < d1)))
}

impl RuleTable {
    /// The table of the given tiles: runs the overlap test on every ordered
    /// pair of tiles in every direction.
    pub fn derive(tiles: &Vec<Tile>, tile_sz: usize) -> (table: RuleTable)
        requires
            tile_sz > 0,
            tiles@.len() * tiles@.len() * 4 <= usize::MAX,
            forall|i: int|
                0 <= i < tiles@.len() ==> (#[trigger] tiles@[i])@.len() == tile_sz * tile_sz,
        ensures
            table.describes(tiles_view(tiles@), tile_sz as int),
    {
        let count = tiles.len();
        let ghost tv = tiles_view(tiles@);
        let ghost n = tile_sz as int;
        let mut rules = RuleTable::new(count);
        let mut id1: usize = 0;
        while id1 < count
            invariant
                tile_sz > 0,
                n == tile_sz,
                count == tiles@.len(),
                tv == tiles_view(tiles@),
                forall|i: int|
                    0 <= i < tiles@.len() ==> (#[trigger] tiles@[i])@.len() == tile_sz * tile_sz,
                id1 <= count,
                rules.wf(),
                rules.count() == count,
                forall|d: int, a: int, b: int|
                    0 <= d < 4 && 0 <= a < count && 0 <= b < count ==> (#[trigger] rules.allowed(
                        d,
                        a,
                        b,
                    ) <==> (visited_before(a, b, d, id1 as int, 0, 0) && tiles_match_spec(
                        tv[a],
                        tv[b],
                        offset_x(d),
                        offset_y(d),
                        n,
                    ))),
            decreases count - id1,
        {
            let mut id2: usize = 0;
            while id2 < count
                invariant
                    tile_sz > 0,
                    n == tile_sz,
                    count == tiles@.len(),
                    tv == tiles_view(tiles@),
                    forall|i: int|
                        0 <= i < tiles@.len() ==> (#[trigger] tiles@[i])@.len() == tile_sz
                            * tile_sz,
                    id1 < count,
                    id2 <= count,
                    rules.wf(),
                    rules.count() == count,
                    forall|d: int, a: int, b: int|
                        0 <= d < 4 && 0 <= a < count && 0 <= b < count ==> (
                        #[trigger] rules.allowed(d, a, b) <==> (visited_before(
                            a,
                            b,
                            d,
                            id1 as int,
                            id2 as int,
                            0,
                        ) && tiles_match_spec(tv[a], tv[b], offset_x(d), offset_y(d), n))),
                decreases count - id2,
            {
                let mut direction: usize = 0;
                while direction < DIRECTIONS
                    invariant
                        tile_sz > 0,
                        n == tile_sz,
                        count == tiles@.len(),
                        tv == tiles_view(tiles@),
                        forall|i: int|
                            0 <= i < tiles@.len() ==> (#[trigger] tiles@[i])@.len() == tile_sz
                                * tile_sz,
                        id1 < count,
                        id2 < count,
                        direction <= DIRECTIONS,
                        rules.wf(),
                        rules.count() == count,
                        forall|d: int, a: int, b: int|
                            0 <= d < 4 && 0 <= a < count && 0 <= b < count ==> (
                            #[trigger] rules.allowed(d, a, b) <==> (visited_before(
                                a,
                                b,
                                d,
                                id1 as int,
                                id2 as int,
                                direction as int,
                            ) && tiles_match_spec(tv[a], tv[b], offset_x(d), offset_y(d), n))),
                    decreases DIRECTIONS - direction,
                {
                    let offset = direction_offset(direction);
                    assert(tv[id1 as int] == tiles@[id1 as int]@);
                    assert(tv[id2 as int] == tiles@[id2 as int]@);
                    if tiles_match_at(&tiles[id1], &tiles[id2], offset.0, offset.1, tile_sz) {
                        rules.add_rule(direction, id1, id2);
                    }
                    direction = direction + 1;
                }
                id2 = id2 + 1;
            }
            id1 = id1 + 1;
        }
        rules
    }
}

/// A table that describes tiles by the overlap test reads the same in both
/// ways: if `b` may lie beside `a` in a direction, `a` may lie beside `b` in
/// the opposite direction.
pub proof fn lemma_described_rules_symmetric(table: RuleTable, tiles: Seq<Seq<u32>>, n: int)
    requires
        table.describes(tiles, n),
    ensures
        table.symmetric(),
{
    assert forall|d: int, a: int, b: int|
        0 <= d < 4 && 0 <= a < table.count() && 0 <= b < table.count() && #[trigger] table.allowed(
            d,
            a,
            b,
        ) implies table.allowed(opposite(d), b, a) by {
        {
            lemma_tiles_match_symmetric(tiles[a], tiles[b], offset_x(d), offset_y(d), n);
            assert(table.allowed(opposite(d), b, a) <==> tiles_match_spec(
                tiles[b],
                tiles[a],
                offset_x(opposite(d)),
                offset_y(opposite(d)),
                n,
            ));
        }
    }
}

impl Clone for RuleTable {
    fn clone(&self) -> (table: Self)
        ensures
            table.count() == self.count(),
            table.wf() == self.wf(),
            forall|d: int, a: int, b: int| #[trigger]
                table.allowed(d, a, b) == self.allowed(d, a, b),
    {
        let table = RuleTable { rules: self.rules.clone(), tile_count: self.tile_count };
        assert(table.rules@ =~= self.rules@);
        table
    }
}

} // verus!
