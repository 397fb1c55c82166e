use vstd::prelude::*;

use crate::position::{in_range, Position};

verus! {

/// A live tile: a stable identity, a grid cell, and a point value.
/// The identity is opaque to the rules; it only names the tile so the
/// resolver can report which tiles were absorbed by a merge.
#[derive(Clone, Copy, Debug, PartialEq, Eq, Structural)]
pub struct Tile {
    pub id: u64,
    pub pos: Position,
    pub value: u64,
}

/// `v` is a power of two and at least 2: the only values a tile can hold.
pub open spec fn is_pow2(v: int) -> bool
    decreases v,
{
    if v < 2 {
        false
    } else if v == 2 {
        true
    } else {
        v % 2 == 0 && is_pow2(v / 2)
    }
}

/// Some tile of `tiles` sits on cell `p`.
pub open spec fn occupied(tiles: Seq<Tile>, p: Position) -> bool {
    exists|i: int| 0 <= i < tiles.len() && (#[trigger] tiles[i]).pos == p
}

/// The store invariant, held at every observable state boundary: every
/// tile inside the grid, no two tiles on one cell, no two tiles under
/// one identity, every value a power of two at least 2.
pub open spec fn well_formed_tiles(tiles: Seq<Tile>, size: int) -> bool {
    &&& forall|i: int| 0 <= i < tiles.len() ==> in_range((#[trigger] tiles[i]).pos, size)
    &&& forall|i: int, j: int|
        0 <= i < tiles.len() && 0 <= j < tiles.len() && i != j ==> (#[trigger] tiles[i]).pos != (
        #[trigger] tiles[j]).pos
    &&& forall|i: int, j: int|
        0 <= i < tiles.len() && 0 <= j < tiles.len() && i != j ==> (#[trigger] tiles[i]).id != (
        #[trigger] tiles[j]).id
    &&& forall|i: int| 0 <= i < tiles.len() ==> is_pow2((#[trigger] tiles[i]).value as int)
}

/// Total of all tile values in the sequence.
pub open spec fn sum_values(s: Seq<Tile>) -> int
    decreases s.len(),
{
    if s.len() == 0 {
        0
    } else {
        s[0].value + sum_values(s.skip(1))
    }
}

/// A sum of tile values is never negative.
pub proof fn lemma_sum_nonneg(s: Seq<Tile>)
    ensures
        sum_values(s) >= 0,
    decreases s.len(),
{
    if s.len() > 0 {
        lemma_sum_nonneg(s.skip(1));
    }
}

/// A tile of the sequence contributes no more than the whole sum.
pub proof fn lemma_member_le_sum(s: Seq<Tile>, i: int)
    requires
        0 <= i < s.len(),
    ensures
        s[i].value <= sum_values(s),
    decreases s.len(),
{
    lemma_sum_nonneg(s.skip(1));
    if i > 0 {
        lemma_member_le_sum(s.skip(1), i - 1);
    }
}

/// Two tiles at different places contribute no more than the whole sum.
pub proof fn lemma_pair_le_sum(s: Seq<Tile>, i: int, j: int)
    requires
        0 <= i < s.len(),
        0 <= j < s.len(),
        i != j,
    ensures
        s[i].value + s[j].value <= sum_values(s),
    decreases s.len(),
{
    if i == 0 {
        lemma_member_le_sum(s.skip(1), j - 1);
    } else if j == 0 {
        lemma_member_le_sum(s.skip(1), i - 1);
    } else {
        lemma_pair_le_sum(s.skip(1), i - 1, j - 1);
    }
}

/// Sums read only the values: sequences equal value by value have
/// equal sums.
pub proof fn lemma_sum_pointwise(a: Seq<Tile>, b: Seq<Tile>)
    requires
        a.len() == b.len(),
        forall|k: int| 0 <= k < a.len() ==> (#[trigger] a[k]).value == b[k].value,
    ensures
        sum_values(a) == sum_values(b),
    decreases a.len(),
{
    if a.len() > 0 {
        assert(forall|k: int|
            0 <= k < a.skip(1).len() ==> (#[trigger] a.skip(1)[k]).value == b.skip(1)[k].value);
        lemma_sum_pointwise(a.skip(1), b.skip(1));
    }
}

/// The sum of a concatenation is the sum of the parts.
pub proof fn lemma_sum_append(a: Seq<Tile>, b: Seq<Tile>)
    ensures
        sum_values(a + b) == sum_values(a) + sum_values(b),
    decreases a.len(),
{
    if a.len() == 0 {
        assert(a + b =~= b);
    } else {
        assert((a + b).skip(1) =~= a.skip(1) + b);
        lemma_sum_append(a.skip(1), b);
    }
}

/// Two sequences holding the same tiles in any order have the same sum.
pub proof fn lemma_sum_permutation(a: Seq<Tile>, b: Seq<Tile>)
    requires
        a.to_multiset() == b.to_multiset(),
    ensures
        sum_values(a) == sum_values(b),
    decreases a.len(),
{
    broadcast use vstd::seq_lib::group_to_multiset_ensures;

    if a.len() == 0 {
        assert(b.to_multiset().len() == 0);
    } else {
        let x = a[0];
        assert(a.contains(x));
        assert(b.to_multiset().count(x) > 0);
        assert(b.contains(x));
        let i = b.index_of(x);
        let b_pre = b.subrange(0, i);
        let b_post = b.subrange(i + 1, b.len() as int);
        assert(b =~= b_pre + (seq![x] + b_post));
        lemma_sum_append(b_pre, seq![x] + b_post);
        lemma_sum_append(seq![x], b_post);
        assert((seq![x] + b_post).skip(1) =~= b_post);
        assert(seq![x].skip(1) =~= Seq::<Tile>::empty());
        assert(sum_values(b) == sum_values(b_pre) + x.value + sum_values(b_post));

        let a_rest = a.skip(1);
        assert(a_rest =~= a.remove(0));
        assert(a_rest.to_multiset() =~= a.to_multiset().remove(x));
        let b_rest = b.remove(i);
        assert(b_rest.to_multiset() =~= b.to_multiset().remove(x));
        assert(b_rest =~= b_pre + b_post);
        lemma_sum_append(b_pre, b_post);
        lemma_sum_permutation(a_rest, b_rest);
    }
}

} // verus!
