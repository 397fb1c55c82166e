use vstd::prelude::*;

use crate::board_shift::{lane_of, lemma_lane_rank_bijective, pos_at, rank_of, BoardShift};
use crate::position::Position;
use crate::tile::{
    is_pow2, lemma_sum_append, lemma_sum_permutation, sum_values, well_formed_tiles, Tile,
};

verus! {

/// What one shift resolution reports: the surviving tiles with their
/// new positions and values, the identities of the tiles absorbed by a
/// merge, and the score the merges award. The resolver is a pure
/// function; the driver applies this batch to its store.
pub struct ShiftOutcome {
    pub tiles: Vec<Tile>,
    pub removed: Vec<u64>,
    pub score_delta: u64,
}

/// Some tile of `tiles` sits on lane `lane` at distance `r` from the
/// target edge of `dir`.
pub open spec fn has_tile_at(
    tiles: Seq<Tile>,
    dir: BoardShift,
    lane: int,
    r: int,
    size: int,
) -> bool {
    exists|i: int|
        0 <= i < tiles.len() && lane_of(dir, (#[trigger] tiles[i]).pos) == lane && rank_of(
            dir,
            tiles[i].pos,
            size,
        ) == r
}

/// An index of a tile on lane `lane` at rank `r`, when one exists.
pub open spec fn index_at(tiles: Seq<Tile>, dir: BoardShift, lane: int, r: int, size: int) -> int {
    choose|i: int|
        0 <= i < tiles.len() && lane_of(dir, (#[trigger] tiles[i]).pos) == lane && rank_of(
            dir,
            tiles[i].pos,
            size,
        ) == r
}

/// The tiles of one lane, visited from the target edge outward: for
/// each rank below `upto` in turn, the tile at that rank, if any.
pub open spec fn lane_tiles_upto(
    tiles: Seq<Tile>,
    dir: BoardShift,
    lane: int,
    size: int,
    upto: int,
) -> Seq<Tile>
    decreases upto,
{
    if upto <= 0 {
        Seq::empty()
    } else {
        let prefix = lane_tiles_upto(tiles, dir, lane, size, upto - 1);
        if has_tile_at(tiles, dir, lane, upto - 1, size) {
            prefix.push(tiles[index_at(tiles, dir, lane, upto - 1, size)])
        } else {
            prefix
        }
    }
}

/// The whole lane, in traversal order.
pub open spec fn lane_tiles(tiles: Seq<Tile>, dir: BoardShift, lane: int, size: int) -> Seq<Tile> {
    lane_tiles_upto(tiles, dir, lane, size, size)
}

/// One lane after the collapse-and-merge scan, before columns are
/// turned back into cells: the survivors in order. A tile equal in
/// value to its follower absorbs it and doubles; the survivor of a
/// merge is never compared again, so no tile merges twice in one pass.
pub open spec fn merge_lane(ts: Seq<Tile>) -> Seq<Tile>
    decreases ts.len(),
{
    if ts.len() == 0 {
        Seq::empty()
    } else if ts.len() >= 2 && ts[0].value == ts[1].value {
        seq![
            Tile { id: ts[0].id, pos: ts[0].pos, value: (ts[0].value + ts[1].value) as u64 },
        ] + merge_lane(ts.skip(2))
    } else {
        seq![ts[0]] + merge_lane(ts.skip(1))
    }
}

/// The identities the scan of one lane absorbs, in order.
pub open spec fn merge_removed(ts: Seq<Tile>) -> Seq<u64>
    decreases ts.len(),
{
    if ts.len() == 0 {
        Seq::empty()
    } else if ts.len() >= 2 && ts[0].value == ts[1].value {
        seq![ts[1].id] + merge_removed(ts.skip(2))
    } else {
        merge_removed(ts.skip(1))
    }
}

/// The score one lane awards: each merge contributes its post-merge
/// value.
pub open spec fn merge_score(ts: Seq<Tile>) -> int
    decreases ts.len(),
{
    if ts.len() == 0 {
        0
    } else if ts.len() >= 2 && ts[0].value == ts[1].value {
        ts[0].value + ts[1].value + merge_score(ts.skip(2))
    } else {
        merge_score(ts.skip(1))
    }
}

/// The survivors of one lane put back on the grid: the `c`-th survivor
/// goes to the cell of its lane `c` cells from the target edge.
pub open spec fn placed_lane(dir: BoardShift, lane: int, size: int, merged: Seq<Tile>) -> Seq<
    Tile,
> {
    Seq::new(
        merged.len(),
        |c: int| Tile { id: merged[c].id, pos: pos_at(dir, lane, c, size), value: merged[c].value },
    )
}

/// The full resolution of the lanes below `nlanes`, lane by lane.
pub open spec fn shifted_upto(tiles: Seq<Tile>, dir: BoardShift, size: int, nlanes: int) -> Seq<
    Tile,
>
    decreases nlanes,
{
    if nlanes <= 0 {
        Seq::empty()
    } else {
        shifted_upto(tiles, dir, size, nlanes - 1) + placed_lane(
            dir,
            nlanes - 1,
            size,
            merge_lane(lane_tiles(tiles, dir, nlanes - 1, size)),
        )
    }
}

/// Every live tile after resolving a shift: the authoritative
/// (position, value) list, lane by lane, survivors in column order.
pub open spec fn shifted(tiles: Seq<Tile>, dir: BoardShift, size: int) -> Seq<Tile> {
    shifted_upto(tiles, dir, size, size)
}

/// The identities absorbed in the lanes below `nlanes`.
pub open spec fn removed_upto(tiles: Seq<Tile>, dir: BoardShift, size: int, nlanes: int) -> Seq<
    u64,
>
    decreases nlanes,
{
    if nlanes <= 0 {
        Seq::empty()
    } else {
        removed_upto(tiles, dir, size, nlanes - 1) + merge_removed(
            lane_tiles(tiles, dir, nlanes - 1, size),
        )
    }
}

/// Every identity a shift absorbs; the driver destroys these tiles.
pub open spec fn removed_ids(tiles: Seq<Tile>, dir: BoardShift, size: int) -> Seq<u64> {
    removed_upto(tiles, dir, size, size)
}

/// The score awarded by the lanes below `nlanes`.
pub open spec fn score_upto(tiles: Seq<Tile>, dir: BoardShift, size: int, nlanes: int) -> int
    decreases nlanes,
{
    if nlanes <= 0 {
        0
    } else {
        score_upto(tiles, dir, size, nlanes - 1) + merge_score(
            lane_tiles(tiles, dir, nlanes - 1, size),
        )
    }
}

/// The score one shift awards: the sum of all post-merge values.
pub open spec fn shift_score(tiles: Seq<Tile>, dir: BoardShift, size: int) -> int {
    score_upto(tiles, dir, size, size)
}

/// A resolution against `out_tiles` and `removed` changed something:
/// a tile was absorbed, or a surviving identity left its cell.
pub open spec fn moved_from(tiles: Seq<Tile>, out_tiles: Seq<Tile>, removed: Seq<u64>) -> bool {
    removed.len() > 0 || exists|k: int, i: int|
        0 <= k < out_tiles.len() && 0 <= i < tiles.len() && (#[trigger] out_tiles[k]).id == (
        #[trigger] tiles[i]).id && out_tiles[k].pos != tiles[i].pos
}

/// Whether a shift changes the board at all: the driver spawns a new
/// tile only after a shift that does.
pub open spec fn shift_moved(tiles: Seq<Tile>, dir: BoardShift, size: int) -> bool {
    moved_from(tiles, shifted(tiles, dir, size), removed_ids(tiles, dir, size))
}

/// Each merge absorbs exactly one tile, and a pass never absorbs more
/// than half a lane: survivors plus absorbed account for every tile,
/// and at least every other tile survives.
pub proof fn lemma_merge_counts(ts: Seq<Tile>)
    ensures
        merge_lane(ts).len() + merge_removed(ts).len() == ts.len(),
        2 * merge_lane(ts).len() >= ts.len(),
        merge_lane(ts).len() <= ts.len(),
    decreases ts.len(),
{
    if ts.len() == 0 {
    } else if ts.len() >= 2 && ts[0].value == ts[1].value {
        lemma_merge_counts(ts.skip(2));
    } else {
        lemma_merge_counts(ts.skip(1));
    }
}

/// The first two values stand apart from the rest of the sum.
proof fn lemma_sum_two_front(ts: Seq<Tile>)
    requires
        ts.len() >= 2,
    ensures
        sum_values(ts) == ts[0].value + ts[1].value + sum_values(ts.skip(2)),
{
    assert(ts.skip(1).skip(1) =~= ts.skip(2));
    assert(ts.skip(1)[0] == ts[1]);
    assert(sum_values(ts) == ts[0].value + sum_values(ts.skip(1)));
    assert(sum_values(ts.skip(1)) == ts[1].value + sum_values(ts.skip(1).skip(1)));
}

/// Merging conserves the total value of a lane.
pub proof fn lemma_merge_sum(ts: Seq<Tile>)
    requires
        sum_values(ts) <= u64::MAX as int,
    ensures
        sum_values(merge_lane(ts)) == sum_values(ts),
    decreases ts.len(),
{
    if ts.len() == 0 {
    } else if ts.len() >= 2 && ts[0].value == ts[1].value {
        lemma_sum_two_front(ts);
        crate::tile::lemma_sum_nonneg(ts.skip(2));
        lemma_merge_sum(ts.skip(2));
        let m = Tile { id: ts[0].id, pos: ts[0].pos, value: (ts[0].value + ts[1].value) as u64 };
        lemma_sum_append(seq![m], merge_lane(ts.skip(2)));
        assert(seq![m].skip(1) =~= Seq::<Tile>::empty());
        assert(sum_values(seq![m]) == m.value + sum_values(seq![m].skip(1)));
        assert(sum_values(Seq::<Tile>::empty()) == 0);
    } else {
        crate::tile::lemma_sum_nonneg(ts.skip(1));
        lemma_merge_sum(ts.skip(1));
        lemma_sum_append(seq![ts[0]], merge_lane(ts.skip(1)));
        assert(seq![ts[0]].skip(1) =~= Seq::<Tile>::empty());
        assert(sum_values(seq![ts[0]]) == ts[0].value + sum_values(seq![ts[0]].skip(1)));
        assert(sum_values(Seq::<Tile>::empty()) == 0);
        assert(sum_values(ts) == ts[0].value + sum_values(ts.skip(1)));
    }
}

/// The score of a lane is bounded by the value it holds: each merge
/// contributes the combined value of a disjoint pair of its tiles.
pub proof fn lemma_merge_score_bound(ts: Seq<Tile>)
    ensures
        0 <= merge_score(ts) <= sum_values(ts),
    decreases ts.len(),
{
    crate::tile::lemma_sum_nonneg(ts);
    if ts.len() == 0 {
    } else if ts.len() >= 2 && ts[0].value == ts[1].value {
        lemma_sum_two_front(ts);
        lemma_merge_score_bound(ts.skip(2));
    } else {
        lemma_merge_score_bound(ts.skip(1));
        crate::tile::lemma_sum_nonneg(ts.skip(1));
        assert(sum_values(ts) == ts[0].value + sum_values(ts.skip(1)));
    }
}

/// Doubling keeps a value a power of two.
proof fn lemma_pow2_double(v: int)
    requires
        is_pow2(v),
    ensures
        is_pow2(2 * v),
{
    assert(2 * v != 2 && 2 * v >= 4 && (2 * v) % 2 == 0 && (2 * v) / 2 == v);
}

/// Survivors of a lane scan still carry powers of two.
pub proof fn lemma_merge_pow2(ts: Seq<Tile>)
    requires
        forall|k: int| 0 <= k < ts.len() ==> is_pow2((#[trigger] ts[k]).value as int),
        sum_values(ts) <= u64::MAX as int,
    ensures
        forall|c: int|
            0 <= c < merge_lane(ts).len() ==> is_pow2((#[trigger] merge_lane(ts)[c]).value as int),
    decreases ts.len(),
{
    if ts.len() == 0 {
    } else if ts.len() >= 2 && ts[0].value == ts[1].value {
        lemma_sum_two_front(ts);
        crate::tile::lemma_sum_nonneg(ts.skip(2));
        lemma_merge_pow2(ts.skip(2));
        lemma_pow2_double(ts[0].value as int);
        assert forall|c: int| 0 <= c < merge_lane(ts).len() implies is_pow2(
            (#[trigger] merge_lane(ts)[c]).value as int,
        ) by {
            if c > 0 {
                assert(merge_lane(ts)[c] == merge_lane(ts.skip(2))[c - 1]);
            }
        }
    } else {
        crate::tile::lemma_sum_nonneg(ts.skip(1));
        lemma_merge_pow2(ts.skip(1));
        assert forall|c: int| 0 <= c < merge_lane(ts).len() implies is_pow2(
            (#[trigger] merge_lane(ts)[c]).value as int,
        ) by {
            if c > 0 {
                assert(merge_lane(ts)[c] == merge_lane(ts.skip(1))[c - 1]);
            }
        }
    }
}

/// Every survivor of a lane scan descends from one tile of the lane:
/// same identity, and its value either kept or doubled by one merge —
/// never more than doubled, so no chain of three or more collapses
/// into one tile in a single pass.
pub proof fn lemma_merge_provenance(ts: Seq<Tile>)
    requires
        sum_values(ts) <= u64::MAX as int,
    ensures
        forall|c: int|
            0 <= c < merge_lane(ts).len() ==> exists|i: int|
                {
                    &&& 0 <= i < ts.len()
                    &&& (#[trigger] merge_lane(ts)[c]).id == ts[i].id
                    &&& (merge_lane(ts)[c].value == ts[i].value || merge_lane(ts)[c].value == 2
                        * ts[i].value)
                },
    decreases ts.len(),
{
    if ts.len() == 0 {
    } else if ts.len() >= 2 && ts[0].value == ts[1].value {
        lemma_sum_two_front(ts);
        crate::tile::lemma_sum_nonneg(ts.skip(2));
        lemma_merge_provenance(ts.skip(2));
        assert forall|c: int| 0 <= c < merge_lane(ts).len() implies exists|i: int|
            {
                &&& 0 <= i < ts.len()
                &&& (#[trigger] merge_lane(ts)[c]).id == ts[i].id
                &&& (merge_lane(ts)[c].value == ts[i].value || merge_lane(ts)[c].value == 2
                    * ts[i].value)
            } by {
            if c == 0 {
                assert(merge_lane(ts)[0].id == ts[0].id && merge_lane(ts)[0].value == 2
                    * ts[0].value);
            } else {
                let rest = merge_lane(ts.skip(2));
                assert(merge_lane(ts)[c] == rest[c - 1]);
                let i = choose|i: int|
                    {
                        &&& 0 <= i < ts.skip(2).len()
                        &&& (#[trigger] rest[c - 1]).id == ts.skip(2)[i].id
                        &&& (rest[c - 1].value == ts.skip(2)[i].value || rest[c - 1].value == 2
                            * ts.skip(2)[i].value)
                    };
                assert(ts.skip(2)[i] == ts[i + 2]);
            }
        }
    } else {
        crate::tile::lemma_sum_nonneg(ts.skip(1));
        lemma_merge_provenance(ts.skip(1));
        assert forall|c: int| 0 <= c < merge_lane(ts).len() implies exists|i: int|
            {
                &&& 0 <= i < ts.len()
                &&& (#[trigger] merge_lane(ts)[c]).id == ts[i].id
                &&& (merge_lane(ts)[c].value == ts[i].value || merge_lane(ts)[c].value == 2
                    * ts[i].value)
            } by {
            if c == 0 {
                assert(merge_lane(ts)[0] == ts[0]);
            } else {
                let rest = merge_lane(ts.skip(1));
                assert(merge_lane(ts)[c] == rest[c - 1]);
                let i = choose|i: int|
                    {
                        &&& 0 <= i < ts.skip(1).len()
                        &&& (#[trigger] rest[c - 1]).id == ts.skip(1)[i].id
                        &&& (rest[c - 1].value == ts.skip(1)[i].value || rest[c - 1].value == 2
                            * ts.skip(1)[i].value)
                    };
                assert(ts.skip(1)[i] == ts[i + 1]);
            }
        }
    }
}

/// What the lane extraction guarantees: every entry is a tile of the
/// store, lies on the lane, and the entries run from the target edge
/// outward with strictly growing rank, one per rank below `upto`.
pub open spec fn lane_seq_ok(
    lt: Seq<Tile>,
    tiles: Seq<Tile>,
    dir: BoardShift,
    lane: int,
    size: int,
    upto: int,
) -> bool {
    &&& lt.len() <= upto
    &&& forall|k: int| 0 <= k < lt.len() ==> tiles.contains(#[trigger] lt[k])
    &&& forall|k: int| 0 <= k < lt.len() ==> lane_of(dir, (#[trigger] lt[k]).pos) == lane
    &&& forall|k: int| 0 <= k < lt.len() ==> 0 <= rank_of(dir, (#[trigger] lt[k]).pos, size) < upto
    &&& forall|k1: int, k2: int|
        0 <= k1 < k2 < lt.len() ==> rank_of(dir, (#[trigger] lt[k1]).pos, size) < rank_of(
            dir,
            (#[trigger] lt[k2]).pos,
            size,
        )
}

/// The lane extraction delivers what `lane_seq_ok` promises.
pub proof fn lemma_lane_tiles_ok(tiles: Seq<Tile>, dir: BoardShift, lane: int, size: int, upto: int)
    requires
        well_formed_tiles(tiles, size),
        0 <= upto <= size,
        0 < size <= 255,
    ensures
        lane_seq_ok(lane_tiles_upto(tiles, dir, lane, size, upto), tiles, dir, lane, size, upto),
    decreases upto,
{
    if upto > 0 {
        lemma_lane_tiles_ok(tiles, dir, lane, size, upto - 1);
        let prefix = lane_tiles_upto(tiles, dir, lane, size, upto - 1);
        if has_tile_at(tiles, dir, lane, upto - 1, size) {
            let i = index_at(tiles, dir, lane, upto - 1, size);
            assert(0 <= i < tiles.len() && lane_of(dir, tiles[i].pos) == lane && rank_of(
                dir,
                tiles[i].pos,
                size,
            ) == upto - 1);
            let lt = prefix.push(tiles[i]);
            assert(tiles.contains(tiles[i]));
            assert(forall|k: int| 0 <= k < prefix.len() ==> lt[k] == prefix[k]);
            assert(lt[prefix.len() as int] == tiles[i]);
        }
    }
}

/// A tile on the lane with rank below `upto` is delivered by the
/// extraction.
pub proof fn lemma_lane_tiles_complete(
    tiles: Seq<Tile>,
    dir: BoardShift,
    lane: int,
    size: int,
    upto: int,
    i: int,
)
    requires
        well_formed_tiles(tiles, size),
        0 <= upto <= size,
        0 < size <= 255,
        0 <= i < tiles.len(),
        lane_of(dir, tiles[i].pos) == lane,
        rank_of(dir, tiles[i].pos, size) < upto,
    ensures
        lane_tiles_upto(tiles, dir, lane, size, upto).contains(tiles[i]),
    decreases upto,
{
    lemma_lane_rank_bijective(dir, size, tiles[i].pos, 0, 0);
    let r = rank_of(dir, tiles[i].pos, size);
    let prefix = lane_tiles_upto(tiles, dir, lane, size, upto - 1);
    if r == upto - 1 {
        assert(has_tile_at(tiles, dir, lane, upto - 1, size));
        let j = index_at(tiles, dir, lane, upto - 1, size);
        lemma_lane_rank_bijective(dir, size, tiles[j].pos, 0, 0);
        assert(tiles[j].pos == tiles[i].pos);
        assert(j == i);
        let lt = prefix.push(tiles[i]);
        assert(lt[prefix.len() as int] == tiles[i]);
    } else {
        lemma_lane_tiles_complete(tiles, dir, lane, size, upto - 1, i);
        let k = choose|k: int| 0 <= k < prefix.len() && prefix[k] == tiles[i];
        if has_tile_at(tiles, dir, lane, upto - 1, size) {
            let j = index_at(tiles, dir, lane, upto - 1, size);
            assert(prefix.push(tiles[j])[k] == tiles[i]);
        }
    }
}

/// All lanes below `upto`, one after the other, in traversal order.
pub open spec fn lanes_concat(tiles: Seq<Tile>, dir: BoardShift, size: int, upto: int) -> Seq<Tile>
    decreases upto,
{
    if upto <= 0 {
        Seq::empty()
    } else {
        lanes_concat(tiles, dir, size, upto - 1) + lane_tiles(tiles, dir, upto - 1, size)
    }
}

/// Every entry of the lane concatenation is a tile of the store, on a
/// lane below `upto`; entries of one lane keep their `lane_seq_ok`
/// facts, and no entry repeats.
pub proof fn lemma_lanes_concat_ok(tiles: Seq<Tile>, dir: BoardShift, size: int, upto: int)
    requires
        well_formed_tiles(tiles, size),
        0 <= upto <= size,
        0 < size <= 255,
    ensures
        forall|k: int|
            0 <= k < lanes_concat(tiles, dir, size, upto).len() ==> tiles.contains(
                #[trigger] lanes_concat(tiles, dir, size, upto)[k],
            ),
        forall|k: int|
            0 <= k < lanes_concat(tiles, dir, size, upto).len() ==> 0 <= lane_of(
                dir,
                (#[trigger] lanes_concat(tiles, dir, size, upto)[k]).pos,
            ) < upto,
        lanes_concat(tiles, dir, size, upto).no_duplicates(),
    decreases upto,
{
    if upto > 0 {
        lemma_lanes_concat_ok(tiles, dir, size, upto - 1);
        lemma_lane_tiles_ok(tiles, dir, upto - 1, size, size);
        let a = lanes_concat(tiles, dir, size, upto - 1);
        let b = lane_tiles(tiles, dir, upto - 1, size);
        assert forall|k1: int, k2: int|
            0 <= k1 < k2 < (a + b).len() implies (a + b)[k1] != (a + b)[k2] by {
            if k1 < a.len() && k2 >= a.len() {
                assert((a + b)[k1] == a[k1] && (a + b)[k2] == b[k2 - a.len()]);
                assert(lane_of(dir, a[k1].pos) < upto - 1);
                assert(lane_of(dir, b[k2 - a.len()].pos) == upto - 1);
            } else if k1 >= a.len() {
                assert((a + b)[k1] == b[k1 - a.len()] && (a + b)[k2] == b[k2 - a.len()]);
                assert(rank_of(dir, b[k1 - a.len()].pos, size) < rank_of(
                    dir,
                    b[k2 - a.len()].pos,
                    size,
                ));
            }
        }
    }
}

/// A tile of the store appears in the concatenation of all its lanes.
pub proof fn lemma_lanes_concat_complete(
    tiles: Seq<Tile>,
    dir: BoardShift,
    size: int,
    upto: int,
    i: int,
)
    requires
        well_formed_tiles(tiles, size),
        0 <= upto <= size,
        0 < size <= 255,
        0 <= i < tiles.len(),
        lane_of(dir, tiles[i].pos) < upto,
    ensures
        lanes_concat(tiles, dir, size, upto).contains(tiles[i]),
    decreases upto,
{
    lemma_lane_rank_bijective(dir, size, tiles[i].pos, 0, 0);
    let a = lanes_concat(tiles, dir, size, upto - 1);
    let b = lane_tiles(tiles, dir, upto - 1, size);
    if lane_of(dir, tiles[i].pos) == upto - 1 {
        lemma_lane_tiles_complete(tiles, dir, upto - 1, size, size, i);
        let k = choose|k: int| 0 <= k < b.len() && b[k] == tiles[i];
        assert((a + b)[a.len() + k] == tiles[i]);
    } else {
        lemma_lanes_concat_complete(tiles, dir, size, upto - 1, i);
        let k = choose|k: int| 0 <= k < a.len() && a[k] == tiles[i];
        assert((a + b)[k] == tiles[i]);
    }
}

/// Lane by lane, the traversal visits every tile of the store exactly
/// once: the concatenation of the lanes is a permutation of the store.
pub proof fn lemma_lanes_partition(tiles: Seq<Tile>, dir: BoardShift, size: int)
    requires
        well_formed_tiles(tiles, size),
        0 < size <= 255,
    ensures
        lanes_concat(tiles, dir, size, size).to_multiset() == tiles.to_multiset(),
{
    broadcast use vstd::seq_lib::group_to_multiset_ensures;

    let all = lanes_concat(tiles, dir, size, size);
    lemma_lanes_concat_ok(tiles, dir, size, size);
    assert(tiles.no_duplicates()) by {
        assert forall|i: int, j: int|
            0 <= i < tiles.len() && 0 <= j < tiles.len() && i != j implies tiles[i] != tiles[j] by {
            assert(tiles[i].pos != tiles[j].pos);
        }
    }
    all.lemma_multiset_has_no_duplicates();
    tiles.lemma_multiset_has_no_duplicates();
    assert forall|x: Tile| true implies all.to_multiset().count(x) == tiles.to_multiset().count(
        x,
    ) by {
        if tiles.contains(x) {
            let i = tiles.index_of(x);
            lemma_lane_rank_bijective(dir, size, x.pos, 0, 0);
            lemma_lanes_concat_complete(tiles, dir, size, size, i);
            assert(all.to_multiset().count(x) == 1 && tiles.to_multiset().count(x) == 1);
        } else {
            assert(!all.contains(x));
            assert(all.to_multiset().count(x) == 0 && tiles.to_multiset().count(x) == 0);
        }
    }
    assert(all.to_multiset() =~= tiles.to_multiset());
}

/// The values of the store, summed lane by lane, are the values of the
/// store.
pub proof fn lemma_lanes_sum(tiles: Seq<Tile>, dir: BoardShift, size: int)
    requires
        well_formed_tiles(tiles, size),
        0 < size <= 255,
    ensures
        sum_values(lanes_concat(tiles, dir, size, size)) == sum_values(tiles),
{
    lemma_lanes_partition(tiles, dir, size);
    lemma_sum_permutation(lanes_concat(tiles, dir, size, size), tiles);
}

/// The score of the lanes below `n` never exceeds the value they hold.
pub proof fn lemma_score_le_concat_sum(tiles: Seq<Tile>, dir: BoardShift, size: int, n: int)
    ensures
        0 <= score_upto(tiles, dir, size, n) <= sum_values(lanes_concat(tiles, dir, size, n)),
    decreases n,
{
    if n <= 0 {
    } else {
        lemma_score_le_concat_sum(tiles, dir, size, n - 1);
        lemma_merge_score_bound(lane_tiles(tiles, dir, n - 1, size));
        lemma_sum_append(
            lanes_concat(tiles, dir, size, n - 1),
            lane_tiles(tiles, dir, n - 1, size),
        );
    }
}

/// Covering more lanes never lowers the value they hold.
pub proof fn lemma_concat_sum_monotone(tiles: Seq<Tile>, dir: BoardShift, size: int, m: int, n: int)
    requires
        0 <= m <= n,
    ensures
        sum_values(lanes_concat(tiles, dir, size, m)) <= sum_values(lanes_concat(tiles, dir, size, n)),
    decreases n,
{
    if m < n {
        lemma_concat_sum_monotone(tiles, dir, size, m, n - 1);
        crate::tile::lemma_sum_nonneg(lane_tiles(tiles, dir, n - 1, size));
        lemma_sum_append(
            lanes_concat(tiles, dir, size, n - 1),
            lane_tiles(tiles, dir, n - 1, size),
        );
    }
}

/// The cell of lane `lane` at distance `col` from the target edge.
fn position_of(dir: BoardShift, lane: u8, col: u8, size: u8) -> (p: Position)
    requires
        lane < size,
        col < size,
    ensures
        p == pos_at(dir, lane as int, col as int, size as int),
{
    match dir {
        BoardShift::Up => Position { x: lane, y: size - 1 - col },
        BoardShift::Down => Position { x: lane, y: col },
        BoardShift::Left => Position { x: col, y: lane },
        BoardShift::Right => Position { x: size - 1 - col, y: lane },
    }
}

/// The index of the tile sitting on lane `lane` at rank `r`, if any.
#[verifier::loop_isolation(false)]
fn find_tile_at(tiles: &Vec<Tile>, dir: BoardShift, lane: u8, r: u8, size: u8) -> (res: Option<
    usize,
>)
    requires
        well_formed_tiles(tiles@, size as int),
        lane < size,
        r < size,
    ensures
        match res {
            Some(j) => {
                &&& j < tiles@.len()
                &&& lane_of(dir, tiles@[j as int].pos) == lane as int
                &&& rank_of(dir, tiles@[j as int].pos, size as int) == r as int
            },
            None => !has_tile_at(tiles@, dir, lane as int, r as int, size as int),
        },
{
    let target = position_of(dir, lane, r, size);
    proof {
        lemma_lane_rank_bijective(dir, size as int, target, lane as int, r as int);
    }
    let mut j: usize = 0;
    while j < tiles.len()
        invariant
            j <= tiles@.len(),
            forall|k: int| 0 <= k < j ==> (#[trigger] tiles@[k]).pos != target,
        decreases tiles@.len() - j,
    {
        if tiles[j].pos == target {
            return Some(j);
        }
        j += 1;
    }
    proof {
        if has_tile_at(tiles@, dir, lane as int, r as int, size as int) {
            let i = index_at(tiles@, dir, lane as int, r as int, size as int);
            lemma_lane_rank_bijective(dir, size as int, tiles@[i].pos, 0, 0);
            assert(tiles@[i].pos == target);
        }
    }
    None
}

/// Resolve one shift command over the whole store: slide every tile as
/// far as its lane allows toward the target edge, merge each pair of
/// adjacent equal values once, and report the survivors, the absorbed
/// identities and the score, as one batch computed from a single
/// snapshot. The pass visits tiles lane block by lane block, within
/// each lane from the target edge outward — the order the two-key
/// comparator induces inside a lane — keeping a column counter that
/// restarts at every lane boundary, so no merge crosses one. Always
/// total: a shift that moves nothing reports the tiles back on their
/// cells with no removal and no score.
#[verifier::loop_isolation(false)]
#[verifier::rlimit(100)]
pub fn board_shift(dir: BoardShift, tiles: &Vec<Tile>, size: u8) -> (out: ShiftOutcome)
    requires
        well_formed_tiles(tiles@, size as int),
        0 < size,
        sum_values(tiles@) <= u64::MAX as int,
    ensures
        out.tiles@ == shifted(tiles@, dir, size as int),
        out.removed@ == removed_ids(tiles@, dir, size as int),
        out.score_delta as int == shift_score(tiles@, dir, size as int),
{
    let mut out_tiles: Vec<Tile> = Vec::new();
    let mut removed: Vec<u64> = Vec::new();
    let mut score: u64 = 0;
    let mut lane: u8 = 0;
    while lane < size
        invariant
            lane <= size,
            out_tiles@ == shifted_upto(tiles@, dir, size as int, lane as int),
            removed@ == removed_upto(tiles@, dir, size as int, lane as int),
            score as int == score_upto(tiles@, dir, size as int, lane as int),
        decreases size as int - lane as int,
    {
        let mut lane_ts: Vec<Tile> = Vec::new();
        let mut r: u8 = 0;
        while r < size
            invariant
                r <= size,
                lane < size,
                lane_ts@ == lane_tiles_upto(tiles@, dir, lane as int, size as int, r as int),
            decreases size as int - r as int,
        {
            match find_tile_at(tiles, dir, lane, r, size) {
                Some(j) => {
                    let tile = tiles[j];
                    proof {
                        assert(has_tile_at(tiles@, dir, lane as int, r as int, size as int));
                        let i = index_at(tiles@, dir, lane as int, r as int, size as int);
                        lemma_lane_rank_bijective(dir, size as int, tiles@[i].pos, 0, 0);
                        lemma_lane_rank_bijective(dir, size as int, tiles@[j as int].pos, 0, 0);
                        assert(tiles@[i].pos == tiles@[j as int].pos);
                        assert(i == j as int);
                    }
                    lane_ts.push(tile);
                },
                None => {},
            }
            r = r + 1;
        }
        let ghost lt = lane_ts@;
        proof {
            assert(lt == lane_tiles(tiles@, dir, lane as int, size as int));
            lemma_lane_tiles_ok(tiles@, dir, lane as int, size as int, size as int);
            lemma_merge_counts(lt);
        }
        let ghost full = merge_lane(lt);
        let ghost fullrm = merge_removed(lt);
        let ghost fullsc = merge_score(lt);
        let ghost out0 = out_tiles@;
        let ghost rm0 = removed@;
        let ghost sc0 = score as int;
        let ghost mut rmk: int = 0;
        let mut i: usize = 0;
        let mut c: u8 = 0;
        proof {
            assert(lt.skip(0) =~= lt);
            assert(full.skip(0) =~= full);
            assert(fullrm.skip(0) =~= fullrm);
            assert(fullrm.take(0) =~= Seq::<u64>::empty());
            assert(placed_lane(dir, lane as int, size as int, full).take(0) =~= Seq::<
                Tile,
            >::empty());
            assert(out_tiles@ =~= out0 + placed_lane(dir, lane as int, size as int, full).take(0));
            assert(removed@ =~= rm0 + fullrm.take(0));
        }
        while i < lane_ts.len()
            invariant
                i <= lt.len(),
                c as int <= full.len(),
                0 <= rmk <= fullrm.len(),
                merge_lane(lt.skip(i as int)) == full.skip(c as int),
                merge_removed(lt.skip(i as int)) == fullrm.skip(rmk),
                merge_score(lt.skip(i as int)) == fullsc - (score as int - sc0),
                out_tiles@ == out0 + placed_lane(dir, lane as int, size as int, full).take(
                    c as int,
                ),
                removed@ == rm0 + fullrm.take(rmk),
                score as int >= sc0,
            decreases lt.len() - i,
        {
            let ghost s_i = lt.skip(i as int);
            proof {
                assert(s_i[0] == lt[i as int]);
                assert(s_i.len() == lt.len() - i);
                assert(full.skip(c as int).len() > 0);
                assert((c as int) < full.len());
                assert(full.len() <= lt.len() <= size as int);
            }
            let v = lane_ts[i].value;
            let mergeable = i + 1 < lane_ts.len() && lane_ts[i + 1].value == v;
            if mergeable {
                proof {
                    assert(s_i[1] == lt[i as int + 1]);
                    // the two lane tiles are distinct tiles of the store, so
                    // their combined value is bounded by the store's total
                    assert(tiles@.contains(lt[i as int]));
                    assert(tiles@.contains(lt[i as int + 1]));
                    assert(rank_of(dir, lt[i as int].pos, size as int) < rank_of(
                        dir,
                        lt[i as int + 1].pos,
                        size as int,
                    ));
                    let ai = tiles@.index_of(lt[i as int]);
                    let bi = tiles@.index_of(lt[i as int + 1]);
                    assert(tiles@[ai] != tiles@[bi]);
                    crate::tile::lemma_pair_le_sum(tiles@, ai, bi);
                    assert(lt[i as int].value + lt[i as int + 1].value <= u64::MAX as int);
                }
                let merged_value = v + lane_ts[i + 1].value;
                let ghost m = Tile { id: s_i[0].id, pos: s_i[0].pos, value: merged_value };
                proof {
                    assert(merge_lane(s_i) == seq![m] + merge_lane(s_i.skip(2)));
                    assert(merge_removed(s_i) == seq![s_i[1].id] + merge_removed(s_i.skip(2)));
                    assert(merge_score(s_i) == s_i[0].value + s_i[1].value + merge_score(
                        s_i.skip(2),
                    ));
                    assert(s_i.skip(2) =~= lt.skip(i as int + 2));
                    // score stays within the total value of the store
                    lemma_merge_score_bound(lt.skip(i as int + 2));
                    lemma_score_le_concat_sum(tiles@, dir, size as int, lane as int + 1);
                    lemma_concat_sum_monotone(tiles@, dir, size as int, lane as int + 1, size as int);
                    lemma_lanes_sum(tiles@, dir, size as int);
                    assert(sc0 + fullsc == score_upto(tiles@, dir, size as int, lane as int + 1));
                }
                let survivor = Tile {
                    id: lane_ts[i].id,
                    pos: position_of(dir, lane, c, size),
                    value: merged_value,
                };
                out_tiles.push(survivor);
                removed.push(lane_ts[i + 1].id);
                score = score + merged_value;
                proof {
                    let placed = placed_lane(dir, lane as int, size as int, full);
                    assert(full[c as int] == full.skip(c as int)[0]);
                    assert(full[c as int] == m);
                    assert(placed[c as int] == survivor);
                    assert(placed.take(c as int + 1) =~= placed.take(c as int).push(
                        placed[c as int],
                    ));
                    assert(full.skip(c as int + 1) =~= full.skip(c as int).skip(1));
                    assert(full.skip(c as int).skip(1) =~= merge_lane(s_i.skip(2)));
                    assert(fullrm[rmk] == fullrm.skip(rmk)[0]);
                    assert(fullrm.take(rmk + 1) =~= fullrm.take(rmk).push(fullrm[rmk]));
                    assert(fullrm.skip(rmk + 1) =~= fullrm.skip(rmk).skip(1));
                    assert(fullrm.skip(rmk).skip(1) =~= merge_removed(s_i.skip(2)));
                    rmk = rmk + 1;
                }
                i = i + 2;
            } else {
                proof {
                    assert(merge_lane(s_i) == seq![s_i[0]] + merge_lane(s_i.skip(1)));
                    assert(merge_removed(s_i) == merge_removed(s_i.skip(1)));
                    assert(merge_score(s_i) == merge_score(s_i.skip(1)));
                    assert(s_i.skip(1) =~= lt.skip(i as int + 1));
                }
                let survivor = Tile {
                    id: lane_ts[i].id,
                    pos: position_of(dir, lane, c, size),
                    value: v,
                };
                out_tiles.push(survivor);
                proof {
                    let placed = placed_lane(dir, lane as int, size as int, full);
                    assert(full[c as int] == full.skip(c as int)[0]);
                    assert(full[c as int] == s_i[0]);
                    assert(placed[c as int] == survivor);
                    assert(placed.take(c as int + 1) =~= placed.take(c as int).push(
                        placed[c as int],
                    ));
                    assert(full.skip(c as int + 1) =~= full.skip(c as int).skip(1));
                    assert(full.skip(c as int).skip(1) =~= merge_lane(s_i.skip(1)));
                }
                i = i + 1;
            }
            c = c + 1;
        }
        proof {
            assert(lt.skip(lt.len() as int) =~= Seq::<Tile>::empty());
            assert(merge_lane(Seq::<Tile>::empty()) =~= Seq::<Tile>::empty());
            assert(merge_removed(Seq::<Tile>::empty()) =~= Seq::<u64>::empty());
            assert(full.skip(c as int).len() == 0);
            assert(c as int == full.len());
            assert(fullrm.skip(rmk).len() == 0);
            assert(rmk == fullrm.len());
            let placed = placed_lane(dir, lane as int, size as int, full);
            assert(placed.take(c as int) =~= placed);
            assert(fullrm.take(rmk) =~= fullrm);
            assert(out_tiles@ == shifted_upto(tiles@, dir, size as int, lane as int + 1));
            assert(removed@ == removed_upto(tiles@, dir, size as int, lane as int + 1));
            assert(score as int == score_upto(tiles@, dir, size as int, lane as int + 1));
        }
        lane = lane + 1;
    }
    ShiftOutcome { tiles: out_tiles, removed, score_delta: score }
}

} // verus!
