use vstd::prelude::*;

use crate::board_shift::{lane_of, lemma_lane_rank_bijective, pos_at, rank_of, BoardShift};
use crate::position::in_range;
use crate::shift::{
    has_tile_at, index_at, lane_tiles, lane_tiles_upto, lanes_concat, lemma_concat_sum_monotone,
    lemma_lane_tiles_ok, lemma_lanes_partition, lemma_lanes_sum, lemma_merge_counts,
    lemma_merge_pow2, lemma_merge_provenance, lemma_merge_sum, merge_lane, merge_removed,
    merge_score, placed_lane, removed_ids, removed_upto, score_upto, shift_score, shifted,
    shifted_upto,
};
use crate::tile::{
    is_pow2, lemma_sum_append, lemma_sum_nonneg, lemma_sum_pointwise, sum_values,
    well_formed_tiles, Tile,
};

verus! {

/// One lane holds no more value than the whole store.
pub proof fn lemma_lane_sum_le_total(tiles: Seq<Tile>, dir: BoardShift, size: int, lane: int)
    requires
        well_formed_tiles(tiles, size),
        0 < size <= 255,
        0 <= lane < size,
    ensures
        0 <= sum_values(lane_tiles(tiles, dir, lane, size)) <= sum_values(tiles),
    decreases size,
{
    let lt = lane_tiles(tiles, dir, lane, size);
    lemma_sum_nonneg(lt);
    lemma_sum_nonneg(lanes_concat(tiles, dir, size, lane));
    lemma_sum_append(lanes_concat(tiles, dir, size, lane), lt);
    lemma_concat_sum_monotone(tiles, dir, size, lane + 1, size);
    lemma_lanes_sum(tiles, dir, size);
}

/// Where every entry of the resolved board comes from and where it
/// sits: inside the grid, on a lane below `n`, each lane's survivors
/// on their own cells.
pub proof fn lemma_shifted_upto_ok(tiles: Seq<Tile>, dir: BoardShift, size: int, n: int)
    requires
        well_formed_tiles(tiles, size),
        0 < size <= 255,
        0 <= n <= size,
    ensures
        forall|k: int|
            0 <= k < shifted_upto(tiles, dir, size, n).len() ==> in_range(
                (#[trigger] shifted_upto(tiles, dir, size, n)[k]).pos,
                size,
            ) && 0 <= lane_of(dir, shifted_upto(tiles, dir, size, n)[k].pos) < n,
        forall|k1: int, k2: int|
            0 <= k1 < k2 < shifted_upto(tiles, dir, size, n).len() ==> (#[trigger] shifted_upto(
                tiles,
                dir,
                size,
                n,
            )[k1]).pos != (#[trigger] shifted_upto(tiles, dir, size, n)[k2]).pos,
    decreases n,
{
    if n > 0 {
        lemma_shifted_upto_ok(tiles, dir, size, n - 1);
        lemma_lane_tiles_ok(tiles, dir, n - 1, size, size);
        lemma_merge_counts(lane_tiles(tiles, dir, n - 1, size));
        let prev = shifted_upto(tiles, dir, size, n - 1);
        let merged = merge_lane(lane_tiles(tiles, dir, n - 1, size));
        let placed = placed_lane(dir, n - 1, size, merged);
        let s = shifted_upto(tiles, dir, size, n);
        assert(s == prev + placed);
        assert forall|c: int| 0 <= c < placed.len() implies in_range(
            (#[trigger] placed[c]).pos,
            size,
        ) && lane_of(dir, placed[c].pos) == n - 1 && rank_of(dir, placed[c].pos, size) == c by {
            lemma_lane_rank_bijective(dir, size, placed[c].pos, n - 1, c);
        }
        assert forall|k: int| 0 <= k < s.len() implies in_range((#[trigger] s[k]).pos, size) && 0
            <= lane_of(dir, s[k].pos) < n by {
            if k < prev.len() {
                assert(s[k] == prev[k]);
            } else {
                assert(s[k] == placed[k - prev.len()]);
            }
        }
        assert forall|k1: int, k2: int| 0 <= k1 < k2 < s.len() implies (#[trigger] s[k1]).pos != (
        #[trigger] s[k2]).pos by {
            if k1 < prev.len() && k2 < prev.len() {
                assert(s[k1] == prev[k1] && s[k2] == prev[k2]);
            } else if k1 < prev.len() {
                assert(s[k1] == prev[k1] && s[k2] == placed[k2 - prev.len()]);
                assert(lane_of(dir, s[k1].pos) < n - 1);
                assert(lane_of(dir, s[k2].pos) == n - 1);
            } else {
                assert(s[k1] == placed[k1 - prev.len()] && s[k2] == placed[k2 - prev.len()]);
                assert(rank_of(dir, s[k1].pos, size) != rank_of(dir, s[k2].pos, size));
            }
        }
    }
}

/// After any resolution, no two live tiles share a cell, and every
/// tile stays inside the grid.
pub proof fn lemma_shift_no_overlap(tiles: Seq<Tile>, dir: BoardShift, size: int)
    requires
        well_formed_tiles(tiles, size),
        0 < size <= 255,
    ensures
        forall|k1: int, k2: int|
            0 <= k1 < k2 < shifted(tiles, dir, size).len() ==> (#[trigger] shifted(
                tiles,
                dir,
                size,
            )[k1]).pos != (#[trigger] shifted(tiles, dir, size)[k2]).pos,
        forall|k: int|
            0 <= k < shifted(tiles, dir, size).len() ==> in_range(
                (#[trigger] shifted(tiles, dir, size)[k]).pos,
                size,
            ),
{
    lemma_shifted_upto_ok(tiles, dir, size, size);
}

/// Every value a resolution leaves on the board is a power of two at
/// least 2: an untouched tile keeps its value, a merge doubles one.
pub proof fn lemma_shift_values_pow2(tiles: Seq<Tile>, dir: BoardShift, size: int)
    requires
        well_formed_tiles(tiles, size),
        0 < size <= 255,
        sum_values(tiles) <= u64::MAX as int,
    ensures
        forall|k: int|
            0 <= k < shifted(tiles, dir, size).len() ==> is_pow2(
                (#[trigger] shifted(tiles, dir, size)[k]).value as int,
            ),
{
    lemma_shifted_pow2_upto(tiles, dir, size, size);
}

proof fn lemma_shifted_pow2_upto(tiles: Seq<Tile>, dir: BoardShift, size: int, n: int)
    requires
        well_formed_tiles(tiles, size),
        0 < size <= 255,
        sum_values(tiles) <= u64::MAX as int,
        0 <= n <= size,
    ensures
        forall|k: int|
            0 <= k < shifted_upto(tiles, dir, size, n).len() ==> is_pow2(
                (#[trigger] shifted_upto(tiles, dir, size, n)[k]).value as int,
            ),
    decreases n,
{
    if n > 0 {
        lemma_shifted_pow2_upto(tiles, dir, size, n - 1);
        let lt = lane_tiles(tiles, dir, n - 1, size);
        lemma_lane_tiles_ok(tiles, dir, n - 1, size, size);
        lemma_lane_sum_le_total(tiles, dir, size, n - 1);
        assert forall|k: int| 0 <= k < lt.len() implies is_pow2((#[trigger] lt[k]).value as int) by {
            assert(tiles.contains(lt[k]));
            let i = tiles.index_of(lt[k]);
            assert(is_pow2(tiles[i].value as int));
        }
        lemma_merge_pow2(lt);
        let prev = shifted_upto(tiles, dir, size, n - 1);
        let merged = merge_lane(lt);
        let placed = placed_lane(dir, n - 1, size, merged);
        let s = shifted_upto(tiles, dir, size, n);
        assert(s == prev + placed);
        assert forall|k: int| 0 <= k < s.len() implies is_pow2((#[trigger] s[k]).value as int) by {
            if k < prev.len() {
                assert(s[k] == prev[k]);
            } else {
                assert(s[k] == placed[k - prev.len()]);
                assert(placed[k - prev.len()].value == merged[k - prev.len()].value);
            }
        }
    }
}

/// Conservation: a shift neither creates nor destroys value — the
/// total of all tile values after the resolution equals the total
/// before it.
pub proof fn lemma_shift_conserves_sum(tiles: Seq<Tile>, dir: BoardShift, size: int)
    requires
        well_formed_tiles(tiles, size),
        0 < size <= 255,
        sum_values(tiles) <= u64::MAX as int,
    ensures
        sum_values(shifted(tiles, dir, size)) == sum_values(tiles),
{
    lemma_shifted_sum_upto(tiles, dir, size, size);
    lemma_lanes_sum(tiles, dir, size);
}

proof fn lemma_shifted_sum_upto(tiles: Seq<Tile>, dir: BoardShift, size: int, n: int)
    requires
        well_formed_tiles(tiles, size),
        0 < size <= 255,
        sum_values(tiles) <= u64::MAX as int,
        0 <= n <= size,
    ensures
        sum_values(shifted_upto(tiles, dir, size, n)) == sum_values(lanes_concat(tiles, dir, size, n)),
    decreases n,
{
    if n > 0 {
        lemma_shifted_sum_upto(tiles, dir, size, n - 1);
        let lt = lane_tiles(tiles, dir, n - 1, size);
        lemma_lane_sum_le_total(tiles, dir, size, n - 1);
        lemma_merge_sum(lt);
        let merged = merge_lane(lt);
        let placed = placed_lane(dir, n - 1, size, merged);
        lemma_sum_pointwise(placed, merged);
        lemma_sum_append(shifted_upto(tiles, dir, size, n - 1), placed);
        lemma_sum_append(lanes_concat(tiles, dir, size, n - 1), lt);
    }
}

/// The single-merge rule, lane by lane: of `k` tiles in a lane at most
/// `k` divided by 2 (rounded down) merge away, every merge absorbs
/// exactly one tile, and each survivor keeps one source tile's value
/// or exactly doubles it — never a chain of three or more collapsing
/// into one tile in a single pass.
pub proof fn lemma_single_merge_rule(tiles: Seq<Tile>, dir: BoardShift, size: int, lane: int)
    requires
        well_formed_tiles(tiles, size),
        0 < size <= 255,
        sum_values(tiles) <= u64::MAX as int,
        0 <= lane < size,
    ensures
        merge_lane(lane_tiles(tiles, dir, lane, size)).len() + merge_removed(
            lane_tiles(tiles, dir, lane, size),
        ).len() == lane_tiles(tiles, dir, lane, size).len(),
        2 * merge_lane(lane_tiles(tiles, dir, lane, size)).len() >= lane_tiles(
            tiles,
            dir,
            lane,
            size,
        ).len(),
        forall|c: int|
            0 <= c < merge_lane(lane_tiles(tiles, dir, lane, size)).len() ==> exists|i: int|
                {
                    &&& 0 <= i < lane_tiles(tiles, dir, lane, size).len()
                    &&& (#[trigger] merge_lane(lane_tiles(tiles, dir, lane, size))[c]).id
                        == lane_tiles(tiles, dir, lane, size)[i].id
                    &&& (merge_lane(lane_tiles(tiles, dir, lane, size))[c].value == lane_tiles(
                        tiles,
                        dir,
                        lane,
                        size,
                    )[i].value || merge_lane(lane_tiles(tiles, dir, lane, size))[c].value == 2
                        * lane_tiles(tiles, dir, lane, size)[i].value)
                },
{
    lemma_merge_counts(lane_tiles(tiles, dir, lane, size));
    lemma_lane_sum_le_total(tiles, dir, size, lane);
    lemma_merge_provenance(lane_tiles(tiles, dir, lane, size));
}

/// Identities pass through a lane scan: every survivor carries the
/// identity of one lane tile, and no identity is handed out twice.
proof fn lemma_merge_ids(ts: Seq<Tile>)
    requires
        forall|i: int, j: int|
            0 <= i < ts.len() && 0 <= j < ts.len() && i != j ==> (#[trigger] ts[i]).id != (
            #[trigger] ts[j]).id,
    ensures
        forall|c: int|
            0 <= c < merge_lane(ts).len() ==> exists|i: int|
                0 <= i < ts.len() && (#[trigger] merge_lane(ts)[c]).id == ts[i].id,
        forall|c1: int, c2: int|
            0 <= c1 < c2 < merge_lane(ts).len() ==> (#[trigger] merge_lane(ts)[c1]).id != (
            #[trigger] merge_lane(ts)[c2]).id,
    decreases ts.len(),
{
    if ts.len() == 0 {
    } else {
        let step: int = if ts.len() >= 2 && ts[0].value == ts[1].value {
            2
        } else {
            1
        };
        let rest = ts.skip(step);
        assert(forall|i: int, j: int|
            0 <= i < rest.len() && 0 <= j < rest.len() && i != j ==> (#[trigger] rest[i]).id != (
            #[trigger] rest[j]).id);
        lemma_merge_ids(rest);
        let out = merge_lane(ts);
        assert(out[0].id == ts[0].id);
        assert forall|c: int| 0 <= c < out.len() implies exists|i: int|
            0 <= i < ts.len() && (#[trigger] out[c]).id == ts[i].id by {
            if c == 0 {
                assert(out[0].id == ts[0].id);
            } else {
                assert(out[c] == merge_lane(rest)[c - 1]);
                let i = choose|i: int|
                    0 <= i < rest.len() && (#[trigger] merge_lane(rest)[c - 1]).id == rest[i].id;
                assert(rest[i] == ts[i + step]);
            }
        }
        assert forall|c1: int, c2: int| 0 <= c1 < c2 < out.len() implies (#[trigger] out[c1]).id
            != (#[trigger] out[c2]).id by {
            if c1 == 0 {
                assert(out[c2] == merge_lane(rest)[c2 - 1]);
                let i = choose|i: int|
                    0 <= i < rest.len() && (#[trigger] merge_lane(rest)[c2 - 1]).id == rest[i].id;
                assert(rest[i] == ts[i + step]);
                assert(out[c2].id == ts[i + step].id);
                assert(ts[i + step].id != ts[0].id);
            } else {
                assert(out[c1] == merge_lane(rest)[c1 - 1]);
                assert(out[c2] == merge_lane(rest)[c2 - 1]);
            }
        }
    }
}

/// Every entry of the resolved board carries the identity of a tile of
/// the store on the same lane, and no identity appears twice.
proof fn lemma_shifted_ids_upto(tiles: Seq<Tile>, dir: BoardShift, size: int, n: int)
    requires
        well_formed_tiles(tiles, size),
        0 < size <= 255,
        0 <= n <= size,
    ensures
        forall|k: int|
            0 <= k < shifted_upto(tiles, dir, size, n).len() ==> exists|i: int|
                {
                    &&& 0 <= i < tiles.len()
                    &&& (#[trigger] shifted_upto(tiles, dir, size, n)[k]).id == tiles[i].id
                    &&& lane_of(dir, tiles[i].pos) == lane_of(
                        dir,
                        shifted_upto(tiles, dir, size, n)[k].pos,
                    )
                },
        forall|k1: int, k2: int|
            0 <= k1 < k2 < shifted_upto(tiles, dir, size, n).len() ==> (#[trigger] shifted_upto(
                tiles,
                dir,
                size,
                n,
            )[k1]).id != (#[trigger] shifted_upto(tiles, dir, size, n)[k2]).id,
    decreases n,
{
    if n > 0 {
        lemma_shifted_ids_upto(tiles, dir, size, n - 1);
        lemma_shifted_upto_ok(tiles, dir, size, n - 1);
        lemma_shifted_upto_ok(tiles, dir, size, n);
        let lt = lane_tiles(tiles, dir, n - 1, size);
        lemma_lane_tiles_ok(tiles, dir, n - 1, size, size);
        assert forall|i: int, j: int|
            0 <= i < lt.len() && 0 <= j < lt.len() && i != j implies (#[trigger] lt[i]).id != (
        #[trigger] lt[j]).id by {
            assert(rank_of(dir, lt[if i < j {
                i
            } else {
                j
            }].pos, size) < rank_of(dir, lt[if i < j {
                j
            } else {
                i
            }].pos, size));
            assert(lt[i] != lt[j]);
            let a = tiles.index_of(lt[i]);
            let b = tiles.index_of(lt[j]);
            assert(tiles[a] == lt[i] && tiles[b] == lt[j]);
            assert(a != b);
        }
        lemma_merge_ids(lt);
        let prev = shifted_upto(tiles, dir, size, n - 1);
        let merged = merge_lane(lt);
        let placed = placed_lane(dir, n - 1, size, merged);
        let s = shifted_upto(tiles, dir, size, n);
        assert(s == prev + placed);
        assert forall|c: int| 0 <= c < placed.len() implies exists|i: int|
            {
                &&& 0 <= i < tiles.len()
                &&& (#[trigger] placed[c]).id == tiles[i].id
                &&& lane_of(dir, tiles[i].pos) == n - 1
            } by {
            let j = choose|j: int| 0 <= j < lt.len() && (#[trigger] merged[c]).id == lt[j].id;
            let i = tiles.index_of(lt[j]);
            assert(tiles[i] == lt[j]);
            assert(placed[c].id == tiles[i].id && lane_of(dir, tiles[i].pos) == n - 1);
        }
        assert forall|k: int| 0 <= k < s.len() implies exists|i: int|
            {
                &&& 0 <= i < tiles.len()
                &&& (#[trigger] s[k]).id == tiles[i].id
                &&& lane_of(dir, tiles[i].pos) == lane_of(dir, s[k].pos)
            } by {
            if k < prev.len() {
                assert(s[k] == prev[k]);
            } else {
                let c = k - prev.len();
                assert(s[k] == placed[c]);
                assert(lane_of(dir, s[k].pos) == n - 1) by {
                    lemma_lane_rank_bijective(dir, size, placed[c].pos, n - 1, c);
                    lemma_merge_counts(lt);
                }
            }
        }
        assert forall|k1: int, k2: int| 0 <= k1 < k2 < s.len() implies (#[trigger] s[k1]).id != (
        #[trigger] s[k2]).id by {
            if k1 < prev.len() && k2 >= prev.len() {
                assert(s[k1] == prev[k1] && s[k2] == placed[k2 - prev.len()]);
                let i1 = choose|i: int|
                    {
                        &&& 0 <= i < tiles.len()
                        &&& (#[trigger] prev[k1]).id == tiles[i].id
                        &&& lane_of(dir, tiles[i].pos) == lane_of(dir, prev[k1].pos)
                    };
                let i2 = choose|i: int|
                    {
                        &&& 0 <= i < tiles.len()
                        &&& (#[trigger] placed[k2 - prev.len()]).id == tiles[i].id
                        &&& lane_of(dir, tiles[i].pos) == n - 1
                    };
                assert(lane_of(dir, tiles[i1].pos) < n - 1);
                assert(i1 != i2);
            } else if k1 >= prev.len() {
                assert(s[k1] == placed[k1 - prev.len()] && s[k2] == placed[k2 - prev.len()]);
            } else {
                assert(s[k1] == prev[k1] && s[k2] == prev[k2]);
            }
        }
    }
}

/// After any resolution the full store invariant holds again: tiles
/// inside the grid, one per cell, one per identity, all values powers
/// of two.
pub proof fn lemma_shift_well_formed(tiles: Seq<Tile>, dir: BoardShift, size: int)
    requires
        well_formed_tiles(tiles, size),
        0 < size <= 255,
        sum_values(tiles) <= u64::MAX as int,
    ensures
        well_formed_tiles(shifted(tiles, dir, size), size),
{
    lemma_shift_no_overlap(tiles, dir, size);
    lemma_shift_values_pow2(tiles, dir, size);
    lemma_shifted_ids_upto(tiles, dir, size, size);
}

/// Surviving identities come from the store: any bound on the store's
/// identities bounds the resolved board's.
pub proof fn lemma_shift_ids_bounded(tiles: Seq<Tile>, dir: BoardShift, size: int, bound: u64)
    requires
        well_formed_tiles(tiles, size),
        0 < size <= 255,
        forall|i: int| 0 <= i < tiles.len() ==> (#[trigger] tiles[i]).id < bound,
    ensures
        forall|k: int|
            0 <= k < shifted(tiles, dir, size).len() ==> (#[trigger] shifted(
                tiles,
                dir,
                size,
            )[k]).id < bound,
{
    lemma_shifted_ids_upto(tiles, dir, size, size);
    assert forall|k: int| 0 <= k < shifted(tiles, dir, size).len() implies (#[trigger] shifted(
        tiles,
        dir,
        size,
    )[k]).id < bound by {
        let s = shifted_upto(tiles, dir, size, size);
        let i = choose|i: int|
            {
                &&& 0 <= i < tiles.len()
                &&& (#[trigger] s[k]).id == tiles[i].id
                &&& lane_of(dir, tiles[i].pos) == lane_of(dir, s[k].pos)
            };
        assert(tiles[i].id < bound);
    }
}

/// The score a shift awards never exceeds the value on the board.
pub proof fn lemma_shift_score_bounded(tiles: Seq<Tile>, dir: BoardShift, size: int)
    requires
        well_formed_tiles(tiles, size),
        0 < size <= 255,
    ensures
        0 <= shift_score(tiles, dir, size) <= sum_values(tiles),
{
    crate::shift::lemma_score_le_concat_sum(tiles, dir, size, size);
    lemma_lanes_sum(tiles, dir, size);
}

/// Bookkeeping of a resolution: the survivors and the absorbed
/// identities together account for every tile of the store, one each.
pub proof fn lemma_shift_counts(tiles: Seq<Tile>, dir: BoardShift, size: int)
    requires
        well_formed_tiles(tiles, size),
        0 < size <= 255,
    ensures
        shifted(tiles, dir, size).len() + removed_ids(tiles, dir, size).len() == tiles.len(),
{
    broadcast use vstd::seq_lib::group_to_multiset_ensures;

    lemma_shift_counts_upto(tiles, dir, size, size);
    lemma_lanes_partition(tiles, dir, size);
    assert(lanes_concat(tiles, dir, size, size).to_multiset().len() == tiles.to_multiset().len());
}

proof fn lemma_shift_counts_upto(tiles: Seq<Tile>, dir: BoardShift, size: int, n: int)
    requires
        0 <= n,
    ensures
        shifted_upto(tiles, dir, size, n).len() + removed_upto(tiles, dir, size, n).len()
            == lanes_concat(tiles, dir, size, n).len(),
    decreases n,
{
    if n > 0 {
        lemma_shift_counts_upto(tiles, dir, size, n - 1);
        lemma_merge_counts(lane_tiles(tiles, dir, n - 1, size));
    }
}

/// Every tile already sits packed against the target edge of `dir`:
/// each cell between a tile and that edge of its lane is occupied.
pub open spec fn packed_toward(tiles: Seq<Tile>, dir: BoardShift, size: int) -> bool {
    forall|i: int, r: int|
        0 <= i < tiles.len() && 0 <= r < rank_of(dir, tiles[i].pos, size) ==> #[trigger] has_tile_at(
            tiles,
            dir,
            lane_of(dir, (#[trigger] tiles[i]).pos),
            r,
            size,
        )
}

/// No two tiles that a shift along `dir` would bring together carry
/// equal values: neighbors within a lane all differ.
pub open spec fn no_adjacent_equal(tiles: Seq<Tile>, dir: BoardShift, size: int) -> bool {
    forall|i: int, j: int|
        0 <= i < tiles.len() && 0 <= j < tiles.len() && lane_of(dir, (#[trigger] tiles[i]).pos)
            == lane_of(dir, (#[trigger] tiles[j]).pos) && rank_of(dir, tiles[j].pos, size)
            == rank_of(dir, tiles[i].pos, size) + 1 ==> tiles[i].value != tiles[j].value
}

/// When every rank below `u` of a lane is occupied, the extraction
/// delivers exactly one tile per rank, in rank order.
proof fn lemma_full_prefix(tiles: Seq<Tile>, dir: BoardShift, size: int, lane: int, u: int)
    requires
        well_formed_tiles(tiles, size),
        0 < size <= 255,
        0 <= u <= size,
        forall|r: int| 0 <= r < u ==> #[trigger] has_tile_at(tiles, dir, lane, r, size),
    ensures
        lane_tiles_upto(tiles, dir, lane, size, u).len() == u,
        forall|k: int|
            0 <= k < u ==> rank_of(
                dir,
                (#[trigger] lane_tiles_upto(tiles, dir, lane, size, u)[k]).pos,
                size,
            ) == k,
    decreases u,
{
    if u > 0 {
        lemma_full_prefix(tiles, dir, size, lane, u - 1);
        let prefix = lane_tiles_upto(tiles, dir, lane, size, u - 1);
        let i = index_at(tiles, dir, lane, u - 1, size);
        assert(has_tile_at(tiles, dir, lane, u - 1, size));
        let lt = prefix.push(tiles[i]);
        assert(forall|k: int| 0 <= k < prefix.len() ==> lt[k] == prefix[k]);
        assert(lt[u - 1] == tiles[i]);
    }
}

/// Under a packed lane, the extraction's entries sit at exactly their
/// own index's rank.
proof fn lemma_packed_lane(tiles: Seq<Tile>, dir: BoardShift, size: int, lane: int, u: int)
    requires
        well_formed_tiles(tiles, size),
        packed_toward(tiles, dir, size),
        0 < size <= 255,
        0 <= u <= size,
    ensures
        forall|k: int|
            0 <= k < lane_tiles_upto(tiles, dir, lane, size, u).len() ==> rank_of(
                dir,
                (#[trigger] lane_tiles_upto(tiles, dir, lane, size, u)[k]).pos,
                size,
            ) == k,
    decreases u,
{
    if u > 0 {
        lemma_packed_lane(tiles, dir, size, lane, u - 1);
        let prefix = lane_tiles_upto(tiles, dir, lane, size, u - 1);
        if has_tile_at(tiles, dir, lane, u - 1, size) {
            let i = index_at(tiles, dir, lane, u - 1, size);
            assert(0 <= i < tiles.len() && lane_of(dir, tiles[i].pos) == lane && rank_of(
                dir,
                tiles[i].pos,
                size,
            ) == u - 1);
            assert(forall|r: int|
                0 <= r < u - 1 ==> #[trigger] has_tile_at(tiles, dir, lane, r, size));
            lemma_full_prefix(tiles, dir, size, lane, u - 1);
            let lt = prefix.push(tiles[i]);
            assert(forall|k: int| 0 <= k < prefix.len() ==> lt[k] == prefix[k]);
            assert(lt[u - 1] == tiles[i]);
        }
    }
}

/// A lane whose neighbors all differ passes through the scan unchanged.
proof fn lemma_merge_identity(ts: Seq<Tile>)
    requires
        forall|k: int| 0 <= k < ts.len() - 1 ==> (#[trigger] ts[k]).value != ts[k + 1].value,
    ensures
        merge_lane(ts) == ts,
        merge_removed(ts) == Seq::<u64>::empty(),
        merge_score(ts) == 0,
    decreases ts.len(),
{
    if ts.len() == 0 {
        assert(merge_lane(ts) =~= ts);
    } else {
        assert(forall|k: int|
            0 <= k < ts.skip(1).len() - 1 ==> (#[trigger] ts.skip(1)[k]).value != ts.skip(1)[k
                + 1].value);
        lemma_merge_identity(ts.skip(1));
        if ts.len() >= 2 {
            assert(ts[0].value != ts[1].value);
        }
        assert(merge_lane(ts) == seq![ts[0]] + merge_lane(ts.skip(1)));
        assert(seq![ts[0]] + ts.skip(1) =~= ts);
    }
}

/// A shift toward an edge the tiles are already packed against, with
/// no merge possible, is a no-op: the same tiles on the same cells
/// come back, nothing is absorbed, and no score is awarded.
pub proof fn lemma_noop_shift(tiles: Seq<Tile>, dir: BoardShift, size: int)
    requires
        well_formed_tiles(tiles, size),
        0 < size <= 255,
        packed_toward(tiles, dir, size),
        no_adjacent_equal(tiles, dir, size),
    ensures
        shifted(tiles, dir, size).to_multiset() == tiles.to_multiset(),
        removed_ids(tiles, dir, size) == Seq::<u64>::empty(),
        shift_score(tiles, dir, size) == 0,
{
    lemma_noop_shift_upto(tiles, dir, size, size);
    lemma_lanes_partition(tiles, dir, size);
}

proof fn lemma_noop_shift_upto(tiles: Seq<Tile>, dir: BoardShift, size: int, n: int)
    requires
        well_formed_tiles(tiles, size),
        0 < size <= 255,
        packed_toward(tiles, dir, size),
        no_adjacent_equal(tiles, dir, size),
        0 <= n <= size,
    ensures
        shifted_upto(tiles, dir, size, n) == lanes_concat(tiles, dir, size, n),
        removed_upto(tiles, dir, size, n) == Seq::<u64>::empty(),
        score_upto(tiles, dir, size, n) == 0,
    decreases n,
{
    if n > 0 {
        lemma_noop_shift_upto(tiles, dir, size, n - 1);
        let lt = lane_tiles(tiles, dir, n - 1, size);
        lemma_lane_tiles_ok(tiles, dir, n - 1, size, size);
        lemma_packed_lane(tiles, dir, size, n - 1, size);
        assert forall|k: int| 0 <= k < lt.len() - 1 implies (#[trigger] lt[k]).value != lt[k
            + 1].value by {
            let a = tiles.index_of(lt[k]);
            let b = tiles.index_of(lt[k + 1]);
            assert(tiles[a] == lt[k] && tiles[b] == lt[k + 1]);
            assert(lane_of(dir, tiles[a].pos) == lane_of(dir, tiles[b].pos));
            assert(rank_of(dir, tiles[b].pos, size) == rank_of(dir, tiles[a].pos, size) + 1);
        }
        lemma_merge_identity(lt);
        let placed = placed_lane(dir, n - 1, size, lt);
        assert forall|k: int| 0 <= k < placed.len() implies placed[k] == lt[k] by {
            assert(rank_of(dir, lt[k].pos, size) == k);
            lemma_lane_rank_bijective(dir, size, lt[k].pos, 0, 0);
            assert(pos_at(dir, n - 1, k, size) == lt[k].pos);
        }
        assert(placed =~= lt);
        assert(removed_upto(tiles, dir, size, n) =~= Seq::<u64>::empty());
    }
}

/// A lane scan that absorbed nothing changed nothing and scored
/// nothing.
proof fn lemma_no_removed_identity(ts: Seq<Tile>)
    requires
        merge_removed(ts).len() == 0,
    ensures
        merge_lane(ts) == ts,
        merge_score(ts) == 0,
    decreases ts.len(),
{
    if ts.len() == 0 {
        assert(merge_lane(ts) =~= ts);
    } else if ts.len() >= 2 && ts[0].value == ts[1].value {
        assert(merge_removed(ts) == seq![ts[1].id] + merge_removed(ts.skip(2)));
        assert(false);
    } else {
        lemma_no_removed_identity(ts.skip(1));
        assert(merge_lane(ts) == seq![ts[0]] + merge_lane(ts.skip(1)));
        assert(seq![ts[0]] + ts.skip(1) =~= ts);
    }
}

/// If the whole shift absorbed nothing, no single lane did.
proof fn lemma_removed_empty_upto(tiles: Seq<Tile>, dir: BoardShift, size: int, n: int)
    requires
        0 <= n,
        removed_upto(tiles, dir, size, n).len() == 0,
    ensures
        forall|l: int|
            0 <= l < n ==> merge_removed(#[trigger] lane_tiles(tiles, dir, l, size)).len() == 0,
    decreases n,
{
    if n > 0 {
        lemma_removed_empty_upto(tiles, dir, size, n - 1);
    }
}

/// Each resolved board grows lane block by lane block: an earlier
/// stage is a prefix of a later one.
proof fn lemma_shifted_prefix(tiles: Seq<Tile>, dir: BoardShift, size: int, n: int, m: int)
    requires
        0 <= n <= m,
    ensures
        shifted_upto(tiles, dir, size, n).len() <= shifted_upto(tiles, dir, size, m).len(),
        shifted_upto(tiles, dir, size, m).take(shifted_upto(tiles, dir, size, n).len() as int)
            == shifted_upto(tiles, dir, size, n),
    decreases m,
{
    if n < m {
        lemma_shifted_prefix(tiles, dir, size, n, m - 1);
        let a = shifted_upto(tiles, dir, size, m - 1);
        let b = placed_lane(
            dir,
            m - 1,
            size,
            merge_lane(lane_tiles(tiles, dir, m - 1, size)),
        );
        let l = shifted_upto(tiles, dir, size, n).len() as int;
        assert((a + b).take(l) =~= a.take(l));
    } else {
        assert(shifted_upto(tiles, dir, size, n).take(
            shifted_upto(tiles, dir, size, n).len() as int,
        ) =~= shifted_upto(tiles, dir, size, n));
    }
}

/// The driver's no-op test is sound: a shift that absorbs no tile and
/// moves no identity hands back exactly the tiles it was given, on
/// their own cells, and awards no score.
pub proof fn lemma_unmoved_shift_is_noop(tiles: Seq<Tile>, dir: BoardShift, size: int)
    requires
        well_formed_tiles(tiles, size),
        0 < size <= 255,
        !crate::shift::shift_moved(tiles, dir, size),
    ensures
        shifted(tiles, dir, size).to_multiset() == tiles.to_multiset(),
        shift_score(tiles, dir, size) == 0,
{
    lemma_unmoved_upto(tiles, dir, size, size);
    lemma_lanes_partition(tiles, dir, size);
}

proof fn lemma_unmoved_upto(tiles: Seq<Tile>, dir: BoardShift, size: int, n: int)
    requires
        well_formed_tiles(tiles, size),
        0 < size <= 255,
        0 <= n <= size,
        !crate::shift::shift_moved(tiles, dir, size),
    ensures
        shifted_upto(tiles, dir, size, n) == lanes_concat(tiles, dir, size, n),
        score_upto(tiles, dir, size, n) == 0,
    decreases n,
{
    if n > 0 {
        lemma_unmoved_upto(tiles, dir, size, n - 1);
        let lt = lane_tiles(tiles, dir, n - 1, size);
        lemma_lane_tiles_ok(tiles, dir, n - 1, size, size);
        lemma_removed_empty_upto(tiles, dir, size, size);
        lemma_no_removed_identity(lt);
        let placed = placed_lane(dir, n - 1, size, lt);
        lemma_shifted_prefix(tiles, dir, size, n, size);
        let prev = shifted_upto(tiles, dir, size, n - 1);
        let block = shifted_upto(tiles, dir, size, n);
        let s = shifted(tiles, dir, size);
        let p0 = prev.len() as int;
        assert(block == prev + placed);
        assert forall|c: int| 0 <= c < placed.len() implies placed[c] == lt[c] by {
            assert(s.take(block.len() as int) == block);
            assert(s[p0 + c] == block[p0 + c]);
            assert(block[p0 + c] == placed[c]);
            assert(tiles.contains(lt[c]));
            let i = tiles.index_of(lt[c]);
            assert(tiles[i] == lt[c]);
            assert(placed[c].id == lt[c].id);
            assert(s[p0 + c].id == tiles[i].id);
            assert(s[p0 + c].pos == tiles[i].pos);
            assert(placed[c].pos == lt[c].pos);
        }
        assert(placed =~= lt);
    }
}

} // verus!
