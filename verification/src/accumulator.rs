//! Accumulators, and the ways to bring them up to date.

use crate::board::{Board, Colour};
use crate::buffers::{
    block_offsets, new_block_offsets, new_refresh_offsets, new_update_offsets, push_block_offset,
    slice_block_offsets, slice_refresh_offsets, slice_update_offsets,
};
use crate::features::{
    added_sum, board_sum, lane_weight, pawns_of, psqt_weight, removed_sum, seat_of, unit_weight,
    AuxUpdateBuffer, FeatureSet, PsqtFeatureIndex, Seat,
};
use crate::indexes::{
    add_board_indexes, add_pawn_pawn_indexes, add_threat_indexes, board_list, fresh_pair_list,
    lemma_offset_fits, listed_threats_from, offset_at, table_fits,
};
use crate::simd::{Tile, UNROLL};
use crate::squares::Square;
use crate::sums::{
    lemma_sum_concat, lemma_sum_of_ones, lemma_sum_of_same, lemma_sum_take, lemma_wrap_absorbs,
    lemma_wrap_fits, sum_of, wrap_i16,
};
use crate::totals::{agrees, lemma_board, lemma_fresh_pairs, lemma_listed_threats, within};
use vstd::prelude::*;
use vstd::slice::slice_subrange;

verus! {

/// A block of values that is loaded and stored as a whole.
pub struct Align<T>(pub T);

/// Pre-activations of the first layer's output, one half for each side.
pub struct Accumulator<const L1_SIZE: usize> {
    pub halves: [Align<[i16; L1_SIZE]>; 2],
}

/// How many of `width` lanes the whole tiles cover.
pub open spec fn tiled(width: int) -> int {
    width / (UNROLL as int) * UNROLL
}

/// The weights that the blocks at given offsets give to lane `lane`.
pub open spec fn column(table: Seq<i8>, lane: int) -> spec_fn(u32) -> int {
    |offset: u32| table[offset + lane] as int
}

/// The weights that the piece-square blocks at given offsets give to lane `lane`.
pub open spec fn block_column(bucket: Seq<i16>, lane: int) -> spec_fn(usize) -> int {
    |offset: usize| bucket[offset + lane] as int
}

/// The feature has a block of `width` lanes in a bucket of `len` weights.
pub open spec fn in_bucket(feature: PsqtFeatureIndex, len: int, width: int) -> bool {
    feature.number * width + width <= len
}

/// What an update makes of `src`: the lanes of the whole tiles lose the items of `subs` and gain
/// those of `adds`, each with its weight in that lane. The other lanes are those of `rest`.
pub open spec fn lanes_result<T>(
    src: Seq<i16>,
    rest: Seq<i16>,
    adds: Seq<T>,
    subs: Seq<T>,
    weights: spec_fn(int) -> spec_fn(T) -> int,
) -> Seq<i16> {
    Seq::new(
        src.len(),
        |j: int|
            if j < tiled(src.len() as int) {
                wrap_i16(src[j] - sum_of(subs, weights(j)) + sum_of(adds, weights(j)))
            } else {
                rest[j]
            },
    )
}

/// What a piece-square update makes of `src`: the lanes of the whole tiles lose the features of
/// `subs` and gain those of `adds`, the other lanes are those of `rest`.
pub open spec fn psqt_result(
    src: Seq<i16>,
    rest: Seq<i16>,
    bucket: Seq<i16>,
    adds: Seq<PsqtFeatureIndex>,
    subs: Seq<PsqtFeatureIndex>,
) -> Seq<i16> {
    lanes_result(src, rest, adds, subs, |j: int| psqt_weight(bucket, src.len() as int, j))
}

/// What an auxiliary update makes of `src`: the lanes of the whole tiles lose the features that
/// the update removes and gain those that it adds. The other lanes are those of `rest`, or those
/// of `src` where nothing changes.
pub open spec fn aux_result<F: FeatureSet>(
    seat: Seat<F>,
    src: Seq<i16>,
    rest: Seq<i16>,
    weights: Seq<i8>,
    updates: AuxUpdateBuffer,
) -> Seq<i16> {
    let width = src.len() as int;
    Seq::new(
        src.len(),
        |j: int|
            if j < tiled(width) {
                let weight = lane_weight(weights, width, j);
                wrap_i16(
                    src[j] - removed_sum(seat, updates, weight) + added_sum(seat, updates, weight),
                )
            } else if updates.is_unchanged() {
                src[j]
            } else {
                rest[j]
            },
    )
}

/// What a refresh makes of `old_acc`: the lanes of the whole tiles hold the features of `board`,
/// the other lanes stay.
pub open spec fn refresh_result<F: FeatureSet>(
    features: &F,
    old_acc: Seq<i16>,
    weights: Seq<i8>,
    board: Board,
    colour: Colour,
) -> Seq<i16> {
    let width = old_acc.len() as int;
    Seq::new(
        old_acc.len(),
        |j: int|
            if j < tiled(width) {
                wrap_i16(board_sum(features, colour, board, lane_weight(weights, width, j)))
            } else {
                old_acc[j]
            },
    )
}

/// Subtracts and adds blocks of `weights` to a tile that starts at lane `base`.
fn update_tile(tile: &mut Tile, weights: &[i8], base: usize, subs: &[u32], adds: &[u32])
    requires
        forall|i: int|
            0 <= i < subs@.len() ==> (#[trigger] subs@[i]) + base + UNROLL <= weights.len(),
        forall|i: int|
            0 <= i < adds@.len() ==> (#[trigger] adds@[i]) + base + UNROLL <= weights.len(),
    ensures
        forall|t: int|
            0 <= t < UNROLL ==> #[trigger] final(tile).lane(t) == wrap_i16(
                old(tile).lane(t) - sum_of(subs@, column(weights@, base + t)) + sum_of(
                    adds@,
                    column(weights@, base + t),
                ),
            ),
{
    proof {
        assert(subs@.take(0) =~= Seq::<u32>::empty());
        assert(subs@.take(subs@.len() as int) =~= subs@);
        assert(adds@.take(0) =~= Seq::<u32>::empty());
        assert(adds@.take(adds@.len() as int) =~= adds@);
        assert forall|t: int| 0 <= t < UNROLL implies #[trigger] tile.lane(t) == wrap_i16(
            tile.lane(t) as int,
        ) by {
            lemma_wrap_fits(tile.lane(t));
        }
    }
    let mut k: usize = 0;
    while k < subs.len()
        invariant
            k <= subs@.len(),
            forall|i: int|
                0 <= i < subs@.len() ==> (#[trigger] subs@[i]) + base + UNROLL <= weights.len(),
            forall|t: int|
                0 <= t < UNROLL ==> #[trigger] tile.lane(t) == wrap_i16(
                    old(tile).lane(t) - sum_of(subs@.take(k as int), column(weights@, base + t)),
                ),
        decreases subs@.len() - k,
    {
        let ghost before = *tile;
        let block = subs[k] as usize;
        tile.sub_weights_i8(weights, block + base);
        proof {
            assert forall|t: int| 0 <= t < UNROLL implies #[trigger] tile.lane(t) == wrap_i16(
                old(tile).lane(t) - sum_of(subs@.take(k + 1), column(weights@, base + t)),
            ) by {
                let weight = column(weights@, base + t);
                lemma_sum_take(subs@, k as int, weight);
                lemma_wrap_absorbs(
                    old(tile).lane(t) - sum_of(subs@.take(k as int), weight),
                    weight(subs@[k as int]),
                );
                assert(before.lane(t) == wrap_i16(
                    old(tile).lane(t) - sum_of(subs@.take(k as int), weight),
                ));
            }
        }
        k += 1;
    }
    k = 0;
    while k < adds.len()
        invariant
            k <= adds@.len(),
            forall|i: int|
                0 <= i < adds@.len() ==> (#[trigger] adds@[i]) + base + UNROLL <= weights.len(),
            forall|t: int|
                0 <= t < UNROLL ==> #[trigger] tile.lane(t) == wrap_i16(
                    old(tile).lane(t) - sum_of(subs@, column(weights@, base + t)) + sum_of(
                        adds@.take(k as int),
                        column(weights@, base + t),
                    ),
                ),
        decreases adds@.len() - k,
    {
        let ghost before = *tile;
        let block = adds[k] as usize;
        tile.add_weights_i8(weights, block + base);
        proof {
            assert forall|t: int| 0 <= t < UNROLL implies #[trigger] tile.lane(t) == wrap_i16(
                old(tile).lane(t) - sum_of(subs@, column(weights@, base + t)) + sum_of(
                    adds@.take(k + 1),
                    column(weights@, base + t),
                ),
            ) by {
                let weight = column(weights@, base + t);
                let reduced = old(tile).lane(t) - sum_of(subs@, weight) + sum_of(
                    adds@.take(k as int),
                    weight,
                );
                lemma_sum_take(adds@, k as int, weight);
                lemma_wrap_absorbs(reduced, weight(adds@[k as int]));
                assert(before.lane(t) == wrap_i16(reduced));
            }
        }
        k += 1;
    }
}

/// The weights by offset are the weights by feature, one lane at a time.
proof fn lemma_column_agrees<F: FeatureSet>(features: &F, table: Seq<i8>, width: int, lane: int)
    requires
        0 <= width,
        table_fits(features, width),
    ensures
        agrees(features, width, lane_weight(table, width, lane), column(table, lane)),
{
    assert forall|feature: int| 0 <= feature < features.aux_count() implies column(table, lane)(
        #[trigger] offset_at(feature, width),
    ) == lane_weight(table, width, lane)(feature) by {
        lemma_offset_fits(features, feature, width);
    }
}

/// An update without changes adds and removes nothing.
proof fn lemma_unchanged<F: FeatureSet>(
    seat: Seat<F>,
    updates: AuxUpdateBuffer,
    weight: spec_fn(int) -> int,
)
    requires
        updates.is_unchanged(),
    ensures
        added_sum(seat, updates, weight) == removed_sum(seat, updates, weight),
{
    assert(updates.add@ =~= updates.sub@);
    assert(updates.afore =~= updates.after);
}

/// Apply add/subtract updates: `dst_acc` becomes `src_acc` without the features that `updates`
/// removes and with those that it adds, as `colour` sees them with its king on `king`.
pub fn vector_update_aux<F: FeatureSet, const L1_SIZE: usize>(
    features: &F,
    src_acc: &Align<[i16; L1_SIZE]>,
    dst_acc: &mut Align<[i16; L1_SIZE]>,
    weights: &[i8],
    updates: &AuxUpdateBuffer,
    king: Square,
    colour: Colour,
)
    requires
        king.wf(),
        updates.wf(),
        weights@.len() == features.aux_count() * L1_SIZE,
        weights@.len() <= u32::MAX,
        added_sum(seat_of(features, colour, king), *updates, unit_weight()) <= 192,
        removed_sum(seat_of(features, colour, king), *updates, unit_weight()) <= 192,
    ensures
        final(dst_acc).0@ == aux_result(
            seat_of(features, colour, king),
            src_acc.0@,
            old(dst_acc).0@,
            weights@,
            *updates,
        ),
{
    let ghost width = L1_SIZE as int;
    let ghost seat = seat_of(features, colour, king);
    if updates.add.len() == 0 && updates.sub.len() == 0 && updates.afore[0] == updates.after[0]
        && updates.afore[1] == updates.after[1] {
        dst_acc.0 = src_acc.0;
        proof {
            assert(updates.afore@ =~= updates.after@);
            assert forall|j: int| 0 <= j < tiled(width) implies #[trigger] dst_acc.0@[j]
                == wrap_i16(
                src_acc.0@[j] - removed_sum(
                    seat,
                    *updates,
                    lane_weight(weights@, width, j),
                ) + added_sum(seat, *updates, lane_weight(weights@, width, j)),
            ) by {
                lemma_unchanged(seat, *updates, lane_weight(weights@, width, j));
                lemma_wrap_fits(src_acc.0@[j]);
            }
        }
        return;
    }
    let ghost (afore, after) = (pawns_of(updates.afore), pawns_of(updates.after));
    let ghost added = listed_threats_from(seat, updates.add@, width, 0) + fresh_pair_list(
        seat,
        after,
        afore,
        width,
    );
    let ghost removed = listed_threats_from(seat, updates.sub@, width, 0) + fresh_pair_list(
        seat,
        afore,
        after,
        width,
    );
    proof {
        lemma_update_lists(seat, width, unit_weight(), |o: u32| 1int, *updates);
        lemma_sum_of_ones(added);
        lemma_sum_of_ones(removed);
    }
    let mut add_blocks = new_update_offsets();
    let mut sub_blocks = new_update_offsets();
    add_threat_indexes::<F, L1_SIZE>(
        features,
        updates,
        king,
        colour,
        &mut add_blocks,
        &mut sub_blocks,
    );
    add_pawn_pawn_indexes::<F, L1_SIZE>(
        features,
        updates,
        king,
        colour,
        &mut add_blocks,
        &mut sub_blocks,
    );
    let adds = slice_update_offsets(&add_blocks);
    let subs = slice_update_offsets(&sub_blocks);
    proof {
        assert(adds@ =~= added);
        assert(subs@ =~= removed);
    }
    let src = src_acc.0.as_slice();
    let mut i: usize = 0;
    while i < L1_SIZE / UNROLL
        invariant
            width == L1_SIZE,
            i <= L1_SIZE / UNROLL,
            src@ == src_acc.0@,
            weights@.len() == features.aux_count() * width,
            within(adds@, width, features.aux_count() * width),
            within(subs@, width, features.aux_count() * width),
            forall|j: int|
                0 <= j < i * UNROLL ==> #[trigger] dst_acc.0@[j] == wrap_i16(
                    src_acc.0@[j] - sum_of(subs@, column(weights@, j)) + sum_of(
                        adds@,
                        column(weights@, j),
                    ),
                ),
            forall|j: int|
                i * UNROLL <= j < width ==> #[trigger] dst_acc.0@[j] == old(dst_acc).0@[j],
        decreases L1_SIZE / UNROLL - i,
    {
        let base = i * UNROLL;
        let mut tile = Tile::load(src, base);
        update_tile(&mut tile, weights, base, subs, adds);
        tile.store(&mut dst_acc.0, base);
        i += 1;
    }
    proof {
        assert forall|j: int| 0 <= j < tiled(width) implies #[trigger] dst_acc.0@[j] == wrap_i16(
            src_acc.0@[j] - removed_sum(
                seat,
                *updates,
                lane_weight(weights@, width, j),
            ) + added_sum(seat, *updates, lane_weight(weights@, width, j)),
        ) by {
            lemma_column_agrees(features, weights@, width, j);
            lemma_update_lists(
                seat,
                width,
                lane_weight(weights@, width, j),
                column(weights@, j),
                *updates,
            );
        }
    }
}

/// The offsets of an update give the sums of what it adds and removes.
proof fn lemma_update_lists<F: FeatureSet>(
    seat: Seat<F>,
    width: int,
    weight: spec_fn(int) -> int,
    by_offset: spec_fn(u32) -> int,
    updates: AuxUpdateBuffer,
)
    requires
        0 <= width,
        table_fits(&seat.features, width),
        agrees(&seat.features, width, weight, by_offset),
        0 <= seat.king < 64,
        updates.wf(),
    ensures
        ({
            let (afore, after) = (pawns_of(updates.afore), pawns_of(updates.after));
            let added = listed_threats_from(seat, updates.add@, width, 0)
                + fresh_pair_list(seat, after, afore, width);
            let removed = listed_threats_from(seat, updates.sub@, width, 0)
                + fresh_pair_list(seat, afore, after, width);
            let end = seat.features.aux_count() * width;
            &&& sum_of(added, by_offset) == added_sum(seat, updates, weight)
            &&& sum_of(removed, by_offset) == removed_sum(seat, updates, weight)
            &&& within(added, width, end)
            &&& within(removed, width, end)
        }),
{
    let (afore, after) = (pawns_of(updates.afore), pawns_of(updates.after));
    assert(updates.add@.skip(0) =~= updates.add@);
    assert(updates.sub@.skip(0) =~= updates.sub@);
    lemma_listed_threats(seat, width, weight, by_offset, updates.add@, 0);
    lemma_listed_threats(seat, width, weight, by_offset, updates.sub@, 0);
    lemma_fresh_pairs(seat, width, weight, by_offset, after, afore);
    lemma_fresh_pairs(seat, width, weight, by_offset, afore, after);
    lemma_sum_concat(
        listed_threats_from(seat, updates.add@, width, 0),
        fresh_pair_list(seat, after, afore, width),
        by_offset,
    );
    lemma_sum_concat(
        listed_threats_from(seat, updates.sub@, width, 0),
        fresh_pair_list(seat, afore, after, width),
        by_offset,
    );
}

/// Recomputes `acc` from the auxiliary features of `board`, as `colour` sees them.
pub fn refresh_aux<F: FeatureSet, const L1_SIZE: usize>(
    features: &F,
    weights: &[i8],
    acc: &mut Align<[i16; L1_SIZE]>,
    board: &Board,
    colour: Colour,
)
    requires
        board.bbs.has_king(colour),
        board.names_its_men(),
        weights@.len() == features.aux_count() * L1_SIZE,
        weights@.len() <= u32::MAX,
        board_sum(features, colour, *board, unit_weight()) <= 256,
    ensures
        final(acc).0@ == refresh_result(features, old(acc).0@, weights@, *board, colour),
{
    let ghost width = L1_SIZE as int;
    let king = board.bbs.king_sq(colour);
    let ghost seat = seat_of(features, colour, king);
    let ghost list = board_list(seat, *board, width);
    proof {
        lemma_board(seat, width, unit_weight(), |o: u32| 1int, *board);
        lemma_sum_of_ones(list);
    }
    let mut indexes = new_refresh_offsets();
    add_board_indexes::<F, arrayvec::ArrayVec<u32, 256>, L1_SIZE>(
        features,
        board,
        king,
        colour,
        &mut indexes,
    );
    let adds = slice_refresh_offsets(&indexes);
    let subs: [u32; 0] = [];
    let subs = subs.as_slice();
    proof {
        assert(adds@ =~= list);
    }
    let mut i: usize = 0;
    while i < L1_SIZE / UNROLL
        invariant
            width == L1_SIZE,
            i <= L1_SIZE / UNROLL,
            subs@.len() == 0,
            weights@.len() == features.aux_count() * width,
            within(adds@, width, features.aux_count() * width),
            forall|j: int|
                0 <= j < i * UNROLL ==> #[trigger] acc.0@[j] == wrap_i16(
                    sum_of(adds@, column(weights@, j)),
                ),
            forall|j: int| i * UNROLL <= j < width ==> #[trigger] acc.0@[j] == old(acc).0@[j],
        decreases L1_SIZE / UNROLL - i,
    {
        let base = i * UNROLL;
        let mut tile = Tile::zero();
        update_tile(&mut tile, weights, base, subs, adds);
        tile.store(&mut acc.0, base);
        i += 1;
    }
    proof {
        assert forall|j: int| 0 <= j < tiled(width) implies #[trigger] acc.0@[j] == wrap_i16(
            board_sum(features, colour, *board, lane_weight(weights@, width, j)),
        ) by {
            lemma_column_agrees(features, weights@, width, j);
            lemma_board(seat, width, lane_weight(weights@, width, j), column(weights@, j), *board);
        }
    }
}

/// Subtracts and adds blocks of `bucket` to a tile that starts at lane `base`.
fn update_tile_psqt(tile: &mut Tile, bucket: &[i16], base: usize, subs: &[usize], adds: &[usize])
    requires
        forall|i: int|
            0 <= i < subs@.len() ==> (#[trigger] subs@[i]) + base + UNROLL <= bucket.len(),
        forall|i: int|
            0 <= i < adds@.len() ==> (#[trigger] adds@[i]) + base + UNROLL <= bucket.len(),
    ensures
        forall|t: int|
            0 <= t < UNROLL ==> #[trigger] final(tile).lane(t) == wrap_i16(
                old(tile).lane(t) - sum_of(subs@, block_column(bucket@, base + t)) + sum_of(
                    adds@,
                    block_column(bucket@, base + t),
                ),
            ),
{
    proof {
        assert(subs@.take(0) =~= Seq::<usize>::empty());
        assert(subs@.take(subs@.len() as int) =~= subs@);
        assert(adds@.take(0) =~= Seq::<usize>::empty());
        assert(adds@.take(adds@.len() as int) =~= adds@);
        assert forall|t: int| 0 <= t < UNROLL implies #[trigger] tile.lane(t) == wrap_i16(
            tile.lane(t) as int,
        ) by {
            lemma_wrap_fits(tile.lane(t));
        }
    }
    let mut k: usize = 0;
    while k < subs.len()
        invariant
            k <= subs@.len(),
            forall|i: int|
                0 <= i < subs@.len() ==> (#[trigger] subs@[i]) + base + UNROLL <= bucket.len(),
            forall|t: int|
                0 <= t < UNROLL ==> #[trigger] tile.lane(t) == wrap_i16(
                    old(tile).lane(t) - sum_of(
                        subs@.take(k as int),
                        block_column(bucket@, base + t),
                    ),
                ),
        decreases subs@.len() - k,
    {
        let ghost before = *tile;
        let block = subs[k];
        tile.sub_weights_i16(bucket, block + base);
        proof {
            assert forall|t: int| 0 <= t < UNROLL implies #[trigger] tile.lane(t) == wrap_i16(
                old(tile).lane(t) - sum_of(subs@.take(k + 1), block_column(bucket@, base + t)),
            ) by {
                let weight = block_column(bucket@, base + t);
                lemma_sum_take(subs@, k as int, weight);
                lemma_wrap_absorbs(
                    old(tile).lane(t) - sum_of(subs@.take(k as int), weight),
                    weight(subs@[k as int]),
                );
                assert(before.lane(t) == wrap_i16(
                    old(tile).lane(t) - sum_of(subs@.take(k as int), weight),
                ));
            }
        }
        k += 1;
    }
    k = 0;
    while k < adds.len()
        invariant
            k <= adds@.len(),
            forall|i: int|
                0 <= i < adds@.len() ==> (#[trigger] adds@[i]) + base + UNROLL <= bucket.len(),
            forall|t: int|
                0 <= t < UNROLL ==> #[trigger] tile.lane(t) == wrap_i16(
                    old(tile).lane(t) - sum_of(subs@, block_column(bucket@, base + t)) + sum_of(
                        adds@.take(k as int),
                        block_column(bucket@, base + t),
                    ),
                ),
        decreases adds@.len() - k,
    {
        let ghost before = *tile;
        let block = adds[k];
        tile.add_weights_i16(bucket, block + base);
        proof {
            assert forall|t: int| 0 <= t < UNROLL implies #[trigger] tile.lane(t) == wrap_i16(
                old(tile).lane(t) - sum_of(subs@, block_column(bucket@, base + t)) + sum_of(
                    adds@.take(k + 1),
                    block_column(bucket@, base + t),
                ),
            ) by {
                let weight = block_column(bucket@, base + t);
                let reduced = old(tile).lane(t) - sum_of(subs@, weight) + sum_of(
                    adds@.take(k as int),
                    weight,
                );
                lemma_sum_take(adds@, k as int, weight);
                lemma_wrap_absorbs(reduced, weight(adds@[k as int]));
                assert(before.lane(t) == wrap_i16(reduced));
            }
        }
        k += 1;
    }
}

/// A block of exactly `L1_SIZE` values.
struct Block<'a, T, const L1_SIZE: usize> {
    values: &'a [T],
}

impl<'a, T, const L1_SIZE: usize> Block<'a, T, L1_SIZE> {
    #[verifier::type_invariant]
    spec fn is_whole(self) -> bool {
        self.values@.len() == L1_SIZE
    }
}

/// The values of a slice as a block.
fn slice_to_aligned<'a, T, const L1_SIZE: usize>(slice: &'a [T]) -> (block: Block<'a, T, L1_SIZE>)
    requires
        slice@.len() == L1_SIZE,
    ensures
        block.values@ == slice@,
{
    Block { values: slice }
}

/// The block of a feature.
fn psqt_block<'a, const L1_SIZE: usize>(
    bucket: &'a [i16],
    feature: PsqtFeatureIndex,
) -> (block: Block<'a, i16, L1_SIZE>)
    requires
        in_bucket(feature, bucket@.len() as int, L1_SIZE as int),
    ensures
        block.values@ == bucket@.subrange(
            feature.number * L1_SIZE,
            feature.number * L1_SIZE + L1_SIZE,
        ),
{
    proof {
        lemma_block_starts(feature, L1_SIZE as int);
        assert(bucket@.len() == bucket.len());
    }
    let offset = feature.index() * L1_SIZE;
    slice_to_aligned(slice_subrange(bucket, offset, offset + L1_SIZE))
}

/// Blocks start at or behind the start of the bucket.
proof fn lemma_block_starts(feature: PsqtFeatureIndex, width: int)
    requires
        0 <= width,
    ensures
        0 <= feature.number * width,
{
    assert(0 <= feature.number * width) by (nonlinear_arith)
        requires
            0 <= width,
            0 <= feature.number,
    ;
}

/// The offsets of the blocks of features.
fn psqt_offsets<const L1_SIZE: usize>(
    bucket: &[i16],
    features: &[PsqtFeatureIndex],
) -> (blocks: arrayvec::ArrayVec<usize, 32>)
    requires
        features@.len() <= 32,
        forall|i: int|
            0 <= i < features@.len() ==> in_bucket(
                #[trigger] features@[i],
                bucket@.len() as int,
                L1_SIZE as int,
            ),
    ensures
        block_offsets(blocks).len() == features@.len(),
        forall|i: int|
            0 <= i < features@.len() ==> #[trigger] block_offsets(blocks)[i]
                == features@[i].number * L1_SIZE,
{
    let mut blocks = new_block_offsets();
    let mut i: usize = 0;
    while i < features.len()
        invariant
            i <= features@.len() <= 32,
            block_offsets(blocks).len() == i,
            forall|k: int|
                0 <= k < features@.len() ==> in_bucket(
                    #[trigger] features@[k],
                    bucket@.len() as int,
                    L1_SIZE as int,
                ),
            forall|k: int|
                0 <= k < i ==> #[trigger] block_offsets(blocks)[k] == features@[k].number * L1_SIZE,
        decreases features@.len() - i,
    {
        let feature = features[i];
        proof {
            assert(in_bucket(features@[i as int], bucket@.len() as int, L1_SIZE as int));
            assert(bucket@.len() == bucket.len());
            lemma_block_starts(feature, L1_SIZE as int);
        }
        push_block_offset(&mut blocks, feature.index() * L1_SIZE);
        i += 1;
    }
    blocks
}

/// The offsets of blocks give the sums over their features.
proof fn lemma_psqt_offsets(
    bucket: Seq<i16>,
    width: int,
    features: Seq<PsqtFeatureIndex>,
    offsets: Seq<usize>,
    lane: int,
)
    requires
        offsets.len() == features.len(),
        forall|i: int|
            0 <= i < features.len() ==> #[trigger] offsets[i] == features[i].number * width,
    ensures
        sum_of(offsets, block_column(bucket, lane)) == sum_of(
            features,
            psqt_weight(bucket, width, lane),
        ),
{
    lemma_sum_of_same(
        offsets,
        features,
        block_column(bucket, lane),
        psqt_weight(bucket, width, lane),
    );
}

/// Apply add/subtract PSQT updates in place.
pub fn vector_update_inplace_psqt<const L1_SIZE: usize>(
    input: &mut Align<[i16; L1_SIZE]>,
    bucket: &[i16],
    adds: &[PsqtFeatureIndex],
    subs: &[PsqtFeatureIndex],
)
    requires
        adds@.len() <= 32,
        subs@.len() <= 32,
        forall|i: int|
            0 <= i < adds@.len() ==> in_bucket(
                #[trigger] adds@[i],
                bucket@.len() as int,
                L1_SIZE as int,
            ),
        forall|i: int|
            0 <= i < subs@.len() ==> in_bucket(
                #[trigger] subs@[i],
                bucket@.len() as int,
                L1_SIZE as int,
            ),
    ensures
        final(input).0@ == psqt_result(old(input).0@, old(input).0@, bucket@, adds@, subs@),
{
    let ghost width = L1_SIZE as int;
    let add_blocks = psqt_offsets::<L1_SIZE>(bucket, adds);
    let sub_blocks = psqt_offsets::<L1_SIZE>(bucket, subs);
    let add_offsets = slice_block_offsets(&add_blocks);
    let sub_offsets = slice_block_offsets(&sub_blocks);
    let mut i: usize = 0;
    while i < L1_SIZE / UNROLL
        invariant
            width == L1_SIZE,
            i <= L1_SIZE / UNROLL,
            forall|k: int|
                0 <= k < add_offsets@.len() ==> (#[trigger] add_offsets@[k]) + width
                    <= bucket@.len(),
            forall|k: int|
                0 <= k < sub_offsets@.len() ==> (#[trigger] sub_offsets@[k]) + width
                    <= bucket@.len(),
            forall|j: int|
                0 <= j < i * UNROLL ==> #[trigger] input.0@[j] == wrap_i16(
                    old(input).0@[j] - sum_of(sub_offsets@, block_column(bucket@, j)) + sum_of(
                        add_offsets@,
                        block_column(bucket@, j),
                    ),
                ),
            forall|j: int| i * UNROLL <= j < width ==> #[trigger] input.0@[j] == old(input).0@[j],
        decreases L1_SIZE / UNROLL - i,
    {
        let base = i * UNROLL;
        let mut tile = Tile::load(input.0.as_slice(), base);
        update_tile_psqt(&mut tile, bucket, base, sub_offsets, add_offsets);
        tile.store(&mut input.0, base);
        i += 1;
    }
    proof {
        assert forall|j: int| 0 <= j < tiled(width) implies #[trigger] input.0@[j] == wrap_i16(
            old(input).0@[j] - sum_of(subs@, psqt_weight(bucket@, width, j)) + sum_of(
                adds@,
                psqt_weight(bucket@, width, j),
            ),
        ) by {
            lemma_psqt_offsets(bucket@, width, adds@, add_offsets@, j);
            lemma_psqt_offsets(bucket@, width, subs@, sub_offsets@, j);
        }
    }
}

/// The values that blocks hold for lane `lane`.
spec fn block_lane<'a, const L1_SIZE: usize>(lane: int) -> spec_fn(Block<'a, i16, L1_SIZE>) -> int {
    |block: Block<'a, i16, L1_SIZE>| block.values@[lane] as int
}

/// Writes `input`, less the blocks of `subs` and with those of `adds`, to `output`.
fn vector_add_sub_tiled<const ADDS: usize, const SUBS: usize, const L1_SIZE: usize>(
    input: &Align<[i16; L1_SIZE]>,
    output: &mut Align<[i16; L1_SIZE]>,
    adds: [Block<'_, i16, L1_SIZE>; ADDS],
    subs: [Block<'_, i16, L1_SIZE>; SUBS],
)
    ensures
        final(output).0@ == lanes_result(
            input.0@,
            old(output).0@,
            adds@,
            subs@,
            |j: int| block_lane(j),
        ),
{
    let mut i: usize = 0;
    while i < L1_SIZE / UNROLL
        invariant
            i <= L1_SIZE / UNROLL,
            forall|j: int|
                0 <= j < i * UNROLL ==> #[trigger] output.0@[j] == wrap_i16(
                    input.0@[j] - sum_of(subs@, block_lane(j)) + sum_of(adds@, block_lane(j)),
                ),
            forall|j: int|
                i * UNROLL <= j < L1_SIZE ==> #[trigger] output.0@[j] == old(output).0@[j],
        decreases L1_SIZE / UNROLL - i,
    {
        let base = i * UNROLL;
        let mut tile = Tile::load(input.0.as_slice(), base);
        update_tile_blocks(&mut tile, base, &adds, &subs);
        tile.store(&mut output.0, base);
        i += 1;
    }
}

/// Subtracts and adds whole blocks to a tile that starts at lane `base`.
fn update_tile_blocks<const ADDS: usize, const SUBS: usize, const L1_SIZE: usize>(
    tile: &mut Tile,
    base: usize,
    adds: &[Block<'_, i16, L1_SIZE>; ADDS],
    subs: &[Block<'_, i16, L1_SIZE>; SUBS],
)
    requires
        base + UNROLL <= L1_SIZE,
    ensures
        forall|t: int|
            0 <= t < UNROLL ==> #[trigger] final(tile).lane(t) == wrap_i16(
                old(tile).lane(t) - sum_of(subs@, block_lane(base + t)) + sum_of(
                    adds@,
                    block_lane(base + t),
                ),
            ),
{
    proof {
        assert(subs@.take(0) =~= Seq::<Block<'_, i16, L1_SIZE>>::empty());
        assert(subs@.take(subs@.len() as int) =~= subs@);
        assert(adds@.take(0) =~= Seq::<Block<'_, i16, L1_SIZE>>::empty());
        assert(adds@.take(adds@.len() as int) =~= adds@);
        assert forall|t: int| 0 <= t < UNROLL implies #[trigger] tile.lane(t) == wrap_i16(
            tile.lane(t) as int,
        ) by {
            lemma_wrap_fits(tile.lane(t));
        }
    }
    let mut k: usize = 0;
    while k < SUBS
        invariant
            k <= SUBS,
            base + UNROLL <= L1_SIZE,
            forall|t: int|
                0 <= t < UNROLL ==> #[trigger] tile.lane(t) == wrap_i16(
                    old(tile).lane(t) - sum_of(subs@.take(k as int), block_lane(base + t)),
                ),
        decreases SUBS - k,
    {
        let ghost before = *tile;
        let block = &subs[k];
        proof {
            use_type_invariant(block);
        }
        tile.sub_weights_i16(block.values, base);
        proof {
            assert forall|t: int| 0 <= t < UNROLL implies #[trigger] tile.lane(t) == wrap_i16(
                old(tile).lane(t) - sum_of(subs@.take(k + 1), block_lane(base + t)),
            ) by {
                let weight = block_lane(base + t);
                lemma_sum_take(subs@, k as int, weight);
                lemma_wrap_absorbs(
                    old(tile).lane(t) - sum_of(subs@.take(k as int), weight),
                    weight(subs@[k as int]),
                );
                assert(before.lane(t) == wrap_i16(
                    old(tile).lane(t) - sum_of(subs@.take(k as int), weight),
                ));
            }
        }
        k += 1;
    }
    k = 0;
    while k < ADDS
        invariant
            k <= ADDS,
            base + UNROLL <= L1_SIZE,
            forall|t: int|
                0 <= t < UNROLL ==> #[trigger] tile.lane(t) == wrap_i16(
                    old(tile).lane(t) - sum_of(subs@, block_lane(base + t)) + sum_of(
                        adds@.take(k as int),
                        block_lane(base + t),
                    ),
                ),
        decreases ADDS - k,
    {
        let ghost before = *tile;
        let block = &adds[k];
        proof {
            use_type_invariant(block);
        }
        tile.add_weights_i16(block.values, base);
        proof {
            assert forall|t: int| 0 <= t < UNROLL implies #[trigger] tile.lane(t) == wrap_i16(
                old(tile).lane(t) - sum_of(subs@, block_lane(base + t)) + sum_of(
                    adds@.take(k + 1),
                    block_lane(base + t),
                ),
            ) by {
                let weight = block_lane(base + t);
                let reduced = old(tile).lane(t) - sum_of(subs@, weight) + sum_of(
                    adds@.take(k as int),
                    weight,
                );
                lemma_sum_take(adds@, k as int, weight);
                lemma_wrap_absorbs(reduced, weight(adds@[k as int]));
                assert(before.lane(t) == wrap_i16(reduced));
            }
        }
        k += 1;
    }
}

/// Move a PSQT feature from one square to another.
pub fn vector_add_sub_psqt<const L1_SIZE: usize>(
    input: &Align<[i16; L1_SIZE]>,
    output: &mut Align<[i16; L1_SIZE]>,
    bucket: &[i16],
    add: PsqtFeatureIndex,
    sub: PsqtFeatureIndex,
)
    requires
        in_bucket(add, bucket@.len() as int, L1_SIZE as int),
        in_bucket(sub, bucket@.len() as int, L1_SIZE as int),
    ensures
        final(output).0@ == psqt_result(input.0@, old(output).0@, bucket@, seq![add], seq![sub]),
{
    let add_block = psqt_block::<L1_SIZE>(bucket, add);
    let sub_block = psqt_block::<L1_SIZE>(bucket, sub);
    let adds = [add_block];
    let subs = [sub_block];
    vector_add_sub_tiled(input, output, adds, subs);
    proof {
        let (gained, lost) = (seq![add], seq![sub]);
        assert forall|j: int| 0 <= j < tiled(L1_SIZE as int) implies #[trigger] output.0@[j]
            == wrap_i16(
            input.0@[j] - sum_of(lost, psqt_weight(bucket@, L1_SIZE as int, j)) + sum_of(
                gained,
                psqt_weight(bucket@, L1_SIZE as int, j),
            ),
        ) by {
            let weight = psqt_weight(bucket@, L1_SIZE as int, j);
            lemma_sum_of_same(adds@, gained, block_lane(j), weight);
            lemma_sum_of_same(subs@, lost, block_lane(j), weight);
        }
    }
}

/// Subtract two PSQT features and add one PSQT feature all at once.
pub fn vector_add_sub2_psqt<const L1_SIZE: usize>(
    input: &Align<[i16; L1_SIZE]>,
    output: &mut Align<[i16; L1_SIZE]>,
    bucket: &[i16],
    add: PsqtFeatureIndex,
    sub1: PsqtFeatureIndex,
    sub2: PsqtFeatureIndex,
)
    requires
        in_bucket(add, bucket@.len() as int, L1_SIZE as int),
        in_bucket(sub1, bucket@.len() as int, L1_SIZE as int),
        in_bucket(sub2, bucket@.len() as int, L1_SIZE as int),
    ensures
        final(output).0@ == psqt_result(
            input.0@,
            old(output).0@,
            bucket@,
            seq![add],
            seq![sub1, sub2],
        ),
{
    let add_block = psqt_block::<L1_SIZE>(bucket, add);
    let sub1_block = psqt_block::<L1_SIZE>(bucket, sub1);
    let sub2_block = psqt_block::<L1_SIZE>(bucket, sub2);
    let adds = [add_block];
    let subs = [sub1_block, sub2_block];
    vector_add_sub_tiled(input, output, adds, subs);
    proof {
        let (gained, lost) = (seq![add], seq![sub1, sub2]);
        assert forall|j: int| 0 <= j < tiled(L1_SIZE as int) implies #[trigger] output.0@[j]
            == wrap_i16(
            input.0@[j] - sum_of(lost, psqt_weight(bucket@, L1_SIZE as int, j)) + sum_of(
                gained,
                psqt_weight(bucket@, L1_SIZE as int, j),
            ),
        ) by {
            let weight = psqt_weight(bucket@, L1_SIZE as int, j);
            lemma_sum_of_same(adds@, gained, block_lane(j), weight);
            lemma_sum_of_same(subs@, lost, block_lane(j), weight);
        }
    }
}

/// Add two PSQT features and subtract two PSQT features all at once.
pub fn vector_add2_sub2_psqt<const L1_SIZE: usize>(
    input: &Align<[i16; L1_SIZE]>,
    output: &mut Align<[i16; L1_SIZE]>,
    bucket: &[i16],
    add1: PsqtFeatureIndex,
    add2: PsqtFeatureIndex,
    sub1: PsqtFeatureIndex,
    sub2: PsqtFeatureIndex,
)
    requires
        in_bucket(add1, bucket@.len() as int, L1_SIZE as int),
        in_bucket(add2, bucket@.len() as int, L1_SIZE as int),
        in_bucket(sub1, bucket@.len() as int, L1_SIZE as int),
        in_bucket(sub2, bucket@.len() as int, L1_SIZE as int),
    ensures
        final(output).0@ == psqt_result(
            input.0@,
            old(output).0@,
            bucket@,
            seq![add1, add2],
            seq![sub1, sub2],
        ),
{
    let add1_block = psqt_block::<L1_SIZE>(bucket, add1);
    let add2_block = psqt_block::<L1_SIZE>(bucket, add2);
    let sub1_block = psqt_block::<L1_SIZE>(bucket, sub1);
    let sub2_block = psqt_block::<L1_SIZE>(bucket, sub2);
    let adds = [add1_block, add2_block];
    let subs = [sub1_block, sub2_block];
    vector_add_sub_tiled(input, output, adds, subs);
    proof {
        let (gained, lost) = (seq![add1, add2], seq![sub1, sub2]);
        assert forall|j: int| 0 <= j < tiled(L1_SIZE as int) implies #[trigger] output.0@[j]
            == wrap_i16(
            input.0@[j] - sum_of(lost, psqt_weight(bucket@, L1_SIZE as int, j)) + sum_of(
                gained,
                psqt_weight(bucket@, L1_SIZE as int, j),
            ),
        ) by {
            let weight = psqt_weight(bucket@, L1_SIZE as int, j);
            lemma_sum_of_same(adds@, gained, block_lane(j), weight);
            lemma_sum_of_same(subs@, lost, block_lane(j), weight);
        }
    }
}

} // verus!
