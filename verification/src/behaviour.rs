//! What the operations do to an accumulator, one feature, one pawn and one threat at a time.

use crate::accumulator::{aux_result, in_bucket, psqt_result, refresh_result, tiled};
use crate::attacks::attacks;
use crate::board::{Board, Colour, PieceType};
use crate::features::{
    added_sum, board_pawns, board_sum, board_threat_sum, cross_pair_sum, fresh_pair_sum,
    fresh_pair_term, fresh_side_sum, is_symmetric, lane_weight, listed_term, listed_threat_sum,
    pair_term, pawn_pair_sum, pawns_of, psqt_weight, removed_sum, same_side_pair_sum, seat_of,
    seat_on, AuxUpdateBuffer, FeatureSet, Pawns, PsqtFeatureIndex, Seat, ThreatFeature,
};
use crate::laws::{
    builds, is_disjoint, law_listed_is_board, law_pawn_pairs_follow, law_refresh_is_update_of_zero,
    lemma_point, lists_threats, stands_on,
};
use crate::simd::{I16_CHUNK, REGISTERS, UNROLL};
use crate::squares::{is_lowest, Square, SquareSet};
use crate::sums::{
    lemma_pairs_add, lemma_pairs_same, lemma_pairs_zero, lemma_sum_push, lemma_sum_zero,
    lemma_wrap_absorbs, lemma_wrap_fits, sum_of, sum_pairs, sum_squares, wrap_i16,
};
use vstd::prelude::*;

verus! {

/// A tile is sixteen registers of lanes, and the whole tiles leave out less than one tile of an
/// accumulator: nothing, where the width is a multiple of the tile.
pub proof fn law_whole_tiles(width: int)
    requires
        0 <= width,
    ensures
        REGISTERS == 16,
        UNROLL == REGISTERS * I16_CHUNK,
        tiled(width) % (UNROLL as int) == 0,
        tiled(width) <= width < tiled(width) + UNROLL,
        width % (UNROLL as int) == 0 ==> tiled(width) == width,
{
}

/// A wrapped value is the value modulo two to the sixteenth, and wrapping goes through addition
/// and subtraction.
pub proof fn law_wrap(x: int, y: i16)
    ensures
        (wrap_i16(x) - x) % 0x1_0000 == 0,
        wrap_i16(x + y) == wrap_i16(x).wrapping_add(y),
        wrap_i16(x - y) == wrap_i16(x).wrapping_sub(y),
{
}

/// A piece-square update with nothing to add or remove copies the lanes of the whole tiles, and
/// no update reaches the lanes behind them.
pub proof fn law_psqt_bounds(
    src: Seq<i16>,
    rest: Seq<i16>,
    bucket: Seq<i16>,
    adds: Seq<PsqtFeatureIndex>,
    subs: Seq<PsqtFeatureIndex>,
    j: int,
)
    requires
        0 <= j < src.len(),
    ensures
        psqt_result(src, rest, bucket, adds, subs).len() == src.len(),
        j < src.len() - src.len() as int % (UNROLL as int) && adds.len() == 0 && subs.len() == 0
            ==> psqt_result(src, rest, bucket, adds, subs)[j] == src[j],
        j >= src.len() - src.len() as int % (UNROLL as int) ==> psqt_result(
            src,
            rest,
            bucket,
            adds,
            subs,
        )[j] == rest[j],
{
    lemma_wrap_fits(src[j]);
}

/// One more feature to add adds its weight to every lane of the whole tiles, wrapping.
pub proof fn law_psqt_add_one(
    src: Seq<i16>,
    rest: Seq<i16>,
    bucket: Seq<i16>,
    adds: Seq<PsqtFeatureIndex>,
    subs: Seq<PsqtFeatureIndex>,
    feature: PsqtFeatureIndex,
    j: int,
)
    requires
        0 <= j < src.len() - src.len() as int % (UNROLL as int),
    ensures
        psqt_result(src, rest, bucket, adds.push(feature), subs)[j] == psqt_result(
            src,
            rest,
            bucket,
            adds,
            subs,
        )[j].wrapping_add(bucket[feature.number * src.len() + j]),
{
    let weight = psqt_weight(bucket, src.len() as int, j);
    lemma_sum_push(adds, feature, weight);
    law_wrap(
        src[j] - sum_of(subs, weight) + sum_of(adds, weight),
        bucket[feature.number * src.len() + j],
    );
}

/// One more feature to remove takes its weight from every lane of the whole tiles, wrapping.
pub proof fn law_psqt_sub_one(
    src: Seq<i16>,
    rest: Seq<i16>,
    bucket: Seq<i16>,
    adds: Seq<PsqtFeatureIndex>,
    subs: Seq<PsqtFeatureIndex>,
    feature: PsqtFeatureIndex,
    j: int,
)
    requires
        0 <= j < src.len() - src.len() as int % (UNROLL as int),
    ensures
        psqt_result(src, rest, bucket, adds, subs.push(feature))[j] == psqt_result(
            src,
            rest,
            bucket,
            adds,
            subs,
        )[j].wrapping_sub(bucket[feature.number * src.len() + j]),
{
    let weight = psqt_weight(bucket, src.len() as int, j);
    lemma_sum_push(subs, feature, weight);
    law_wrap(
        src[j] - sum_of(subs, weight) + sum_of(adds, weight),
        bucket[feature.number * src.len() + j],
    );
}

/// An auxiliary update that lists nothing and keeps the pawns copies every lane. Any other leaves
/// the lanes behind the whole tiles as they are in the accumulator that it writes to.
pub proof fn law_aux_bounds<F: FeatureSet>(
    features: &F,
    colour: Colour,
    king: Square,
    src: Seq<i16>,
    rest: Seq<i16>,
    weights: Seq<i8>,
    u: AuxUpdateBuffer,
    j: int,
)
    requires
        0 <= j < src.len(),
    ensures
        ({
            let result = aux_result(seat_of(features, colour, king), src, rest, weights, u);
            let unchanged = u.add@.len() == 0 && u.sub@.len() == 0 && u.afore@[0] == u.after@[0]
                && u.afore@[1] == u.after@[1];
            &&& result.len() == src.len()
            &&& unchanged ==> result[j] == src[j]
            &&& !unchanged && j >= src.len() - src.len() as int % (UNROLL as int) ==> result[j]
                == rest[j]
        }),
{
    let seat = seat_of(features, colour, king);
    if u.add@.len() == 0 && u.sub@.len() == 0 && u.afore@[0] == u.after@[0] && u.afore@[1]
        == u.after@[1] {
        assert(u.afore@ =~= u.after@);
        assert(u.afore =~= u.after);
        assert(u.add@ =~= u.sub@);
        lemma_wrap_fits(src[j]);
    }
}

/// One more threat to add adds, to every lane of the whole tiles, the weight of the feature of its
/// attacker and victim on their squares, as `colour` sees it with its king on `king`; nothing,
/// where that feature is not in use.
pub proof fn law_aux_add_threat<F: FeatureSet>(
    features: &F,
    colour: Colour,
    king: Square,
    src: Seq<i16>,
    rest: Seq<i16>,
    weights: Seq<i8>,
    u: AuxUpdateBuffer,
    more: AuxUpdateBuffer,
    t: ThreatFeature,
    j: int,
)
    requires
        0 <= j < src.len() - src.len() as int % (UNROLL as int),
        more.add@ == u.add@.push(t),
        more.sub@ == u.sub@,
        more.afore == u.afore,
        more.after == u.after,
    ensures
        ({
            let seat = seat_of(features, colour, king);
            let (used, n) = features.threat(
                colour,
                king.index as int,
                t.attacker,
                t.victim,
                t.from.index as int,
                t.to.index as int,
            );
            let without = aux_result(seat, src, rest, weights, u)[j];
            aux_result(seat, src, rest, weights, more)[j] == if used {
                without.wrapping_add(
                    weights[(features.pawn_tuple_count() + n) * src.len() + j] as i16,
                )
            } else {
                without
            }
        }),
{
    let seat = seat_of(features, colour, king);
    let weight = lane_weight(weights, src.len() as int, j);
    let term = listed_term(seat, weight);
    lemma_sum_push(u.add@, t, term);
    let base = src[j] - removed_sum(seat, u, weight) + added_sum(seat, u, weight);
    let n = features.threat(
        colour,
        king.index as int,
        t.attacker,
        t.victim,
        t.from.index as int,
        t.to.index as int,
    ).1;
    law_wrap(base, weights[(features.pawn_tuple_count() + n) * src.len() + j] as i16);
}

/// One more threat to remove takes the weight that adding it would add.
pub proof fn law_aux_sub_threat<F: FeatureSet>(
    features: &F,
    colour: Colour,
    king: Square,
    src: Seq<i16>,
    rest: Seq<i16>,
    weights: Seq<i8>,
    u: AuxUpdateBuffer,
    more: AuxUpdateBuffer,
    t: ThreatFeature,
    j: int,
)
    requires
        0 <= j < src.len() - src.len() as int % (UNROLL as int),
        more.add@ == u.add@,
        more.sub@ == u.sub@.push(t),
        more.afore == u.afore,
        more.after == u.after,
    ensures
        ({
            let seat = seat_of(features, colour, king);
            let (used, n) = features.threat(
                colour,
                king.index as int,
                t.attacker,
                t.victim,
                t.from.index as int,
                t.to.index as int,
            );
            let without = aux_result(seat, src, rest, weights, u)[j];
            aux_result(seat, src, rest, weights, more)[j] == if used {
                without.wrapping_sub(
                    weights[(features.pawn_tuple_count() + n) * src.len() + j] as i16,
                )
            } else {
                without
            }
        }),
{
    let seat = seat_of(features, colour, king);
    let weight = lane_weight(weights, src.len() as int, j);
    let term = listed_term(seat, weight);
    lemma_sum_push(u.sub@, t, term);
    let base = src[j] - removed_sum(seat, u, weight) + added_sum(seat, u, weight);
    let n = features.threat(
        colour,
        king.index as int,
        t.attacker,
        t.victim,
        t.from.index as int,
        t.to.index as int,
    ).1;
    law_wrap(base, weights[(features.pawn_tuple_count() + n) * src.len() + j] as i16);
}

/// The sum of a value that one pair of squares has alone.
proof fn lemma_pairs_point(f: spec_fn(int, int) -> int, x: int, y: int)
    requires
        0 <= x < 64,
        0 <= y < 64,
        forall|a: int, b: int|
            0 <= a < 64 && 0 <= b < 64 && !(a == x && b == y) ==> #[trigger] f(a, b) == 0,
    ensures
        sum_pairs(f) == f(x, y),
{
    let rows = |a: int| sum_squares(|b: int| f(a, b));
    assert forall|a: int| 0 <= a < 64 && a != x implies #[trigger] rows(a) == 0 by {
        lemma_sum_zero(|b: int| f(a, b), 0);
    }
    lemma_point(|b: int| f(x, b), y, 0);
    lemma_point(rows, x, 0);
}

/// Where two grids differ from two others by what one pair of squares has, so do their sums.
proof fn lemma_pairs_differ(
    f11: spec_fn(int, int) -> int,
    f00: spec_fn(int, int) -> int,
    f10: spec_fn(int, int) -> int,
    f01: spec_fn(int, int) -> int,
    x: int,
    y: int,
    value: int,
)
    requires
        0 <= x < 64,
        0 <= y < 64,
        forall|a: int, b: int|
            0 <= a < 64 && 0 <= b < 64 ==> #[trigger] f11(a, b) + f00(a, b) == f10(a, b) + f01(a, b)
                + if a == x && b == y {
                value
            } else {
                0
            },
    ensures
        sum_pairs(f11) + sum_pairs(f00) == sum_pairs(f10) + sum_pairs(f01) + value,
{
    let point = |a: int, b: int|
        if a == x && b == y {
            value
        } else {
            0
        };
    let left = |a: int, b: int| f11(a, b) + f00(a, b);
    let right = |a: int, b: int| f10(a, b) + f01(a, b);
    let more = |a: int, b: int| right(a, b) + point(a, b);
    lemma_pairs_add(f11, f00, left);
    lemma_pairs_add(f10, f01, right);
    lemma_pairs_add(right, point, more);
    lemma_pairs_same(left, more);
    lemma_pairs_point(point, x, y);
}

/// The pairs of a set of pawns are counted one by one: what two pawns add together beyond what
/// each adds alone is the weight of their pair, under the sides that they belong to. Of two pawns
/// of one side the lower square is named first, of two sides the side that looks. Two pawns that
/// form no pair add nothing.
pub proof fn law_pairs_one_by_one<F: FeatureSet>(
    seat: Seat<F>,
    pawns: Pawns,
    x: Colour,
    a: int,
    y: Colour,
    b: int,
    weight: spec_fn(int) -> int,
)
    requires
        0 <= a < 64,
        0 <= b < 64,
        !(x == y && a == b),
        !pawns(x, a),
        !pawns(y, b),
    ensures
        ({
            let (p, s, q, t) = if x == y && a < b || x != y && x == seat.colour {
                (x, a, y, b)
            } else {
                (y, b, x, a)
            };
            pawn_pair_sum(
                seat,
                |c: Colour, i: int| pawns(c, i) || c == x && i == a || c == y && i == b,
                weight,
            ) + pawn_pair_sum(seat, pawns, weight) == pawn_pair_sum(
                seat,
                |c: Colour, i: int| pawns(c, i) || c == x && i == a,
                weight,
            ) + pawn_pair_sum(seat, |c: Colour, i: int| pawns(c, i) || c == y && i == b, weight)
                + if seat.features.pawn_mask(s % 8).has(t) {
                weight(seat.features.pawn_pair(seat.colour, seat.king, p, s, q, t) as int)
            } else {
                0
            }
        }),
{
    let both = |c: Colour, i: int| pawns(c, i) || c == x && i == a || c == y && i == b;
    let one = |c: Colour, i: int| pawns(c, i) || c == x && i == a;
    let two = |c: Colour, i: int| pawns(c, i) || c == y && i == b;
    lemma_same_side_differ(seat, pawns, one, two, both, x, a, y, b, seat.colour, weight);
    lemma_same_side_differ(seat, pawns, one, two, both, x, a, y, b, seat.colour.other(), weight);
    lemma_cross_differ(seat, pawns, one, two, both, x, a, y, b, weight);
}

/// The pairs within one side.
proof fn lemma_same_side_differ<F: FeatureSet>(
    seat: Seat<F>,
    pawns: Pawns,
    one: Pawns,
    two: Pawns,
    both: Pawns,
    x: Colour,
    a: int,
    y: Colour,
    b: int,
    side: Colour,
    weight: spec_fn(int) -> int,
)
    requires
        0 <= a < 64,
        0 <= b < 64,
        !(x == y && a == b),
        !pawns(x, a),
        !pawns(y, b),
        forall|c: Colour, i: int| #[trigger] one(c, i) == (pawns(c, i) || c == x && i == a),
        forall|c: Colour, i: int| #[trigger] two(c, i) == (pawns(c, i) || c == y && i == b),
        forall|c: Colour, i: int| #[trigger]
            both(c, i) == (pawns(c, i) || c == x && i == a || c == y && i == b),
    ensures
        same_side_pair_sum(seat, both, side, weight) + same_side_pair_sum(seat, pawns, side, weight)
            == same_side_pair_sum(seat, one, side, weight) + same_side_pair_sum(
            seat,
            two,
            side,
            weight,
        ) + if x == side && y == side {
            if a < b {
                pair_term(seat, side, a, side, b, weight)
            } else {
                pair_term(seat, side, b, side, a, weight)
            }
        } else {
            0
        },
{
    let grid = |set: Pawns|
        |i: int, j: int|
            if i < j && set(side, i) && set(side, j) {
                pair_term(seat, side, i, side, j, weight)
            } else {
                0
            };
    let (f00, f10, f01, f11) = (grid(pawns), grid(one), grid(two), grid(both));
    let (low, high) = if a < b {
        (a, b)
    } else {
        (b, a)
    };
    let value = if x == side && y == side {
        pair_term(seat, side, low, side, high, weight)
    } else {
        0
    };
    assert forall|i: int, j: int| 0 <= i < 64 && 0 <= j < 64 implies #[trigger] f11(i, j) + f00(
        i,
        j,
    ) == f10(i, j) + f01(i, j) + if i == low && j == high {
        value
    } else {
        0
    } by {}
    lemma_pairs_differ(f11, f00, f10, f01, low, high, value);
}

/// The pairs across.
proof fn lemma_cross_differ<F: FeatureSet>(
    seat: Seat<F>,
    pawns: Pawns,
    one: Pawns,
    two: Pawns,
    both: Pawns,
    x: Colour,
    a: int,
    y: Colour,
    b: int,
    weight: spec_fn(int) -> int,
)
    requires
        0 <= a < 64,
        0 <= b < 64,
        !(x == y && a == b),
        !pawns(x, a),
        !pawns(y, b),
        forall|c: Colour, i: int| #[trigger] one(c, i) == (pawns(c, i) || c == x && i == a),
        forall|c: Colour, i: int| #[trigger] two(c, i) == (pawns(c, i) || c == y && i == b),
        forall|c: Colour, i: int| #[trigger]
            both(c, i) == (pawns(c, i) || c == x && i == a || c == y && i == b),
    ensures
        cross_pair_sum(seat, both, weight) + cross_pair_sum(seat, pawns, weight) == cross_pair_sum(
            seat,
            one,
            weight,
        ) + cross_pair_sum(seat, two, weight) + if x == y {
            0
        } else if x == seat.colour {
            pair_term(seat, x, a, y, b, weight)
        } else {
            pair_term(seat, y, b, x, a, weight)
        },
{
    let grid = |set: Pawns|
        |i: int, j: int|
            if set(seat.colour, i) && set(seat.colour.other(), j) {
                pair_term(seat, seat.colour, i, seat.colour.other(), j, weight)
            } else {
                0
            };
    let (f00, f10, f01, f11) = (grid(pawns), grid(one), grid(two), grid(both));
    let (own, their) = if x == seat.colour {
        (a, b)
    } else {
        (b, a)
    };
    let value = if x == y {
        0
    } else {
        pair_term(seat, seat.colour, own, seat.colour.other(), their, weight)
    };
    assert forall|i: int, j: int| 0 <= i < 64 && 0 <= j < 64 implies #[trigger] f11(i, j) + f00(
        i,
        j,
    ) == f10(i, j) + f01(i, j) + if i == own && j == their {
        value
    } else {
        0
    } by {}
    lemma_pairs_differ(f11, f00, f10, f01, own, their, value);
}

/// No pawns, and one pawn alone, form no pairs.
pub proof fn law_no_pair_alone<F: FeatureSet>(
    seat: Seat<F>,
    x: Colour,
    a: int,
    weight: spec_fn(int) -> int,
)
    ensures
        pawn_pair_sum(seat, |c: Colour, i: int| false, weight) == 0,
        pawn_pair_sum(seat, |c: Colour, i: int| c == x && i == a, weight) == 0,
{
    lemma_alone(seat, |c: Colour, i: int| false, x, a, weight);
    lemma_alone(seat, |c: Colour, i: int| c == x && i == a, x, a, weight);
}

proof fn lemma_alone<F: FeatureSet>(
    seat: Seat<F>,
    pawns: Pawns,
    x: Colour,
    a: int,
    weight: spec_fn(int) -> int,
)
    requires
        forall|c: Colour, i: int| #[trigger] pawns(c, i) ==> c == x && i == a,
    ensures
        pawn_pair_sum(seat, pawns, weight) == 0,
{
    let own = seat.colour;
    let other = seat.colour.other();
    lemma_pairs_zero(
        |i: int, j: int|
            if i < j && pawns(own, i) && pawns(own, j) {
                pair_term(seat, own, i, own, j, weight)
            } else {
                0
            },
    );
    lemma_pairs_zero(
        |i: int, j: int|
            if i < j && pawns(other, i) && pawns(other, j) {
                pair_term(seat, other, i, other, j, weight)
            } else {
                0
            },
    );
    lemma_pairs_zero(
        |i: int, j: int|
            if pawns(seat.colour, i) && pawns(seat.colour.other(), j) {
                pair_term(seat, seat.colour, i, seat.colour.other(), j, weight)
            } else {
                0
            },
    );
}

/// `after` holds the pawns of `before` and one more, of `side` on `sq`.
pub open spec fn gains(
    before: [SquareSet; 2],
    after: [SquareSet; 2],
    side: Colour,
    sq: int,
) -> bool {
    &&& 0 <= sq < 64
    &&& !before@[side.place()].has(sq)
    &&& forall|c: Colour, i: int| #[trigger]
        after@[c.place()].has(i) <==> before@[c.place()].has(i) || c == side && i == sq
}

/// What each pair of squares adds to the sum of the pairs with a fresh pawn of `side`.
spec fn fresh_grid<F: FeatureSet>(
    seat: Seat<F>,
    now: Pawns,
    before: Pawns,
    side: Colour,
    weight: spec_fn(int) -> int,
) -> spec_fn(int, int) -> int {
    |a: int, b: int|
        fresh_pair_term(seat, now, before, side, a, Colour::White, b, weight) + fresh_pair_term(
            seat,
            now,
            before,
            side,
            a,
            Colour::Black,
            b,
            weight,
        )
}

/// With one fresh pawn, a second pawn that stays adds the pair of the two, the fresh one first.
proof fn lemma_one_fresh<F: FeatureSet>(
    seat: Seat<F>,
    old1: Pawns,
    new1: Pawns,
    old2: Pawns,
    new2: Pawns,
    x: Colour,
    a: int,
    y: Colour,
    b: int,
    weight: spec_fn(int) -> int,
)
    requires
        0 <= a < 64,
        0 <= b < 64,
        !old1(x, a),
        !old1(y, b),
        !old2(x, a),
        forall|c: Colour, i: int| #[trigger] new1(c, i) == (old1(c, i) || c == x && i == a),
        forall|c: Colour, i: int| #[trigger] old2(c, i) == (old1(c, i) || c == y && i == b),
        forall|c: Colour, i: int| #[trigger] new2(c, i) == (old2(c, i) || c == x && i == a),
    ensures
        fresh_pair_sum(seat, new2, old2, weight) == fresh_pair_sum(seat, new1, old1, weight)
            + if a != b {
            pair_term(seat, x, a, y, b, weight)
        } else {
            0
        },
        fresh_pair_sum(seat, old1, new1, weight) == 0,
        fresh_pair_sum(seat, old2, new2, weight) == 0,
{
    lemma_one_fresh_side(seat, old1, new1, old2, new2, x, a, y, b, Colour::White, weight);
    lemma_one_fresh_side(seat, old1, new1, old2, new2, x, a, y, b, Colour::Black, weight);
    lemma_none_fresh(seat, old1, new1, weight);
    lemma_none_fresh(seat, old2, new2, weight);
}

proof fn lemma_one_fresh_side<F: FeatureSet>(
    seat: Seat<F>,
    old1: Pawns,
    new1: Pawns,
    old2: Pawns,
    new2: Pawns,
    x: Colour,
    a: int,
    y: Colour,
    b: int,
    side: Colour,
    weight: spec_fn(int) -> int,
)
    requires
        0 <= a < 64,
        0 <= b < 64,
        !old1(x, a),
        !old1(y, b),
        !old2(x, a),
        forall|c: Colour, i: int| #[trigger] new1(c, i) == (old1(c, i) || c == x && i == a),
        forall|c: Colour, i: int| #[trigger] old2(c, i) == (old1(c, i) || c == y && i == b),
        forall|c: Colour, i: int| #[trigger] new2(c, i) == (old2(c, i) || c == x && i == a),
    ensures
        fresh_side_sum(seat, new2, old2, side, weight) == fresh_side_sum(
            seat,
            new1,
            old1,
            side,
            weight,
        ) + if side == x && a != b {
            pair_term(seat, x, a, y, b, weight)
        } else {
            0
        },
{
    let (w, k) = (Colour::White, Colour::Black);
    let f = fresh_grid(seat, new1, old1, side, weight);
    let g = fresh_grid(seat, new2, old2, side, weight);
    let value = if side == x && a != b {
        pair_term(seat, x, a, y, b, weight)
    } else {
        0
    };
    let point = |i: int, j: int|
        if i == a && j == b {
            value
        } else {
            0
        };
    assert forall|i: int, j: int| 0 <= i < 64 && 0 <= j < 64 implies #[trigger] g(i, j) == f(i, j)
        + point(i, j) by {
        assert(new1(w, j) == (old1(w, j) || w == x && j == a));
        assert(new1(k, j) == (old1(k, j) || k == x && j == a));
        assert(new2(w, j) == (old2(w, j) || w == x && j == a));
        assert(new2(k, j) == (old2(k, j) || k == x && j == a));
        assert(old2(w, j) == (old1(w, j) || w == y && j == b));
        assert(old2(k, j) == (old1(k, j) || k == y && j == b));
        assert(new1(side, i) == (old1(side, i) || side == x && i == a));
        assert(new2(side, i) == (old2(side, i) || side == x && i == a));
        assert(old2(side, i) == (old1(side, i) || side == y && i == b));
    }
    lemma_pairs_add(f, point, g);
    lemma_pairs_point(point, a, b);
}

/// Where every pawn was there before, no pair is fresh.
proof fn lemma_none_fresh<F: FeatureSet>(
    seat: Seat<F>,
    now: Pawns,
    before: Pawns,
    weight: spec_fn(int) -> int,
)
    requires
        forall|c: Colour, i: int| #[trigger] now(c, i) ==> before(c, i),
    ensures
        fresh_pair_sum(seat, now, before, weight) == 0,
{
    lemma_pairs_zero(fresh_grid(seat, now, before, Colour::White, weight));
    lemma_pairs_zero(fresh_grid(seat, now, before, Colour::Black, weight));
}

/// Where a pawn of `x` arrives on `a`, one more pawn of `y` that stands on `b` throughout adds the
/// weight of the pair of the two, under their own sides, the arriving pawn first; nothing, where
/// they form no pair.
pub proof fn law_aux_pawn_arrives<F: FeatureSet>(
    features: &F,
    colour: Colour,
    king: Square,
    src: Seq<i16>,
    rest: Seq<i16>,
    weights: Seq<i8>,
    u: AuxUpdateBuffer,
    more: AuxUpdateBuffer,
    x: Colour,
    a: int,
    y: Colour,
    b: int,
    j: int,
)
    requires
        0 <= j < src.len() - src.len() as int % (UNROLL as int),
        gains(u.afore, u.after, x, a),
        gains(u.afore, more.afore, y, b),
        gains(more.afore, more.after, x, a),
        more.add@ == u.add@,
        more.sub@ == u.sub@,
    ensures
        ({
            let seat = seat_of(features, colour, king);
            let without = aux_result(seat, src, rest, weights, u)[j];
            let n = features.pawn_pair(colour, king.index as int, x, a, y, b);
            aux_result(seat, src, rest, weights, more)[j] == if a != b && features.pawn_mask(
                a % 8,
            ).has(b) {
                without.wrapping_add(weights[n * src.len() + j] as i16)
            } else {
                without
            }
        }),
{
    let seat = seat_of(features, colour, king);
    let weight = lane_weight(weights, src.len() as int, j);
    let n = features.pawn_pair(colour, king.index as int, x, a, y, b);
    lemma_one_fresh(
        seat,
        pawns_of(u.afore),
        pawns_of(u.after),
        pawns_of(more.afore),
        pawns_of(more.after),
        x,
        a,
        y,
        b,
        weight,
    );
    let base = src[j] - removed_sum(seat, u, weight) + added_sum(seat, u, weight);
    law_wrap(base, weights[n * src.len() + j] as i16);
}

/// Where a pawn of `x` leaves `a`, one more pawn of `y` that stands on `b` throughout takes the
/// weight of the pair of the two, under their own sides, the leaving pawn first.
pub proof fn law_aux_pawn_leaves<F: FeatureSet>(
    features: &F,
    colour: Colour,
    king: Square,
    src: Seq<i16>,
    rest: Seq<i16>,
    weights: Seq<i8>,
    u: AuxUpdateBuffer,
    more: AuxUpdateBuffer,
    x: Colour,
    a: int,
    y: Colour,
    b: int,
    j: int,
)
    requires
        0 <= j < src.len() - src.len() as int % (UNROLL as int),
        gains(u.after, u.afore, x, a),
        gains(u.after, more.after, y, b),
        gains(more.after, more.afore, x, a),
        more.add@ == u.add@,
        more.sub@ == u.sub@,
    ensures
        ({
            let seat = seat_of(features, colour, king);
            let without = aux_result(seat, src, rest, weights, u)[j];
            let n = features.pawn_pair(colour, king.index as int, x, a, y, b);
            aux_result(seat, src, rest, weights, more)[j] == if a != b && features.pawn_mask(
                a % 8,
            ).has(b) {
                without.wrapping_sub(weights[n * src.len() + j] as i16)
            } else {
                without
            }
        }),
{
    let seat = seat_of(features, colour, king);
    let weight = lane_weight(weights, src.len() as int, j);
    let n = features.pawn_pair(colour, king.index as int, x, a, y, b);
    lemma_one_fresh(
        seat,
        pawns_of(u.after),
        pawns_of(u.afore),
        pawns_of(more.after),
        pawns_of(more.afore),
        x,
        a,
        y,
        b,
        weight,
    );
    let base = src[j] - removed_sum(seat, u, weight) + added_sum(seat, u, weight);
    law_wrap(base, weights[n * src.len() + j] as i16);
}

/// A pawn that arrives on, or leaves, a board without other pawns changes no lane of the whole
/// tiles.
pub proof fn law_aux_lone_pawn<F: FeatureSet>(
    features: &F,
    colour: Colour,
    king: Square,
    src: Seq<i16>,
    rest: Seq<i16>,
    weights: Seq<i8>,
    u: AuxUpdateBuffer,
    still: AuxUpdateBuffer,
    x: Colour,
    a: int,
    j: int,
)
    requires
        0 <= j < src.len() - src.len() as int % (UNROLL as int),
        still.add@ == u.add@,
        still.sub@ == u.sub@,
        still.afore == still.after,
        gains(u.afore, u.after, x, a) || gains(u.after, u.afore, x, a),
        forall|c: Colour, i: int|
            !(#[trigger] u.afore@[c.place()].has(i) && u.after@[c.place()].has(i)),
    ensures
        aux_result(seat_of(features, colour, king), src, rest, weights, u)[j] == aux_result(
            seat_of(features, colour, king),
            src,
            rest,
            weights,
            still,
        )[j],
{
    let seat = seat_of(features, colour, king);
    let weight = lane_weight(weights, src.len() as int, j);
    let (afore, after) = (pawns_of(u.afore), pawns_of(u.after));
    if gains(u.afore, u.after, x, a) {
        assert forall|c: Colour, i: int| !#[trigger] afore(c, i) by {
            assert(u.after@[c.place()].has(i) <==> u.afore@[c.place()].has(i) || c == x && i == a);
        }
        lemma_one_fresh_alone(seat, after, afore, x, a, weight);
        lemma_none_fresh(seat, afore, after, weight);
    } else {
        assert forall|c: Colour, i: int| !#[trigger] after(c, i) by {
            assert(u.afore@[c.place()].has(i) <==> u.after@[c.place()].has(i) || c == x && i == a);
        }
        lemma_one_fresh_alone(seat, afore, after, x, a, weight);
        lemma_none_fresh(seat, after, afore, weight);
    }
    let same = pawns_of(still.after);
    lemma_none_fresh(seat, same, same, weight);
}

/// A fresh pawn without others forms no pair.
proof fn lemma_one_fresh_alone<F: FeatureSet>(
    seat: Seat<F>,
    now: Pawns,
    before: Pawns,
    x: Colour,
    a: int,
    weight: spec_fn(int) -> int,
)
    requires
        forall|c: Colour, i: int| #[trigger] now(c, i) ==> c == x && i == a,
    ensures
        fresh_pair_sum(seat, now, before, weight) == 0,
{
    lemma_pairs_zero(fresh_grid(seat, now, before, Colour::White, weight));
    lemma_pairs_zero(fresh_grid(seat, now, before, Colour::Black, weight));
}

/// `(x, a)` is taken before `(y, b)` where both pawns arrive or leave at once: White's pawns first,
/// and of one side the lower square.
pub open spec fn goes_first(x: Colour, a: int, y: Colour, b: int) -> bool {
    x == Colour::White && y == Colour::Black || x == y && a < b
}

/// Of two fresh pawns, what both add together beyond what each adds alone is their pair, the one
/// that is taken first named first.
proof fn lemma_two_fresh<F: FeatureSet>(
    seat: Seat<F>,
    before: Pawns,
    now0: Pawns,
    now1: Pawns,
    now2: Pawns,
    now3: Pawns,
    x: Colour,
    a: int,
    y: Colour,
    b: int,
    weight: spec_fn(int) -> int,
)
    requires
        0 <= a < 64,
        0 <= b < 64,
        a != b,
        goes_first(x, a, y, b),
        !before(x, a) && !before(y, b),
        !now0(x, a) && !now0(y, b),
        forall|c: Colour, i: int| #[trigger] now1(c, i) == (now0(c, i) || c == x && i == a),
        forall|c: Colour, i: int| #[trigger] now2(c, i) == (now0(c, i) || c == y && i == b),
        forall|c: Colour, i: int| #[trigger] now3(c, i) == (now1(c, i) || c == y && i == b),
        !now0(x.other(), a) && !now0(y.other(), b),
    ensures
        fresh_pair_sum(seat, now3, before, weight) + fresh_pair_sum(seat, now0, before, weight)
            == fresh_pair_sum(seat, now1, before, weight) + fresh_pair_sum(
            seat,
            now2,
            before,
            weight,
        ) + pair_term(seat, x, a, y, b, weight),
        fresh_pair_sum(seat, before, now0, weight) == fresh_pair_sum(seat, before, now3, weight),
        fresh_pair_sum(seat, before, now1, weight) == fresh_pair_sum(seat, before, now3, weight),
        fresh_pair_sum(seat, before, now2, weight) == fresh_pair_sum(seat, before, now3, weight),
{
    let (w, k) = (Colour::White, Colour::Black);
    lemma_two_fresh_side(seat, before, now0, now1, now2, now3, x, a, y, b, w, weight);
    lemma_two_fresh_side(seat, before, now0, now1, now2, now3, x, a, y, b, k, weight);
    assert forall|c: Colour, i: int| #[trigger] before(c, i) implies now1(c, i) == now0(c, i)
        && now2(c, i) == now0(c, i) && now3(c, i) == now0(c, i) by {
        assert(now3(c, i) == (now1(c, i) || c == y && i == b));
    }
    lemma_same_fresh(seat, before, now0, now3, weight);
    lemma_same_fresh(seat, before, now1, now3, weight);
    lemma_same_fresh(seat, before, now2, now3, weight);
}

proof fn lemma_two_fresh_side<F: FeatureSet>(
    seat: Seat<F>,
    before: Pawns,
    now0: Pawns,
    now1: Pawns,
    now2: Pawns,
    now3: Pawns,
    x: Colour,
    a: int,
    y: Colour,
    b: int,
    side: Colour,
    weight: spec_fn(int) -> int,
)
    requires
        0 <= a < 64,
        0 <= b < 64,
        a != b,
        goes_first(x, a, y, b),
        !before(x, a) && !before(y, b),
        !now0(x, a) && !now0(y, b),
        forall|c: Colour, i: int| #[trigger] now1(c, i) == (now0(c, i) || c == x && i == a),
        forall|c: Colour, i: int| #[trigger] now2(c, i) == (now0(c, i) || c == y && i == b),
        forall|c: Colour, i: int| #[trigger] now3(c, i) == (now1(c, i) || c == y && i == b),
        !now0(x.other(), a) && !now0(y.other(), b),
    ensures
        fresh_side_sum(seat, now3, before, side, weight) + fresh_side_sum(
            seat,
            now0,
            before,
            side,
            weight,
        ) == fresh_side_sum(seat, now1, before, side, weight) + fresh_side_sum(
            seat,
            now2,
            before,
            side,
            weight,
        ) + if side == x {
            pair_term(seat, x, a, y, b, weight)
        } else {
            0
        },
{
    let (w, k) = (Colour::White, Colour::Black);
    let f0 = fresh_grid(seat, now0, before, side, weight);
    let f1 = fresh_grid(seat, now1, before, side, weight);
    let f2 = fresh_grid(seat, now2, before, side, weight);
    let f3 = fresh_grid(seat, now3, before, side, weight);
    let value = if side == x {
        pair_term(seat, x, a, y, b, weight)
    } else {
        0
    };
    assert forall|i: int, j: int| 0 <= i < 64 && 0 <= j < 64 implies #[trigger] f3(i, j) + f0(i, j)
        == f1(i, j) + f2(i, j) + if i == a && j == b {
        value
    } else {
        0
    } by {
        assert(now1(w, j) == (now0(w, j) || w == x && j == a));
        assert(now1(k, j) == (now0(k, j) || k == x && j == a));
        assert(now2(w, j) == (now0(w, j) || w == y && j == b));
        assert(now2(k, j) == (now0(k, j) || k == y && j == b));
        assert(now3(w, j) == (now1(w, j) || w == y && j == b));
        assert(now3(k, j) == (now1(k, j) || k == y && j == b));
        assert(now1(side, i) == (now0(side, i) || side == x && i == a));
        assert(now2(side, i) == (now0(side, i) || side == y && i == b));
        assert(now3(side, i) == (now1(side, i) || side == y && i == b));
    }
    lemma_pairs_differ(f3, f0, f1, f2, a, b, value);
}

/// The fresh pairs depend on nothing before but on which pawns are fresh.
proof fn lemma_same_fresh<F: FeatureSet>(
    seat: Seat<F>,
    now: Pawns,
    before: Pawns,
    other: Pawns,
    weight: spec_fn(int) -> int,
)
    requires
        forall|c: Colour, i: int| #[trigger] now(c, i) ==> before(c, i) == other(c, i),
    ensures
        fresh_pair_sum(seat, now, before, weight) == fresh_pair_sum(seat, now, other, weight),
{
    let (w, k) = (Colour::White, Colour::Black);
    assert forall|side: Colour|
        fresh_side_sum(seat, now, before, side, weight) == #[trigger] fresh_side_sum(
            seat,
            now,
            other,
            side,
            weight,
        ) by {
        lemma_pairs_same(
            fresh_grid(seat, now, before, side, weight),
            fresh_grid(seat, now, other, side, weight),
        );
    }
    assert(fresh_side_sum(seat, now, before, w, weight) == fresh_side_sum(
        seat,
        now,
        other,
        w,
        weight,
    ));
    assert(fresh_side_sum(seat, now, before, k, weight) == fresh_side_sum(
        seat,
        now,
        other,
        k,
        weight,
    ));
}

/// Whatever the numbering, what two pawns add that arrive at once, beyond what each adds alone, is
/// the weight of their pair, named White's pawn first and of one side the lower square first.
pub proof fn law_aux_two_arrive<F: FeatureSet>(
    features: &F,
    colour: Colour,
    king: Square,
    src: Seq<i16>,
    rest: Seq<i16>,
    weights: Seq<i8>,
    u: AuxUpdateBuffer,
    one: AuxUpdateBuffer,
    two: AuxUpdateBuffer,
    both: AuxUpdateBuffer,
    x: Colour,
    a: int,
    y: Colour,
    b: int,
    j: int,
)
    requires
        0 <= j < src.len() - src.len() as int % (UNROLL as int),
        a != b,
        goes_first(x, a, y, b),
        one.add@ == u.add@ && two.add@ == u.add@ && both.add@ == u.add@,
        one.sub@ == u.sub@ && two.sub@ == u.sub@ && both.sub@ == u.sub@,
        one.afore == u.afore && two.afore == u.afore && both.afore == u.afore,
        gains(u.after, one.after, x, a),
        gains(u.after, two.after, y, b),
        gains(one.after, both.after, y, b),
        !u.afore@[x.place()].has(a) && !u.afore@[y.place()].has(b),
        !(both.after@[0].has(a) && both.after@[1].has(a)),
        !(both.after@[0].has(b) && both.after@[1].has(b)),
    ensures
        ({
            let seat = seat_of(features, colour, king);
            let n = features.pawn_pair(colour, king.index as int, x, a, y, b);
            aux_result(seat, src, rest, weights, both)[j].wrapping_add(
                aux_result(seat, src, rest, weights, u)[j],
            ) == aux_result(seat, src, rest, weights, one)[j].wrapping_add(
                aux_result(seat, src, rest, weights, two)[j],
            ).wrapping_add(
                if features.pawn_mask(a % 8).has(b) {
                    weights[n * src.len() + j] as i16
                } else {
                    0
                },
            )
        }),
{
    let seat = seat_of(features, colour, king);
    let weight = lane_weight(weights, src.len() as int, j);
    let n = features.pawn_pair(colour, king.index as int, x, a, y, b);
    assert(both.after@[x.place()].has(a) && both.after@[y.place()].has(b));
    lemma_two_fresh(
        seat,
        pawns_of(u.afore),
        pawns_of(u.after),
        pawns_of(one.after),
        pawns_of(two.after),
        pawns_of(both.after),
        x,
        a,
        y,
        b,
        weight,
    );
    let value: i16 = if features.pawn_mask(a % 8).has(b) {
        weights[n * src.len() + j] as i16
    } else {
        0
    };
    let lane = |v: AuxUpdateBuffer| src[j] - removed_sum(seat, v, weight) + added_sum(
        seat,
        v,
        weight,
    );
    assert(lane(both) + lane(u) == lane(one) + lane(two) + value);
    lemma_wrapped_sums(lane(both), lane(u), lane(one), lane(two), value);
}

/// Whatever the numbering, what two pawns take that leave at once, beyond what each takes alone,
/// is the weight of their pair, named White's pawn first and of one side the lower square first.
pub proof fn law_aux_two_leave<F: FeatureSet>(
    features: &F,
    colour: Colour,
    king: Square,
    src: Seq<i16>,
    rest: Seq<i16>,
    weights: Seq<i8>,
    u: AuxUpdateBuffer,
    one: AuxUpdateBuffer,
    two: AuxUpdateBuffer,
    both: AuxUpdateBuffer,
    x: Colour,
    a: int,
    y: Colour,
    b: int,
    j: int,
)
    requires
        0 <= j < src.len() - src.len() as int % (UNROLL as int),
        a != b,
        goes_first(x, a, y, b),
        one.add@ == u.add@ && two.add@ == u.add@ && both.add@ == u.add@,
        one.sub@ == u.sub@ && two.sub@ == u.sub@ && both.sub@ == u.sub@,
        one.after == u.after && two.after == u.after && both.after == u.after,
        gains(u.afore, one.afore, x, a),
        gains(u.afore, two.afore, y, b),
        gains(one.afore, both.afore, y, b),
        !u.after@[x.place()].has(a) && !u.after@[y.place()].has(b),
        !(both.afore@[0].has(a) && both.afore@[1].has(a)),
        !(both.afore@[0].has(b) && both.afore@[1].has(b)),
    ensures
        ({
            let seat = seat_of(features, colour, king);
            let n = features.pawn_pair(colour, king.index as int, x, a, y, b);
            aux_result(seat, src, rest, weights, one)[j].wrapping_add(
                aux_result(seat, src, rest, weights, two)[j],
            ) == aux_result(seat, src, rest, weights, both)[j].wrapping_add(
                aux_result(seat, src, rest, weights, u)[j],
            ).wrapping_add(
                if features.pawn_mask(a % 8).has(b) {
                    weights[n * src.len() + j] as i16
                } else {
                    0
                },
            )
        }),
{
    let seat = seat_of(features, colour, king);
    let weight = lane_weight(weights, src.len() as int, j);
    let n = features.pawn_pair(colour, king.index as int, x, a, y, b);
    assert(both.afore@[x.place()].has(a) && both.afore@[y.place()].has(b));
    lemma_two_fresh(
        seat,
        pawns_of(u.after),
        pawns_of(u.afore),
        pawns_of(one.afore),
        pawns_of(two.afore),
        pawns_of(both.afore),
        x,
        a,
        y,
        b,
        weight,
    );
    let value: i16 = if features.pawn_mask(a % 8).has(b) {
        weights[n * src.len() + j] as i16
    } else {
        0
    };
    let lane = |v: AuxUpdateBuffer| src[j] - removed_sum(seat, v, weight) + added_sum(
        seat,
        v,
        weight,
    );
    assert(lane(one) + lane(two) == lane(both) + lane(u) + value);
    lemma_wrapped_sums(lane(one), lane(two), lane(both), lane(u), value);
}

/// Sums of wrapped values differ as the sums do.
proof fn lemma_wrapped_sums(p: int, q: int, r: int, s: int, value: i16)
    requires
        p + q == r + s + value,
    ensures
        wrap_i16(p).wrapping_add(wrap_i16(q)) == wrap_i16(r).wrapping_add(
            wrap_i16(s),
        ).wrapping_add(value),
{
    law_wrap(p, wrap_i16(q));
    lemma_wrap_absorbs(q, p);
    law_wrap(r, wrap_i16(s));
    lemma_wrap_absorbs(s, r);
    law_wrap(r + s, value);
}

/// Whatever the numbering, an update is the pawns that leave and the threats that vanish, and then
/// the pawns that arrive and the threats that appear: neither half depends on the other.
pub proof fn law_aux_leave_then_arrive<F: FeatureSet>(
    features: &F,
    colour: Colour,
    king: Square,
    src: Seq<i16>,
    rest: Seq<i16>,
    last: Seq<i16>,
    weights: Seq<i8>,
    u: AuxUpdateBuffer,
    go: AuxUpdateBuffer,
    come: AuxUpdateBuffer,
    j: int,
)
    requires
        0 <= j < src.len() - src.len() as int % (UNROLL as int),
        go.add@.len() == 0 && go.sub@ == u.sub@,
        come.sub@.len() == 0 && come.add@ == u.add@,
        go.afore == u.afore && come.after == u.after && go.after == come.afore,
        forall|c: Colour, i: int| #[trigger]
            go.after@[c.place()].has(i) <==> u.afore@[c.place()].has(i)
                && u.after@[c.place()].has(i),
    ensures
        ({
            let seat = seat_of(features, colour, king);
            let between = aux_result(seat, src, rest, weights, go);
            aux_result(seat, between, last, weights, come)[j] == aux_result(
                seat,
                src,
                last,
                weights,
                u,
            )[j]
        }),
{
    let seat = seat_of(features, colour, king);
    let weight = lane_weight(weights, src.len() as int, j);
    let (afore, kept, after) = (pawns_of(u.afore), pawns_of(go.after), pawns_of(u.after));
    assert forall|c: Colour, i: int| #[trigger] kept(c, i) == (afore(c, i) && after(c, i)) by {}
    assert forall|c: Colour, i: int| #[trigger] after(c, i) implies kept(c, i) == afore(c, i) by {
        assert(kept(c, i) == (afore(c, i) && after(c, i)));
    }
    assert forall|c: Colour, i: int| #[trigger] afore(c, i) implies kept(c, i) == after(c, i) by {
        assert(kept(c, i) == (afore(c, i) && after(c, i)));
    }
    lemma_same_fresh(seat, after, kept, afore, weight);
    lemma_same_fresh(seat, afore, kept, after, weight);
    lemma_none_fresh(seat, kept, afore, weight);
    lemma_none_fresh(seat, kept, after, weight);
    assert(listed_threat_sum(seat, go.add@, weight) == 0);
    assert(listed_threat_sum(seat, come.sub@, weight) == 0);
    lemma_wrap_absorbs(src[j] - removed_sum(seat, u, weight), added_sum(seat, u, weight));
}

/// Where the numbering is symmetric and no square holds two pawns, updates to different pawns
/// differ pair by pair: what two more pawns after the update add together, beyond what each adds
/// alone, is the weight of their pair.
pub proof fn law_aux_pawns_pair_by_pair<F: FeatureSet>(
    features: &F,
    colour: Colour,
    king: Square,
    src: Seq<i16>,
    rest: Seq<i16>,
    weights: Seq<i8>,
    u: AuxUpdateBuffer,
    one: AuxUpdateBuffer,
    two: AuxUpdateBuffer,
    both: AuxUpdateBuffer,
    x: Colour,
    a: int,
    y: Colour,
    b: int,
    j: int,
)
    requires
        0 <= j < src.len() - src.len() as int % (UNROLL as int),
        king.index < 64,
        is_symmetric(features),
        one.add@ == u.add@ && two.add@ == u.add@ && both.add@ == u.add@,
        one.sub@ == u.sub@ && two.sub@ == u.sub@ && both.sub@ == u.sub@,
        one.afore == u.afore && two.afore == u.afore && both.afore == u.afore,
        gains(u.after, one.after, x, a),
        gains(u.after, two.after, y, b),
        gains(one.after, both.after, y, b),
        forall|i: int| !(#[trigger] u.afore@[0].has(i) && u.afore@[1].has(i)),
        forall|i: int| !(#[trigger] both.after@[0].has(i) && both.after@[1].has(i)),
    ensures
        ({
            let seat = seat_of(features, colour, king);
            let n = features.pawn_pair(colour, king.index as int, x, a, y, b);
            aux_result(seat, src, rest, weights, both)[j].wrapping_add(
                aux_result(seat, src, rest, weights, u)[j],
            ) == aux_result(seat, src, rest, weights, one)[j].wrapping_add(
                aux_result(seat, src, rest, weights, two)[j],
            ).wrapping_add(
                if features.pawn_mask(a % 8).has(b) {
                    weights[n * src.len() + j] as i16
                } else {
                    0
                },
            )
        }),
{
    let seat = seat_of(features, colour, king);
    let weight = lane_weight(weights, src.len() as int, j);
    let n = features.pawn_pair(colour, king.index as int, x, a, y, b);
    let (p, q0) = (pawns_of(u.afore), pawns_of(u.after));
    let (q1, q2, q3) = (pawns_of(one.after), pawns_of(two.after), pawns_of(both.after));
    assert forall|i: int| !(#[trigger] q3(Colour::White, i) && q3(Colour::Black, i)) by {}
    assert forall|i: int| !(#[trigger] p(Colour::White, i) && p(Colour::Black, i)) by {}
    assert forall|c: Colour, i: int| #[trigger] q1(c, i) == (q0(c, i) || c == x && i == a) by {}
    assert forall|c: Colour, i: int| #[trigger] q2(c, i) == (q0(c, i) || c == y && i == b) by {}
    assert forall|c: Colour, i: int| #[trigger] q3(c, i) == (q0(c, i) || c == x && i == a || c == y
        && i == b) by {
        assert(q1(c, i) == (q0(c, i) || c == x && i == a));
    }
    lemma_disjoint_below(q1, q3);
    lemma_disjoint_below(q2, q3);
    lemma_disjoint_below(q0, q3);
    law_pawn_pairs_follow(seat, p, q0, weight);
    law_pawn_pairs_follow(seat, p, q1, weight);
    law_pawn_pairs_follow(seat, p, q2, weight);
    law_pawn_pairs_follow(seat, p, q3, weight);
    assert(q1 =~= |c: Colour, i: int| q0(c, i) || c == x && i == a);
    assert(q2 =~= |c: Colour, i: int| q0(c, i) || c == y && i == b);
    assert(q3 =~= |c: Colour, i: int| q0(c, i) || c == x && i == a || c == y && i == b);
    assert(!q1(y, b));
    assert(!(x == y && a == b)) by {
        if x == y && a == b {
            assert(q1(x, a));
        }
    }
    law_pairs_one_by_one(seat, q0, x, a, y, b, weight);
    assert(seat.forms_pair(a, b) == seat.forms_pair(b, a));
    assert(seat.pair(x, a, y, b) == seat.pair(y, b, x, a));
    let value: i16 = if features.pawn_mask(a % 8).has(b) {
        weights[n * src.len() + j] as i16
    } else {
        0
    };
    let lane = |v: AuxUpdateBuffer| src[j] - removed_sum(seat, v, weight) + added_sum(
        seat,
        v,
        weight,
    );
    assert(lane(both) + lane(u) == lane(one) + lane(two) + value);
    lemma_wrapped_sums(lane(both), lane(u), lane(one), lane(two), value);
}

/// Fewer pawns stand on different squares too.
proof fn lemma_disjoint_below(fewer: Pawns, more: Pawns)
    requires
        is_disjoint(more),
        forall|c: Colour, i: int| #[trigger] fewer(c, i) ==> more(c, i),
    ensures
        is_disjoint(fewer),
{
    assert forall|i: int| #![trigger fewer(Colour::White, i)]
        !(fewer(Colour::White, i) && fewer(Colour::Black, i)) by {
        assert(!(more(Colour::White, i) && more(Colour::Black, i)));
    }
}

/// The sides and the kinds of pieces have their places in the tables, each its own.
pub proof fn law_places(one: Colour, two: Colour)
    ensures
        Colour::White.place() == 0,
        Colour::Black.place() == 1,
        one.other() != one,
        one.other() == two <==> one != two,
        PieceType::Pawn.place() == 0,
        PieceType::Knight.place() == 1,
        PieceType::Bishop.place() == 2,
        PieceType::Rook.place() == 3,
        PieceType::Queen.place() == 4,
        PieceType::King.place() == 5,
{
}

/// What a board says of a square is what its sets say of it: the set of the kind, the set of the
/// side, and, of the pieces in the way, the sets of both sides.
pub proof fn law_board_reads(board: Board, piece_type: PieceType, colour: Colour, sq: int)
    ensures
        board.bbs.has_type(piece_type, sq) <==> board.bbs.pieces@[piece_type.place()].has(sq),
        board.bbs.has_colour(colour, sq) <==> board.bbs.colours@[colour.place()].has(sq),
        board.bbs.has_piece(piece_type, colour, sq) <==> board.bbs.pieces@[piece_type.place()].has(
            sq,
        ) && board.bbs.colours@[colour.place()].has(sq),
        board.bbs.has_any(sq) <==> board.bbs.colours@[0].has(sq) || board.bbs.colours@[1].has(sq),
        board.bbs.blockers().has(sq) <==> board.bbs.colours@[0].has(sq)
            || board.bbs.colours@[1].has(sq),
{
    board.bbs.lemma_blockers(sq);
}

/// The lowest square of a set belongs to it, and no lower square does.
pub proof fn law_lowest(set: SquareSet, sq: int)
    ensures
        is_lowest(set, sq) <==> set.has(sq) && forall|i: int| i < sq ==> !#[trigger] set.has(i),
{
}

/// A side that has a king has it on the lowest square that holds a king of that side.
pub proof fn law_king_stands(board: Board, colour: Colour, sq: int)
    requires
        board.bbs.pieces@[5].has(sq),
        board.bbs.colours@[colour.place()].has(sq),
    ensures
        board.bbs.has_king(colour),
        board.bbs.pieces@[5].has(board.bbs.king_square(colour)),
        board.bbs.colours@[colour.place()].has(board.bbs.king_square(colour)),
        0 <= board.bbs.king_square(colour) <= sq,
{
    assert(board.bbs.has_piece(PieceType::King, colour, sq));
    board.bbs.lemma_king_on_board(colour);
    let found = board.bbs.king_square(colour);
    assert(board.bbs.is_king_square(colour, found));
    assert(board.bbs.has_piece(PieceType::King, colour, found));
}

/// Every square that holds a piece other than a king names one.
pub open spec fn every_man_named(board: Board) -> bool {
    forall|sq: int|
        (board.bbs.colours@[0].has(sq) || board.bbs.colours@[1].has(sq))
            && !board.bbs.pieces@[5].has(sq) ==> (#[trigger] board.mailbox@[sq]) is Some
}

/// The demands of the operations are no more than they say: squares below 64, threats between
/// such squares, a block within the bucket, and a piece named on every square that holds one other
/// than a king.
pub proof fn law_demands(
    square: Square,
    u: AuxUpdateBuffer,
    feature: PsqtFeatureIndex,
    len: int,
    width: int,
    board: Board,
)
    ensures
        square.wf() <==> square.index < 64,
        u.wf() <==> (forall|i: int|
            0 <= i < u.add@.len() ==> (#[trigger] u.add@[i]).from.index < 64 && u.add@[i].to.index
                < 64) && (forall|i: int|
            0 <= i < u.sub@.len() ==> (#[trigger] u.sub@[i]).from.index < 64 && u.sub@[i].to.index
                < 64),
        in_bucket(feature, len, width) <==> (feature.number + 1) * width <= len,
        board.names_its_men() <==> every_man_named(board),
{
    let n = feature.number as int;
    assert((n + 1) * width == n * width + width) by (nonlinear_arith);
    if u.wf() {
        assert forall|i: int| 0 <= i < u.add@.len() implies (#[trigger] u.add@[i]).from.index < 64
            && u.add@[i].to.index < 64 by {
            assert(u.add@[i].wf());
        }
        assert forall|i: int| 0 <= i < u.sub@.len() implies (#[trigger] u.sub@[i]).from.index < 64
            && u.sub@[i].to.index < 64 by {
            assert(u.sub@[i].wf());
        }
    }
    if board.names_its_men() {
        assert forall|sq: int|
            (board.bbs.colours@[0].has(sq) || board.bbs.colours@[1].has(sq))
                && !board.bbs.pieces@[5].has(
                sq,
            ) implies (#[trigger] board.mailbox@[sq]) is Some by {
            assert(board.bbs.has_man(sq));
        }
    }
}

/// On `board`, `t` is a threat: its attacker and its victim stand on its squares, neither square
/// holds a king, and the attacker attacks the victim, its lines ending at the first piece.
pub open spec fn is_threat(board: Board, t: ThreatFeature) -> bool {
    let (from, to) = (t.from.index as int, t.to.index as int);
    let (white, black) = (board.bbs.colours@[0], board.bbs.colours@[1]);
    &&& from < 64 && to < 64
    &&& (white.has(from) || black.has(from)) && !board.bbs.pieces@[5].has(from)
    &&& (white.has(to) || black.has(to)) && !board.bbs.pieces@[5].has(to)
    &&& board.mailbox@[from] == Some(t.attacker)
    &&& board.mailbox@[to] == Some(t.victim)
    &&& attacks(t.attacker, from, SquareSet { bits: white.bits | black.bits }, to)
}

/// `list` names every threat on `board` once.
pub open spec fn names_threats(list: Seq<ThreatFeature>, board: Board) -> bool {
    &&& forall|i: int, k: int| 0 <= i < k < list.len() ==> #[trigger] list[i] != #[trigger] list[k]
    &&& forall|i: int| 0 <= i < list.len() ==> is_threat(board, #[trigger] list[i])
    &&& forall|t: ThreatFeature| #[trigger]
        is_threat(board, t) ==> exists|i: int| 0 <= i < list.len() && list[i] == t
}

/// The king of `colour` stands on `king`: the lowest square that holds a king of that side.
pub open spec fn king_stands_on(board: Board, colour: Colour, king: Square) -> bool {
    let (kings, side) = (board.bbs.pieces@[5], board.bbs.colours@[colour.place()]);
    &&& kings.has(king.index as int) && side.has(king.index as int)
    &&& forall|i: int| i < king.index ==> !(#[trigger] kings.has(i) && side.has(i))
}

proof fn lemma_king_found(board: Board, colour: Colour, king: Square)
    requires
        king_stands_on(board, colour, king),
    ensures
        board.bbs.has_king(colour),
        board.bbs.king_square(colour) == king.index,
{
    law_king_stands(board, colour, king.index as int);
    let found = board.bbs.king_square(colour);
    if found < king.index {
        assert(!(board.bbs.pieces@[5].has(found) && board.bbs.colours@[colour.place()].has(found)));
    }
}

proof fn lemma_threats_named(list: Seq<ThreatFeature>, board: Board)
    requires
        names_threats(list, board),
        every_man_named(board),
    ensures
        lists_threats(list, board),
{
    assert forall|t: ThreatFeature| is_threat(board, t) <==> stands_on(board, t) by {
        let (from, to) = (t.from.index as int, t.to.index as int);
        if stands_on(board, t) {
            assert(board.bbs.has_man(from) && board.bbs.has_man(to));
            assert(board.bbs.colours@[0].has(from) || board.bbs.colours@[1].has(from));
            assert(board.bbs.colours@[0].has(to) || board.bbs.colours@[1].has(to));
            assert(board.mailbox@[from] is Some);
            assert(board.mailbox@[to] is Some);
        }
    }
    assert forall|t: ThreatFeature| #[trigger] list.contains(t) <==> stands_on(board, t) by {
        assert(is_threat(board, t) <==> stands_on(board, t));
        if list.contains(t) {
            let i = choose|i: int| 0 <= i < list.len() && list[i] == t;
            assert(is_threat(board, list[i]));
        }
    }
    assert(list.no_duplicates()) by {
        assert forall|i: int, k: int|
            0 <= i < list.len() && 0 <= k < list.len() && i != k implies list[i] != list[k] by {
            if i < k {
                assert(list[i] != list[k]);
            } else {
                assert(list[k] != list[i]);
            }
        }
    }
}

/// Where the numbering is symmetric and no square holds two pawns, refreshing from a board gives,
/// on the whole tiles, what updating the zero accumulator gives with every threat on the board and
/// all its pawns, as `colour` sees them with its king where it stands.
pub proof fn law_refresh_counts_the_board<F: FeatureSet>(
    features: &F,
    colour: Colour,
    king: Square,
    board: Board,
    weights: Seq<i8>,
    old_acc: Seq<i16>,
    zeros: Seq<i16>,
    rest: Seq<i16>,
    u: AuxUpdateBuffer,
    j: int,
)
    requires
        0 <= j < old_acc.len() - old_acc.len() as int % (UNROLL as int),
        is_symmetric(features),
        king_stands_on(board, colour, king),
        every_man_named(board),
        forall|sq: int|
            !(#[trigger] board.bbs.colours@[0].has(sq) && board.bbs.colours@[1].has(sq)
                && board.bbs.pieces@[0].has(sq)),
        names_threats(u.add@, board),
        u.sub@.len() == 0,
        forall|i: int| !(#[trigger] u.afore@[0].has(i)) && !u.afore@[1].has(i),
        forall|i: int| #[trigger]
            u.after@[0].has(i) <==> board.bbs.pieces@[0].has(i) && board.bbs.colours@[0].has(i),
        forall|i: int| #[trigger]
            u.after@[1].has(i) <==> board.bbs.pieces@[0].has(i) && board.bbs.colours@[1].has(i),
        zeros.len() == old_acc.len(),
        forall|i: int| 0 <= i < zeros.len() ==> #[trigger] zeros[i] == 0,
    ensures
        refresh_result(features, old_acc, weights, board, colour)[j] == aux_result(
            seat_of(features, colour, king),
            zeros,
            rest,
            weights,
            u,
        )[j],
{
    lemma_king_found(board, colour, king);
    lemma_threats_named(u.add@, board);
    assert forall|side: Colour, sq: int| !#[trigger] pawns_of(u.afore)(side, sq) by {
        assert(!u.afore@[0].has(sq));
    }
    assert forall|side: Colour, sq: int| #[trigger] pawns_of(u.after)(side, sq) == board_pawns(
        board,
    )(side, sq) by {
        assert(u.after@[0].has(sq) <==> board.bbs.pieces@[0].has(sq) && board.bbs.colours@[0].has(
            sq,
        ));
        assert(u.after@[1].has(sq) <==> board.bbs.pieces@[0].has(sq) && board.bbs.colours@[1].has(
            sq,
        ));
    }
    assert(builds(u, board));
    assert(is_disjoint(board_pawns(board))) by {
        let pawns = board_pawns(board);
        assert forall|sq: int| #![trigger pawns(Colour::White, sq)]
            !(pawns(Colour::White, sq) && pawns(Colour::Black, sq)) by {
            assert(!(board.bbs.colours@[0].has(sq) && board.bbs.colours@[1].has(sq)
                && board.bbs.pieces@[0].has(sq)));
        }
    }
    law_refresh_is_update_of_zero(features, colour, board, u, weights, old_acc, zeros, rest);
    assert(seat_on(features, colour, board) == seat_of(features, colour, king));
    let end = tiled(zeros.len() as int);
    let refreshed = refresh_result(features, old_acc, weights, board, colour);
    let updated = aux_result(seat_of(features, colour, king), zeros, rest, weights, u);
    assert(refreshed.take(end)[j] == updated.take(end)[j]);
}

/// Whatever the numbering, a refresh adds to the whole tiles the threats on the board and the pairs
/// of its pawns, as `colour` sees them with its king where it stands.
pub proof fn law_refresh_is_threats_and_pairs<F: FeatureSet>(
    features: &F,
    colour: Colour,
    king: Square,
    board: Board,
    weights: Seq<i8>,
    old_acc: Seq<i16>,
    zeros: Seq<i16>,
    rest: Seq<i16>,
    u: AuxUpdateBuffer,
    j: int,
)
    requires
        0 <= j < old_acc.len() - old_acc.len() as int % (UNROLL as int),
        king_stands_on(board, colour, king),
        every_man_named(board),
        names_threats(u.add@, board),
        u.sub@.len() == 0,
        u.afore == u.after,
        zeros.len() == old_acc.len(),
        forall|i: int| 0 <= i < zeros.len() ==> #[trigger] zeros[i] == 0,
    ensures
        refresh_result(features, old_acc, weights, board, colour)[j] == aux_result(
            seat_of(features, colour, king),
            zeros,
            rest,
            weights,
            u,
        )[j].wrapping_add(
            wrap_i16(
                pawn_pair_sum(
                    Seat { features: *features, colour, king: king.index as int },
                    |side: Colour, sq: int|
                        board.bbs.pieces@[0].has(sq) && board.bbs.colours@[side.place()].has(sq),
                    |n: int| weights[n * old_acc.len() + j] as int,
                ),
            ),
        ),
{
    let width = old_acc.len() as int;
    let seat = seat_of(features, colour, king);
    let weight = lane_weight(weights, width, j);
    lemma_king_found(board, colour, king);
    lemma_threats_named(u.add@, board);
    law_listed_is_board(seat, u.add@, board, weight);
    let same = pawns_of(u.after);
    lemma_none_fresh(seat, same, same, weight);
    assert(listed_threat_sum(seat, u.sub@, weight) == 0);
    let raw_pawns = |side: Colour, sq: int|
        board.bbs.pieces@[0].has(sq) && board.bbs.colours@[side.place()].has(sq);
    assert(raw_pawns =~= board_pawns(board));
    let raw_weight = |n: int| weights[n * old_acc.len() + j] as int;
    assert(raw_weight =~= weight);
    let threats = board_threat_sum(seat, board, weight);
    let pairs = pawn_pair_sum(seat, board_pawns(board), weight);
    assert(board_sum(features, colour, board, weight) == threats + pairs);
    law_wrap(threats, wrap_i16(pairs));
    lemma_wrap_absorbs(pairs, threats);
}

/// A refresh does not reach the lanes behind the whole tiles.
pub proof fn law_refresh_bounds<F: FeatureSet>(
    features: &F,
    colour: Colour,
    board: Board,
    weights: Seq<i8>,
    old_acc: Seq<i16>,
    j: int,
)
    requires
        0 <= j < old_acc.len(),
    ensures
        refresh_result(features, old_acc, weights, board, colour).len() == old_acc.len(),
        j >= old_acc.len() - old_acc.len() as int % (UNROLL as int) ==> refresh_result(
            features,
            old_acc,
            weights,
            board,
            colour,
        )[j] == old_acc[j],
{
}

} // verus!
