//! The offsets in the buffers give the sums over features.

use crate::board::{Board, Colour, Piece};
use crate::features::{
    board_pawns, board_threat_sum, cross_pair_sum, fresh_pair_sum, fresh_pair_term, fresh_side_sum,
    is_fresh, listed_term, listed_threat_sum, pair_term, pawn_pair_sum, same_side_pair_sum,
    threat_term, threatens, FeatureSet, Pawns, Seat, ThreatFeature,
};
use crate::indexes::{
    board_list, cross_partners, fresh_lists, fresh_pair_list, fresh_partners, lemma_offset_fits,
    listed_threats_from, offset_at, our_pair_lists, pair_lists, same_side_partners, table_fits,
    their_pair_lists, threat_list, threat_row, threat_rows,
};

use crate::sums::{
    lemma_list_sum, lemma_pairs_add, lemma_sum_add, lemma_sum_concat, lemma_sum_zero, list_from,
    list_squares, sum_of, sum_squares,
};
use vstd::prelude::*;

verus! {

/// The weight that `by_offset` gives to the offset of a feature is the one that `weight` gives
/// to the feature.
pub open spec fn agrees<F: FeatureSet>(
    features: &F,
    width: int,
    weight: spec_fn(int) -> int,
    by_offset: spec_fn(u32) -> int,
) -> bool {
    forall|feature: int|
        0 <= feature < features.aux_count() ==> by_offset(#[trigger] offset_at(feature, width))
            == weight(feature)
}

/// The lanes of every offset in `list` end at or before `end`.
pub open spec fn within(list: Seq<u32>, width: int, end: int) -> bool {
    forall|i: int| 0 <= i < list.len() ==> (#[trigger] list[i]) + width <= end
}

/// A single offset gives its weight.
proof fn lemma_single<F: FeatureSet>(
    features: &F,
    width: int,
    weight: spec_fn(int) -> int,
    by_offset: spec_fn(u32) -> int,
    feature: int,
)
    requires
        0 <= width,
        table_fits(features, width),
        agrees(features, width, weight, by_offset),
        0 <= feature < features.aux_count(),
    ensures
        sum_of(seq![offset_at(feature, width)], by_offset) == weight(feature),
        within(seq![offset_at(feature, width)], width, features.aux_count() * width),
{
    lemma_offset_fits(features, feature, width);
    let list = seq![offset_at(feature, width)];
    assert(list.drop_last() =~= Seq::<u32>::empty());
    assert(sum_of(list.drop_last(), by_offset) == 0);
}

proof fn lemma_list_within(lists: spec_fn(int) -> Seq<u32>, i: int, width: int, end: int)
    requires
        0 <= i <= 64,
        forall|t: int| i <= t < 64 ==> within(#[trigger] lists(t), width, end),
    ensures
        within(list_from(lists, i), width, end),
    decreases 64 - i,
{
    if i < 64 {
        lemma_list_within(lists, i + 1, width, end);
    }
}

/// A threat.
proof fn lemma_threat_list<F: FeatureSet>(
    seat: Seat<F>,
    width: int,
    weight: spec_fn(int) -> int,
    by_offset: spec_fn(u32) -> int,
    attacker: Piece,
    victim: Piece,
    from: int,
    to: int,
)
    requires
        0 <= width,
        table_fits(&seat.features, width),
        agrees(&seat.features, width, weight, by_offset),
        0 <= seat.king < 64,
        0 <= from < 64,
        0 <= to < 64,
    ensures
        sum_of(
            threat_list(seat, attacker, victim, from, to, width),
            by_offset,
        ) == threat_term(seat, attacker, victim, from, to, weight),
        within(
            threat_list(seat, attacker, victim, from, to, width),
            width,
            seat.features.aux_count() * width,
        ),
{
    let (good, number) = seat.features.threat(seat.colour, seat.king, attacker, victim, from, to);
    if good {
        seat.features.threat_in_range(seat.colour, seat.king, attacker, victim, from, to);
        let feature = seat.features.pawn_tuple_count() + number;
        lemma_single(&seat.features, width, weight, by_offset, feature);
    }
}

/// Listed threats.
pub proof fn lemma_listed_threats<F: FeatureSet>(
    seat: Seat<F>,
    width: int,
    weight: spec_fn(int) -> int,
    by_offset: spec_fn(u32) -> int,
    threats: Seq<ThreatFeature>,
    i: int,
)
    requires
        0 <= width,
        table_fits(&seat.features, width),
        agrees(&seat.features, width, weight, by_offset),
        0 <= seat.king < 64,
        forall|j: int| 0 <= j < threats.len() ==> (#[trigger] threats[j]).wf(),
        0 <= i <= threats.len(),
    ensures
        sum_of(listed_threats_from(seat, threats, width, i), by_offset)
            == listed_threat_sum(seat, threats.skip(i), weight),
        within(
            listed_threats_from(seat, threats, width, i),
            width,
            seat.features.aux_count() * width,
        ),
    decreases threats.len() - i,
{
    if i < threats.len() {
        let t = threats[i];
        assert(t.wf());
        lemma_listed_threats(seat, width, weight, by_offset, threats, i + 1);
        lemma_threat_list(
            seat,
            width,
            weight,
            by_offset,
            t.attacker,
            t.victim,
            t.from.index as int,
            t.to.index as int,
        );
        lemma_sum_concat(
            threat_list(seat, t.attacker, t.victim, t.from.index as int, t.to.index as int, width),
            listed_threats_from(seat, threats, width, i + 1),
            by_offset,
        );
        let term = listed_term(seat, weight);
        assert(threats.skip(i) =~= seq![t] + threats.skip(i + 1));
        lemma_sum_concat(seq![t], threats.skip(i + 1), term);
        assert(seq![t].drop_last() =~= Seq::<ThreatFeature>::empty());
        assert(sum_of(seq![t].drop_last(), term) == 0);
        assert(sum_of(seq![t], term) == term(t));
    } else {
        assert(threats.skip(i) =~= Seq::<ThreatFeature>::empty());
    }
}

/// The pairs of one pawn.
proof fn lemma_pair_lists<F: FeatureSet>(
    seat: Seat<F>,
    width: int,
    weight: spec_fn(int) -> int,
    by_offset: spec_fn(u32) -> int,
    a_colour: Colour,
    a: int,
    b_colour: Colour,
    set: spec_fn(int) -> bool,
    term: spec_fn(int) -> int,
)
    requires
        0 <= width,
        table_fits(&seat.features, width),
        agrees(&seat.features, width, weight, by_offset),
        0 <= seat.king < 64,
        0 <= a < 64,
        forall|b: int|
            0 <= b < 64 ==> #[trigger] term(b) == if set(b) {
                weight(seat.pair(a_colour, a, b_colour, b))
            } else {
                0
            },
    ensures
        sum_of(
            list_squares(pair_lists(seat, a_colour, a, b_colour, set, width)),
            by_offset,
        ) == sum_squares(term),
        within(
            list_squares(pair_lists(seat, a_colour, a, b_colour, set, width)),
            width,
            seat.features.aux_count() * width,
        ),
{
    let lists = pair_lists(seat, a_colour, a, b_colour, set, width);
    let end = seat.features.aux_count() * width;
    assert forall|b: int| 0 <= b < 64 implies sum_of(#[trigger] lists(b), by_offset) == term(b)
        && within(lists(b), width, end) by {
        if set(b) {
            seat.features.counts_fit();
            seat.features.pawn_pair_in_range(seat.colour, seat.king, a_colour, a, b_colour, b);
            lemma_single(
                &seat.features,
                width,
                weight,
                by_offset,
                seat.pair(a_colour, a, b_colour, b),
            );
        }
    }
    lemma_list_sum(lists, by_offset, term, 0);
    lemma_list_within(lists, 0, width, end);
}

/// The pairs with a fresh pawn of one side.
proof fn lemma_fresh_side<F: FeatureSet>(
    seat: Seat<F>,
    width: int,
    weight: spec_fn(int) -> int,
    by_offset: spec_fn(u32) -> int,
    now: Pawns,
    before: Pawns,
    side: Colour,
)
    requires
        0 <= width,
        table_fits(&seat.features, width),
        agrees(&seat.features, width, weight, by_offset),
        0 <= seat.king < 64,
    ensures
        sum_of(
            list_squares(fresh_lists(seat, now, before, side, width)),
            by_offset,
        ) == fresh_side_sum(seat, now, before, side, weight),
        within(
            list_squares(fresh_lists(seat, now, before, side, width)),
            width,
            seat.features.aux_count() * width,
        ),
{
    let lists = fresh_lists(seat, now, before, side, width);
    let end = seat.features.aux_count() * width;
    let pair = |a: int, b: int|
        fresh_pair_term(seat, now, before, side, a, Colour::White, b, weight)
            + fresh_pair_term(
            seat,
            now,
            before,
            side,
            a,
            Colour::Black,
            b,
            weight,
        );
    let rows = |a: int| sum_squares(|b: int| pair(a, b));
    assert forall|a: int| 0 <= a < 64 implies sum_of(#[trigger] lists(a), by_offset) == rows(a)
        && within(lists(a), width, end) by {
        let row = |b: int| pair(a, b);
        if is_fresh(now, before, side, a) {
            let white = |b: int|
                fresh_pair_term(seat, now, before, side, a, Colour::White, b, weight);
            let black = |b: int|
                fresh_pair_term(seat, now, before, side, a, Colour::Black, b, weight);
            let whites = fresh_partners(seat, now, before, side, a, Colour::White);
            let blacks = fresh_partners(seat, now, before, side, a, Colour::Black);
            lemma_pair_lists(seat, width, weight, by_offset, side, a, Colour::White, whites, white);
            lemma_pair_lists(seat, width, weight, by_offset, side, a, Colour::Black, blacks, black);
            lemma_sum_add(white, black, row, 0);
            lemma_sum_concat(
                list_squares(pair_lists(seat, side, a, Colour::White, whites, width)),
                list_squares(pair_lists(seat, side, a, Colour::Black, blacks, width)),
                by_offset,
            );
        } else {
            lemma_sum_zero(row, 0);
        }
    }
    lemma_list_sum(lists, by_offset, rows, 0);
    lemma_list_within(lists, 0, width, end);
}

/// The pairs with a fresh pawn.
pub proof fn lemma_fresh_pairs<F: FeatureSet>(
    seat: Seat<F>,
    width: int,
    weight: spec_fn(int) -> int,
    by_offset: spec_fn(u32) -> int,
    now: Pawns,
    before: Pawns,
)
    requires
        0 <= width,
        table_fits(&seat.features, width),
        agrees(&seat.features, width, weight, by_offset),
        0 <= seat.king < 64,
    ensures
        sum_of(fresh_pair_list(seat, now, before, width), by_offset)
            == fresh_pair_sum(seat, now, before, weight),
        within(fresh_pair_list(seat, now, before, width), width, seat.features.aux_count() * width),
{
    lemma_fresh_side(seat, width, weight, by_offset, now, before, Colour::White);
    lemma_fresh_side(seat, width, weight, by_offset, now, before, Colour::Black);
    lemma_sum_concat(
        list_squares(fresh_lists(seat, now, before, Colour::White, width)),
        list_squares(fresh_lists(seat, now, before, Colour::Black, width)),
        by_offset,
    );
}

/// The threats on a board.
proof fn lemma_board_threats<F: FeatureSet>(
    seat: Seat<F>,
    width: int,
    weight: spec_fn(int) -> int,
    by_offset: spec_fn(u32) -> int,
    board: Board,
)
    requires
        0 <= width,
        table_fits(&seat.features, width),
        agrees(&seat.features, width, weight, by_offset),
        0 <= seat.king < 64,
    ensures
        sum_of(list_squares(threat_rows(seat, board, width)), by_offset)
            == board_threat_sum(seat, board, weight),
        within(
            list_squares(threat_rows(seat, board, width)),
            width,
            seat.features.aux_count() * width,
        ),
{
    let lists = threat_rows(seat, board, width);
    let end = seat.features.aux_count() * width;
    let pair = |from: int, to: int|
        if threatens(board, from, to) {
            threat_term(seat, board.piece_at(from), board.piece_at(to), from, to, weight)
        } else {
            0
        };
    let rows = |from: int| sum_squares(|to: int| pair(from, to));
    assert forall|from: int| 0 <= from < 64 implies sum_of(#[trigger] lists(from), by_offset)
        == rows(from) && within(lists(from), width, end) by {
        let row = |to: int| pair(from, to);
        if board.bbs.has_man(from) {
            let inner = threat_row(seat, board, from, width);
            assert forall|to: int| 0 <= to < 64 implies sum_of(#[trigger] inner(to), by_offset)
                == row(to) && within(inner(to), width, end) by {
                if threatens(board, from, to) {
                    lemma_threat_list(
                        seat,
                        width,
                        weight,
                        by_offset,
                        board.piece_at(from),
                        board.piece_at(to),
                        from,
                        to,
                    );
                }
            }
            lemma_list_sum(inner, by_offset, row, 0);
            lemma_list_within(inner, 0, width, end);
        } else {
            lemma_sum_zero(row, 0);
        }
    }
    lemma_list_sum(lists, by_offset, rows, 0);
    lemma_list_within(lists, 0, width, end);
}

/// The pairs with a pawn of the side that looks.
proof fn lemma_our_pairs<F: FeatureSet>(
    seat: Seat<F>,
    width: int,
    weight: spec_fn(int) -> int,
    by_offset: spec_fn(u32) -> int,
    pawns: Pawns,
)
    requires
        0 <= width,
        table_fits(&seat.features, width),
        agrees(&seat.features, width, weight, by_offset),
        0 <= seat.king < 64,
    ensures
        sum_of(list_squares(our_pair_lists(seat, pawns, width)), by_offset)
            == same_side_pair_sum(seat, pawns, seat.colour, weight) + cross_pair_sum(
            seat,
            pawns,
            weight,
        ),
        within(
            list_squares(our_pair_lists(seat, pawns, width)),
            width,
            seat.features.aux_count() * width,
        ),
{
    let lists = our_pair_lists(seat, pawns, width);
    let end = seat.features.aux_count() * width;
    let other = seat.colour.other();
    let same = |a: int, b: int|
        if a < b && pawns(seat.colour, a) && pawns(seat.colour, b) {
            pair_term(seat, seat.colour, a, seat.colour, b, weight)
        } else {
            0
        };
    let cross = |a: int, b: int|
        if pawns(seat.colour, a) && pawns(seat.colour.other(), b) {
            pair_term(seat, seat.colour, a, seat.colour.other(), b, weight)
        } else {
            0
        };
    let both = |a: int, b: int| same(a, b) + cross(a, b);
    let rows = |a: int| sum_squares(|b: int| both(a, b));
    assert forall|a: int| 0 <= a < 64 implies sum_of(#[trigger] lists(a), by_offset) == rows(a)
        && within(lists(a), width, end) by {
        let row = |b: int| both(a, b);
        if pawns(seat.colour, a) {
            let first = |b: int| same(a, b);
            let second = |b: int| cross(a, b);
            let partners = same_side_partners(seat, pawns, seat.colour, a);
            let opponents = cross_partners(seat, pawns, seat.colour, a);
            lemma_pair_lists(
                seat,
                width,
                weight,
                by_offset,
                seat.colour,
                a,
                seat.colour,
                partners,
                first,
            );
            lemma_pair_lists(
                seat,
                width,
                weight,
                by_offset,
                seat.colour,
                a,
                other,
                opponents,
                second,
            );
            lemma_sum_add(first, second, row, 0);
            lemma_sum_concat(
                list_squares(pair_lists(seat, seat.colour, a, seat.colour, partners, width)),
                list_squares(pair_lists(seat, seat.colour, a, other, opponents, width)),
                by_offset,
            );
        } else {
            lemma_sum_zero(row, 0);
        }
    }
    lemma_list_sum(lists, by_offset, rows, 0);
    lemma_list_within(lists, 0, width, end);
    lemma_pairs_add(same, cross, both);
}

/// The pairs of two pawns of the side that does not look.
proof fn lemma_their_pairs<F: FeatureSet>(
    seat: Seat<F>,
    width: int,
    weight: spec_fn(int) -> int,
    by_offset: spec_fn(u32) -> int,
    pawns: Pawns,
)
    requires
        0 <= width,
        table_fits(&seat.features, width),
        agrees(&seat.features, width, weight, by_offset),
        0 <= seat.king < 64,
    ensures
        sum_of(list_squares(their_pair_lists(seat, pawns, width)), by_offset)
            == same_side_pair_sum(seat, pawns, seat.colour.other(), weight),
        within(
            list_squares(their_pair_lists(seat, pawns, width)),
            width,
            seat.features.aux_count() * width,
        ),
{
    let lists = their_pair_lists(seat, pawns, width);
    let end = seat.features.aux_count() * width;
    let side = seat.colour.other();
    let same = |a: int, b: int|
        if a < b && pawns(side, a) && pawns(side, b) {
            pair_term(seat, side, a, side, b, weight)
        } else {
            0
        };
    let rows = |a: int| sum_squares(|b: int| same(a, b));
    assert forall|a: int| 0 <= a < 64 implies sum_of(#[trigger] lists(a), by_offset) == rows(a)
        && within(lists(a), width, end) by {
        let row = |b: int| same(a, b);
        if pawns(side, a) {
            let partners = same_side_partners(seat, pawns, side, a);
            lemma_pair_lists(seat, width, weight, by_offset, side, a, side, partners, row);
        } else {
            lemma_sum_zero(row, 0);
        }
    }
    lemma_list_sum(lists, by_offset, rows, 0);
    lemma_list_within(lists, 0, width, end);
}

/// The auxiliary features of a board.
pub proof fn lemma_board<F: FeatureSet>(
    seat: Seat<F>,
    width: int,
    weight: spec_fn(int) -> int,
    by_offset: spec_fn(u32) -> int,
    board: Board,
)
    requires
        0 <= width,
        table_fits(&seat.features, width),
        agrees(&seat.features, width, weight, by_offset),
        0 <= seat.king < 64,
    ensures
        sum_of(board_list(seat, board, width), by_offset) == board_threat_sum(
            seat,
            board,
            weight,
        ) + pawn_pair_sum(seat, board_pawns(board), weight),
        within(board_list(seat, board, width), width, seat.features.aux_count() * width),
{
    let pawns = board_pawns(board);
    lemma_board_threats(seat, width, weight, by_offset, board);
    lemma_our_pairs(seat, width, weight, by_offset, pawns);
    lemma_their_pairs(seat, width, weight, by_offset, pawns);
    let threats = list_squares(threat_rows(seat, board, width));
    let ours = list_squares(our_pair_lists(seat, pawns, width));
    let theirs = list_squares(their_pair_lists(seat, pawns, width));
    lemma_sum_concat(threats + ours, theirs, by_offset);
    lemma_sum_concat(threats, ours, by_offset);
}

} // verus!
