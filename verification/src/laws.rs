//! What holds of the accumulator operations taken together.

use crate::accumulator::{aux_result, lanes_result, psqt_result, refresh_result, tiled};
use crate::board::{Board, Colour, Piece};
use crate::features::{
    added_sum, board_pawns, board_sum, board_threat_sum, fresh_pair_sum, fresh_pair_term, is_fresh,
    is_symmetric, lane_weight, listed_term, listed_threat_sum, pair_term, pawn_pair_sum, pawns_of,
    psqt_weight, removed_sum, same_side_pair_sum, seat_on, threat_term, threatens, AuxUpdateBuffer,
    FeatureSet, Pawns, PsqtFeatureIndex, Seat, ThreatFeature,
};
use crate::squares::Square;
use crate::sums::{
    lemma_pairs_add, lemma_pairs_fold, lemma_pairs_same, lemma_pairs_zero, lemma_sum_concat,
    lemma_sum_push, lemma_sum_zero, lemma_wrap_absorbs, lemma_wrap_fits, sum_from, sum_of,
    sum_pairs, sum_squares, wrap_i16,
};
use vstd::prelude::*;

verus! {

/// No square holds pawns of both sides.
pub open spec fn is_disjoint(pawns: Pawns) -> bool {
    forall|sq: int| #![trigger pawns(Colour::White, sq)]
        !(pawns(Colour::White, sq) && pawns(Colour::Black, sq))
}

/// What the pawns of two given sides on `a` and `b` add to the sum.
spec fn side_term<F: FeatureSet>(
    seat: Seat<F>,
    pawns: Pawns,
    a_colour: Colour,
    a: int,
    b_colour: Colour,
    b: int,
    weight: spec_fn(int) -> int,
) -> int {
    if pawns(a_colour, a) && pawns(b_colour, b) {
        pair_term(seat, a_colour, a, b_colour, b, weight)
    } else {
        0
    }
}

/// What the pawns on `a` and `b`, of whichever side, add to the sum.
spec fn square_term<F: FeatureSet>(
    seat: Seat<F>,
    pawns: Pawns,
    a: int,
    b: int,
    weight: spec_fn(int) -> int,
) -> int {
    let (w, x) = (Colour::White, Colour::Black);
    side_term(seat, pawns, w, a, w, b, weight) + side_term(
        seat,
        pawns,
        w,
        a,
        x,
        b,
        weight,
    ) + side_term(seat, pawns, x, a, w, b, weight) + side_term(seat, pawns, x, a, x, b, weight)
}

/// A pawn on `sq` is in `now` and not in `before`.
spec fn fresh_square(now: Pawns, before: Pawns, sq: int) -> bool {
    is_fresh(now, before, Colour::White, sq) || is_fresh(now, before, Colour::Black, sq)
}

/// What the pairs with the fresh pawn on `a` and the pawn on `b` add to the sum.
spec fn fresh_term<F: FeatureSet>(
    seat: Seat<F>,
    now: Pawns,
    before: Pawns,
    side: Colour,
    a: int,
    b: int,
    weight: spec_fn(int) -> int,
) -> int {
    fresh_pair_term(seat, now, before, side, a, Colour::White, b, weight)
        + fresh_pair_term(seat, now, before, side, a, Colour::Black, b, weight)
}

/// What the pawns on `a` and `b` add to the sum where neither is fresh.
spec fn kept_term<F: FeatureSet>(
    seat: Seat<F>,
    now: Pawns,
    before: Pawns,
    a: int,
    b: int,
    weight: spec_fn(int) -> int,
) -> int {
    if fresh_square(now, before, a) || fresh_square(now, before, b) {
        0
    } else {
        square_term(seat, now, a, b, weight)
    }
}

/// A symmetric numbering gives a pair the same weight whichever pawn is named first.
proof fn lemma_pair_term_symmetric<F: FeatureSet>(
    seat: Seat<F>,
    a_colour: Colour,
    a: int,
    b_colour: Colour,
    b: int,
    weight: spec_fn(int) -> int,
)
    requires
        is_symmetric(&seat.features),
        0 <= seat.king < 64,
        0 <= a < 64,
        0 <= b < 64,
    ensures
        pair_term(seat, a_colour, a, b_colour, b, weight) == pair_term(
            seat,
            b_colour,
            b,
            a_colour,
            a,
            weight,
        ),
{
    assert(seat.forms_pair(a, b) == seat.forms_pair(b, a));
    assert(seat.pair(a_colour, a, b_colour, b) == seat.pair(b_colour, b, a_colour, a));
}

/// The sum over all pairs of pawns is the sum over pairs of squares, the lower first.
proof fn lemma_pawn_pair_sum<F: FeatureSet>(
    seat: Seat<F>,
    pawns: Pawns,
    weight: spec_fn(int) -> int,
)
    requires
        is_symmetric(&seat.features),
        is_disjoint(pawns),
        0 <= seat.king < 64,
    ensures
        pawn_pair_sum(seat, pawns, weight) == sum_pairs(
            |a: int, b: int|
                if a < b {
                    square_term(seat, pawns, a, b, weight)
                } else {
                    0
                },
        ),
{
    let other = seat.colour.other();
    let ours = |a: int, b: int|
        if a < b && pawns(seat.colour, a) && pawns(seat.colour, b) {
            pair_term(seat, seat.colour, a, seat.colour, b, weight)
        } else {
            0
        };
    let theirs = |a: int, b: int|
        if a < b && pawns(other, a) && pawns(other, b) {
            pair_term(seat, other, a, other, b, weight)
        } else {
            0
        };
    let cross = |a: int, b: int|
        if pawns(seat.colour, a) && pawns(seat.colour.other(), b) {
            pair_term(seat, seat.colour, a, seat.colour.other(), b, weight)
        } else {
            0
        };
    let folded = |a: int, b: int|
        if a < b {
            cross(a, b) + cross(b, a)
        } else {
            0
        };
    let squares = |a: int, b: int|
        if a < b {
            square_term(seat, pawns, a, b, weight)
        } else {
            0
        };
    assert forall|a: int| 0 <= a < 64 implies #[trigger] cross(a, a) == 0 by {
        assert(!(pawns(Colour::White, a) && pawns(Colour::Black, a)));
    }
    lemma_pairs_fold(cross, folded);
    let own = |a: int, b: int| ours(a, b) + folded(a, b);
    lemma_pairs_add(ours, folded, own);
    assert forall|a: int, b: int| 0 <= a < 64 && 0 <= b < 64 implies #[trigger] squares(a, b)
        == own(a, b) + theirs(a, b) by {
        if a < b {
            lemma_pair_term_symmetric(seat, seat.colour, b, other, a, weight);
        }
    }
    lemma_pairs_add(own, theirs, squares);
}

/// Of two squares, the pairs with a fresh pawn are found from one square or from the other, once.
proof fn lemma_fresh_once<F: FeatureSet>(
    seat: Seat<F>,
    now: Pawns,
    before: Pawns,
    a: int,
    b: int,
    weight: spec_fn(int) -> int,
)
    requires
        is_symmetric(&seat.features),
        is_disjoint(now),
        0 <= seat.king < 64,
        0 <= a < 64,
        0 <= b < 64,
        a < b,
    ensures
        square_term(seat, now, a, b, weight) == kept_term(
            seat,
            now,
            before,
            a,
            b,
            weight,
        ) + fresh_term(seat, now, before, Colour::White, a, b, weight)
            + fresh_term(seat, now, before, Colour::Black, a, b, weight)
            + fresh_term(seat, now, before, Colour::White, b, a, weight)
            + fresh_term(seat, now, before, Colour::Black, b, a, weight),
{
    let (w, x) = (Colour::White, Colour::Black);
    lemma_pair_term_symmetric(seat, w, a, w, b, weight);
    lemma_pair_term_symmetric(seat, w, a, x, b, weight);
    lemma_pair_term_symmetric(seat, x, a, w, b, weight);
    lemma_pair_term_symmetric(seat, x, a, x, b, weight);
    assert(!(now(w, a) && now(x, a)));
    assert(!(now(w, b) && now(x, b)));
}

/// The sum over all pairs is the sum over the pairs with a fresh pawn and those without.
proof fn lemma_fresh_split<F: FeatureSet>(
    seat: Seat<F>,
    now: Pawns,
    before: Pawns,
    weight: spec_fn(int) -> int,
)
    requires
        is_symmetric(&seat.features),
        is_disjoint(now),
        0 <= seat.king < 64,
    ensures
        pawn_pair_sum(seat, now, weight) == fresh_pair_sum(seat, now, before, weight) + sum_pairs(
            |a: int, b: int|
                if a < b {
                    kept_term(seat, now, before, a, b, weight)
                } else {
                    0
                },
        ),
{
    lemma_pawn_pair_sum(seat, now, weight);
    let white = |a: int, b: int|
        fresh_pair_term(
            seat,
            now,
            before,
            Colour::White,
            a,
            Colour::White,
            b,
            weight,
        ) + fresh_pair_term(seat, now, before, Colour::White, a, Colour::Black, b, weight);
    let black = |a: int, b: int|
        fresh_pair_term(
            seat,
            now,
            before,
            Colour::Black,
            a,
            Colour::White,
            b,
            weight,
        ) + fresh_pair_term(seat, now, before, Colour::Black, a, Colour::Black, b, weight);
    let fresh = |a: int, b: int| white(a, b) + black(a, b);
    let folded = |a: int, b: int|
        if a < b {
            fresh(a, b) + fresh(b, a)
        } else {
            0
        };
    let kept = |a: int, b: int|
        if a < b {
            kept_term(seat, now, before, a, b, weight)
        } else {
            0
        };
    let squares = |a: int, b: int|
        if a < b {
            square_term(seat, now, a, b, weight)
        } else {
            0
        };
    lemma_pairs_add(white, black, fresh);
    assert forall|a: int| 0 <= a < 64 implies #[trigger] fresh(a, a) == 0 by {}
    lemma_pairs_fold(fresh, folded);
    assert forall|a: int, b: int| 0 <= a < 64 && 0 <= b < 64 implies #[trigger] squares(a, b)
        == folded(a, b) + kept(a, b) by {
        if a < b {
            lemma_fresh_once(seat, now, before, a, b, weight);
        }
    }
    lemma_pairs_add(folded, kept, squares);
}

/// Where the numbering is symmetric, the pairs that an update of the pawns removes and adds lead
/// from all pairs of the pawns before to all pairs of the pawns after.
pub proof fn law_pawn_pairs_follow<F: FeatureSet>(
    seat: Seat<F>,
    afore: Pawns,
    after: Pawns,
    weight: spec_fn(int) -> int,
)
    requires
        is_symmetric(&seat.features),
        is_disjoint(afore),
        is_disjoint(after),
        0 <= seat.king < 64,
    ensures
        pawn_pair_sum(seat, after, weight) == pawn_pair_sum(
            seat,
            afore,
            weight,
        ) - fresh_pair_sum(seat, afore, after, weight) + fresh_pair_sum(seat, after, afore, weight),
{
    lemma_fresh_split(seat, after, afore, weight);
    lemma_fresh_split(seat, afore, after, weight);
    let kept_after = |a: int, b: int|
        if a < b {
            kept_term(seat, after, afore, a, b, weight)
        } else {
            0
        };
    let kept_afore = |a: int, b: int|
        if a < b {
            kept_term(seat, afore, after, a, b, weight)
        } else {
            0
        };
    assert forall|a: int, b: int| 0 <= a < 64 && 0 <= b < 64 implies #[trigger] kept_after(a, b)
        == kept_afore(a, b) by {
        assert(!(after(Colour::White, a) && after(Colour::Black, a)));
        assert(!(after(Colour::White, b) && after(Colour::Black, b)));
        assert(!(afore(Colour::White, a) && afore(Colour::Black, a)));
        assert(!(afore(Colour::White, b) && afore(Colour::Black, b)));
    }
    lemma_pairs_same(kept_after, kept_afore);
}

/// `threat` stands on `board`.
pub open spec fn stands_on(board: Board, threat: ThreatFeature) -> bool {
    let (from, to) = (threat.from.index as int, threat.to.index as int);
    &&& threat.wf()
    &&& threatens(board, from, to)
    &&& threat.attacker == board.piece_at(from)
    &&& threat.victim == board.piece_at(to)
}

/// `threats` lists, once each, the threats that stand on `now` and not on `before`.
pub open spec fn lists_fresh_threats(
    threats: Seq<ThreatFeature>,
    now: Board,
    before: Board,
) -> bool {
    &&& threats.no_duplicates()
    &&& forall|t: ThreatFeature| #[trigger]
        threats.contains(t) <==> stands_on(now, t) && !stands_on(before, t)
}

/// What the listed threats between `a` and `b` add to the sum of `weight`.
spec fn cell_sum(
    threats: Seq<ThreatFeature>,
    a: int,
    b: int,
    weight: spec_fn(ThreatFeature) -> int,
) -> int
    decreases threats.len(),
{
    if threats.len() == 0 {
        0
    } else {
        let t = threats.last();
        cell_sum(threats.drop_last(), a, b, weight) + if t.from.index == a && t.to.index == b {
            weight(t)
        } else {
            0
        }
    }
}

/// The sum of a value that one square has alone.
pub(crate) proof fn lemma_point(f: spec_fn(int) -> int, x: int, i: int)
    requires
        0 <= i <= x < 64,
        forall|t: int| i <= t < 64 && t != x ==> #[trigger] f(t) == 0,
    ensures
        sum_from(f, i) == f(x),
    decreases 64 - i,
{
    if i == x {
        lemma_sum_zero(f, i + 1);
    } else {
        lemma_point(f, x, i + 1);
    }
}

/// Listed threats may be summed square by square.
proof fn lemma_cells(threats: Seq<ThreatFeature>, weight: spec_fn(ThreatFeature) -> int)
    requires
        forall|i: int| 0 <= i < threats.len() ==> (#[trigger] threats[i]).wf(),
    ensures
        sum_of(threats, weight) == sum_pairs(|a: int, b: int| cell_sum(threats, a, b, weight)),
    decreases threats.len(),
{
    let cells = |a: int, b: int| cell_sum(threats, a, b, weight);
    if threats.len() == 0 {
        lemma_pairs_zero(cells);
    } else {
        let (init, t) = (threats.drop_last(), threats.last());
        assert(threats[threats.len() - 1].wf());
        assert forall|i: int| 0 <= i < init.len() implies (#[trigger] init[i]).wf() by {
            assert(threats[i].wf());
        }
        lemma_cells(init, weight);
        let (x, y) = (t.from.index as int, t.to.index as int);
        let shorter = |a: int, b: int| cell_sum(init, a, b, weight);
        let point = |a: int, b: int|
            if a == x && b == y {
                weight(t)
            } else {
                0
            };
        let rows = |a: int| sum_squares(|b: int| point(a, b));
        assert forall|a: int| 0 <= a < 64 && a != x implies #[trigger] rows(a) == 0 by {
            lemma_sum_zero(|b: int| point(a, b), 0);
        }
        lemma_point(|b: int| point(x, b), y, 0);
        lemma_point(rows, x, 0);
        lemma_pairs_add(shorter, point, cells);
    }
}

/// Squares between which no threat is listed add nothing.
proof fn lemma_cell_empty(
    threats: Seq<ThreatFeature>,
    a: int,
    b: int,
    weight: spec_fn(ThreatFeature) -> int,
)
    requires
        forall|i: int|
            0 <= i < threats.len() ==> !((#[trigger] threats[i]).from.index == a
                && threats[i].to.index == b),
    ensures
        cell_sum(threats, a, b, weight) == 0,
    decreases threats.len(),
{
    if threats.len() > 0 {
        let init = threats.drop_last();
        assert(threats.last() == threats[threats.len() - 1]);
        assert forall|i: int| 0 <= i < init.len() implies !((#[trigger] init[i]).from.index == a
            && init[i].to.index == b) by {
            assert(init[i] == threats[i]);
        }
        lemma_cell_empty(init, a, b, weight);
    }
}

/// Squares between which one threat is listed add its weight.
proof fn lemma_cell_single(
    threats: Seq<ThreatFeature>,
    k: int,
    weight: spec_fn(ThreatFeature) -> int,
)
    requires
        0 <= k < threats.len(),
        forall|i: int|
            0 <= i < threats.len() && i != k ==> !((#[trigger] threats[i]).from.index
                == threats[k].from.index && threats[i].to.index == threats[k].to.index),
    ensures
        cell_sum(
            threats,
            threats[k].from.index as int,
            threats[k].to.index as int,
            weight,
        ) == weight(threats[k]),
    decreases threats.len(),
{
    let init = threats.drop_last();
    let (a, b) = (threats[k].from.index as int, threats[k].to.index as int);
    assert(threats.last() == threats[threats.len() - 1]);
    if k == threats.len() - 1 {
        assert forall|i: int| 0 <= i < init.len() implies !((#[trigger] init[i]).from.index == a
            && init[i].to.index == b) by {
            assert(init[i] == threats[i]);
        }
        lemma_cell_empty(init, a, b, weight);
    } else {
        assert(init[k] == threats[k]);
        assert forall|i: int| 0 <= i < init.len() && i != k implies !((
        #[trigger] init[i]).from.index == init[k].from.index && init[i].to.index
            == init[k].to.index) by {
            assert(init[i] == threats[i]);
        }
        lemma_cell_single(init, k, weight);
    }
}

/// The threat between two squares of a board.
spec fn threat_between(board: Board, a: int, b: int) -> ThreatFeature {
    ThreatFeature {
        attacker: board.piece_at(a),
        victim: board.piece_at(b),
        from: Square { index: a as u8 },
        to: Square { index: b as u8 },
    }
}

/// Between two squares, a list of threats of a board adds the threat there, where it is listed.
proof fn lemma_listed_cell(
    threats: Seq<ThreatFeature>,
    board: Board,
    listed: spec_fn(ThreatFeature) -> bool,
    a: int,
    b: int,
    weight: spec_fn(ThreatFeature) -> int,
)
    requires
        threats.no_duplicates(),
        forall|t: ThreatFeature| #[trigger] threats.contains(t) <==> listed(t),
        forall|t: ThreatFeature| #[trigger] listed(t) ==> stands_on(board, t),
        0 <= a < 64,
        0 <= b < 64,
    ensures
        cell_sum(threats, a, b, weight) == if listed(threat_between(board, a, b)) {
            weight(threat_between(board, a, b))
        } else {
            0
        },
{
    let t = threat_between(board, a, b);
    assert forall|i: int|
        0 <= i < threats.len() && (#[trigger] threats[i]).from.index == a && threats[i].to.index
            == b implies threats[i] == t by {
        assert(threats.contains(threats[i]));
    }
    if threats.contains(t) {
        let k = choose|k: int| 0 <= k < threats.len() && threats[k] == t;
        assert forall|i: int| 0 <= i < threats.len() && i != k implies !((
        #[trigger] threats[i]).from.index == threats[k].from.index && threats[i].to.index
            == threats[k].to.index) by {
            if threats[i].from.index == a && threats[i].to.index == b {
                assert(threats[i] == threats[k]);
            }
        }
        lemma_cell_single(threats, k, weight);
    } else {
        assert forall|i: int| 0 <= i < threats.len() implies !((#[trigger] threats[i]).from.index
            == a && threats[i].to.index == b) by {
            assert(threats.contains(threats[i]));
        }
        lemma_cell_empty(threats, a, b, weight);
    }
}

/// Where `add` lists the threats that appear and `sub` those that vanish, they lead from the
/// threats of the board before to those of the board after.
pub proof fn law_threats_follow<F: FeatureSet>(
    seat: Seat<F>,
    before: Board,
    after: Board,
    add: Seq<ThreatFeature>,
    sub: Seq<ThreatFeature>,
    weight: spec_fn(int) -> int,
)
    requires
        lists_fresh_threats(add, after, before),
        lists_fresh_threats(sub, before, after),
    ensures
        board_threat_sum(seat, after, weight) == board_threat_sum(seat, before, weight)
            - listed_threat_sum(seat, sub, weight) + listed_threat_sum(seat, add, weight),
{
    let term = listed_term(seat, weight);
    let grid = |board: Board|
        |from: int, to: int|
            if threatens(board, from, to) {
                threat_term(seat, board.piece_at(from), board.piece_at(to), from, to, weight)
            } else {
                0
            };
    let (old_grid, new_grid) = (grid(before), grid(after));
    let come = |a: int, b: int| cell_sum(add, a, b, term);
    let gone = |a: int, b: int| cell_sum(sub, a, b, term);
    let both = |a: int, b: int| old_grid(a, b) + come(a, b);
    let same = |a: int, b: int| new_grid(a, b) + gone(a, b);
    assert forall|i: int| 0 <= i < add.len() implies (#[trigger] add[i]).wf() by {
        assert(add.contains(add[i]));
    }
    assert forall|i: int| 0 <= i < sub.len() implies (#[trigger] sub[i]).wf() by {
        assert(sub.contains(sub[i]));
    }
    lemma_cells(add, term);
    lemma_cells(sub, term);
    let appears = |t: ThreatFeature| stands_on(after, t) && !stands_on(before, t);
    let vanishes = |t: ThreatFeature| stands_on(before, t) && !stands_on(after, t);
    assert forall|a: int, b: int| 0 <= a < 64 && 0 <= b < 64 implies #[trigger] both(a, b) == same(
        a,
        b,
    ) by {
        lemma_listed_cell(add, after, appears, a, b, term);
        lemma_listed_cell(sub, before, vanishes, a, b, term);
    }
    lemma_pairs_same(both, same);
    lemma_pairs_add(old_grid, come, both);
    lemma_pairs_add(new_grid, gone, same);
}

/// `updates` leads from `before` to `after`, as `colour` sees them: the king of that side stays,
/// the pawns are those of the boards, and the listed threats account for the change of the threats.
pub open spec fn leads<F: FeatureSet>(
    features: &F,
    colour: Colour,
    before: Board,
    after: Board,
    updates: AuxUpdateBuffer,
) -> bool {
    let seat = seat_on(features, colour, before);
    &&& before.bbs.has_king(colour)
    &&& after.bbs.king_square(colour) == seat.king
    &&& forall|side: Colour, sq: int| #[trigger]
        board_pawns(before)(side, sq) == pawns_of(updates.afore)(side, sq)
    &&& forall|side: Colour, sq: int| #[trigger]
        board_pawns(after)(side, sq) == pawns_of(updates.after)(side, sq)
    &&& forall|weight: spec_fn(int) -> int| #[trigger]
        board_threat_sum(seat, after, weight) == board_threat_sum(
            seat,
            before,
            weight,
        ) - listed_threat_sum(seat, updates.sub@, weight) + listed_threat_sum(
            seat,
            updates.add@,
            weight,
        )
}

/// Where the numbering is symmetric, the features that an update removes and adds lead from the
/// features of the board before to those of the board after.
pub proof fn law_features_follow<F: FeatureSet>(
    features: &F,
    colour: Colour,
    before: Board,
    after: Board,
    updates: AuxUpdateBuffer,
    weight: spec_fn(int) -> int,
)
    requires
        is_symmetric(features),
        leads(features, colour, before, after, updates),
        is_disjoint(board_pawns(before)),
        is_disjoint(board_pawns(after)),
    ensures
        ({
            let seat = seat_on(features, colour, before);
            board_sum(features, colour, after, weight) == board_sum(
                features,
                colour,
                before,
                weight,
            ) - removed_sum(seat, updates, weight) + added_sum(seat, updates, weight)
        }),
{
    let seat = seat_on(features, colour, before);
    before.bbs.lemma_king_on_board(colour);
    let (p, q) = (board_pawns(before), board_pawns(after));
    assert(p =~= pawns_of(updates.afore)) by {
        assert forall|side: Colour, sq: int| #[trigger] p(side, sq) == pawns_of(updates.afore)(
            side,
            sq,
        ) by {}
    }
    assert(q =~= pawns_of(updates.after)) by {
        assert forall|side: Colour, sq: int| #[trigger] q(side, sq) == pawns_of(updates.after)(
            side,
            sq,
        ) by {}
    }
    law_pawn_pairs_follow(seat, p, q, weight);
}

/// Updating the accumulator of a board gives, on the lanes of the whole tiles, what refreshing
/// from the next board gives.
pub proof fn law_update_matches_refresh<F: FeatureSet>(
    features: &F,
    colour: Colour,
    before: Board,
    after: Board,
    updates: AuxUpdateBuffer,
    weights: Seq<i8>,
    old_acc: Seq<i16>,
    rest: Seq<i16>,
)
    requires
        is_symmetric(features),
        leads(features, colour, before, after, updates),
        is_disjoint(board_pawns(before)),
        is_disjoint(board_pawns(after)),
        old_acc.len() == rest.len(),
    ensures
        ({
            let width = old_acc.len() as int;
            let seat = seat_on(features, colour, before);
            let refreshed = refresh_result(features, old_acc, weights, before, colour);
            aux_result(seat, refreshed, rest, weights, updates).take(tiled(width))
                == refresh_result(features, rest, weights, after, colour).take(tiled(width))
        }),
{
    let width = old_acc.len() as int;
    let seat = seat_on(features, colour, before);
    let refreshed = refresh_result(features, old_acc, weights, before, colour);
    let updated = aux_result(seat, refreshed, rest, weights, updates);
    let direct = refresh_result(features, rest, weights, after, colour);
    assert forall|j: int| 0 <= j < tiled(width) implies #[trigger] updated[j] == direct[j] by {
        let weight = lane_weight(weights, width, j);
        law_features_follow(features, colour, before, after, updates, weight);
        let gone = removed_sum(seat, updates, weight);
        let come = added_sum(seat, updates, weight);
        lemma_wrap_absorbs(board_sum(features, colour, before, weight), come - gone);
    }
    assert(updated.take(tiled(width)) =~= direct.take(tiled(width)));
}

/// `back` undoes `updates`: it adds what the other removes and removes what the other adds.
pub open spec fn reverses(updates: AuxUpdateBuffer, back: AuxUpdateBuffer) -> bool {
    &&& back.add@ == updates.sub@
    &&& back.sub@ == updates.add@
    &&& back.afore == updates.after
    &&& back.after == updates.afore
}

/// An update and then the reverse update give back the lanes of the whole tiles.
pub proof fn law_aux_undo<F: FeatureSet>(
    seat: Seat<F>,
    src: Seq<i16>,
    rest: Seq<i16>,
    last: Seq<i16>,
    weights: Seq<i8>,
    updates: AuxUpdateBuffer,
    back: AuxUpdateBuffer,
)
    requires
        reverses(updates, back),
    ensures
        ({
            let there = aux_result(seat, src, rest, weights, updates);
            let width = src.len() as int;
            aux_result(seat, there, last, weights, back).take(tiled(width))
                == src.take(tiled(width))
        }),
{
    let width = src.len() as int;
    let there = aux_result(seat, src, rest, weights, updates);
    let again = aux_result(seat, there, last, weights, back);
    assert forall|j: int| 0 <= j < tiled(width) implies #[trigger] again[j] == src[j] by {
        let weight = lane_weight(weights, width, j);
        let gone = removed_sum(seat, updates, weight);
        let come = added_sum(seat, updates, weight);
        lemma_wrap_absorbs(src[j] - gone + come, gone - come);
        lemma_wrap_fits(src[j]);
    }
    assert(again.take(tiled(width)) =~= src.take(tiled(width)));
}

/// An update without changes copies every lane.
pub proof fn law_aux_unchanged<F: FeatureSet>(
    seat: Seat<F>,
    src: Seq<i16>,
    rest: Seq<i16>,
    weights: Seq<i8>,
    updates: AuxUpdateBuffer,
)
    requires
        updates.is_unchanged(),
    ensures
        aux_result(seat, src, rest, weights, updates) == src,
{
    let result = aux_result(seat, src, rest, weights, updates);
    assert(updates.add@ =~= updates.sub@);
    assert(updates.afore =~= updates.after);
    assert forall|j: int| 0 <= j < src.len() implies #[trigger] result[j] == src[j] by {
        lemma_wrap_fits(src[j]);
    }
    assert(result =~= src);
}

/// Two piece-square updates, one on the result of the other, are one update with the features of
/// both.
pub proof fn law_psqt_compose(
    src: Seq<i16>,
    rest: Seq<i16>,
    last: Seq<i16>,
    bucket: Seq<i16>,
    adds1: Seq<PsqtFeatureIndex>,
    subs1: Seq<PsqtFeatureIndex>,
    adds2: Seq<PsqtFeatureIndex>,
    subs2: Seq<PsqtFeatureIndex>,
)
    ensures
        psqt_result(psqt_result(src, rest, bucket, adds1, subs1), last, bucket, adds2, subs2)
            == psqt_result(src, last, bucket, adds1 + adds2, subs1 + subs2),
{
    let width = src.len() as int;
    let first = psqt_result(src, rest, bucket, adds1, subs1);
    let twice = psqt_result(first, last, bucket, adds2, subs2);
    let once = psqt_result(src, last, bucket, adds1 + adds2, subs1 + subs2);
    assert forall|j: int| 0 <= j < src.len() implies #[trigger] twice[j] == once[j] by {
        let weight = psqt_weight(bucket, width, j);
        lemma_sum_concat(adds1, adds2, weight);
        lemma_sum_concat(subs1, subs2, weight);
        lemma_wrap_absorbs(
            src[j] - sum_of(subs1, weight) + sum_of(adds1, weight),
            sum_of(adds2, weight) - sum_of(subs2, weight),
        );
    }
    assert(twice =~= once);
}

/// Adding what an update in place removed, and removing what it added, gives the accumulator back.
pub proof fn law_psqt_undo(
    src: Seq<i16>,
    bucket: Seq<i16>,
    adds: Seq<PsqtFeatureIndex>,
    subs: Seq<PsqtFeatureIndex>,
)
    ensures
        ({
            let there = psqt_result(src, src, bucket, adds, subs);
            psqt_result(there, there, bucket, subs, adds) == src
        }),
{
    let width = src.len() as int;
    let there = psqt_result(src, src, bucket, adds, subs);
    let again = psqt_result(there, there, bucket, subs, adds);
    assert forall|j: int| 0 <= j < src.len() implies #[trigger] again[j] == src[j] by {
        let weight = psqt_weight(bucket, width, j);
        let (gone, come) = (sum_of(subs, weight), sum_of(adds, weight));
        lemma_wrap_absorbs(src[j] - gone + come, gone - come);
        lemma_wrap_fits(src[j]);
    }
    assert(again =~= src);
}

/// The order in which items are listed does not change their sum.
pub proof fn law_sum_order<T>(s: Seq<T>, t: Seq<T>, weight: spec_fn(T) -> int)
    requires
        s.to_multiset() == t.to_multiset(),
    ensures
        sum_of(s, weight) == sum_of(t, weight),
    decreases s.len(),
{
    broadcast use vstd::seq_lib::group_to_multiset_ensures;

    assert(s.to_multiset().len() == s.len());
    assert(t.to_multiset().len() == t.len());
    if s.len() > 0 {
        let item = s.last();
        assert(s =~= s.drop_last().push(item));
        assert(s.contains(item));
        assert(t.to_multiset().count(item) > 0);
        assert(t.contains(item));
        let i = choose|i: int| 0 <= i < t.len() && t[i] == item;
        let (front, back) = (t.take(i), t.skip(i + 1));
        let shorter = t.remove(i);
        assert(shorter =~= front + back);
        assert(t =~= front.push(item) + back);
        lemma_sum_concat(front.push(item), back, weight);
        lemma_sum_push(front, item, weight);
        lemma_sum_concat(front, back, weight);
        assert(shorter.to_multiset() =~= t.to_multiset().remove(item));
        assert(s.drop_last().to_multiset() =~= s.to_multiset().remove(item));
        law_sum_order(s.drop_last(), shorter, weight);
    }
}

/// One more item on both of two lists does not change the difference of their sums.
pub proof fn law_sum_cancel<T>(adds: Seq<T>, subs: Seq<T>, item: T, weight: spec_fn(T) -> int)
    ensures
        sum_of(adds.push(item), weight) - sum_of(subs.push(item), weight) == sum_of(adds, weight)
            - sum_of(subs, weight),
{
    lemma_sum_push(adds, item, weight);
    lemma_sum_push(subs, item, weight);
}

/// The order in which the items of an update are listed does not matter.
pub proof fn law_lanes_order<T>(
    src: Seq<i16>,
    rest: Seq<i16>,
    adds1: Seq<T>,
    subs1: Seq<T>,
    adds2: Seq<T>,
    subs2: Seq<T>,
    weights: spec_fn(int) -> spec_fn(T) -> int,
)
    requires
        adds1.to_multiset() == adds2.to_multiset(),
        subs1.to_multiset() == subs2.to_multiset(),
    ensures
        lanes_result(src, rest, adds1, subs1, weights) == lanes_result(
            src,
            rest,
            adds2,
            subs2,
            weights,
        ),
{
    let one = lanes_result(src, rest, adds1, subs1, weights);
    let two = lanes_result(src, rest, adds2, subs2, weights);
    assert forall|j: int| 0 <= j < src.len() implies #[trigger] one[j] == two[j] by {
        law_sum_order(adds1, adds2, weights(j));
        law_sum_order(subs1, subs2, weights(j));
    }
    assert(one =~= two);
}

/// An update that adds one more item and removes it too is the update without that item.
pub proof fn law_lanes_cancel<T>(
    src: Seq<i16>,
    rest: Seq<i16>,
    adds: Seq<T>,
    subs: Seq<T>,
    item: T,
    weights: spec_fn(int) -> spec_fn(T) -> int,
)
    ensures
        lanes_result(src, rest, adds.push(item), subs.push(item), weights) == lanes_result(
            src,
            rest,
            adds,
            subs,
            weights,
        ),
{
    let more = lanes_result(src, rest, adds.push(item), subs.push(item), weights);
    let less = lanes_result(src, rest, adds, subs, weights);
    assert forall|j: int| 0 <= j < src.len() implies #[trigger] more[j] == less[j] by {
        law_sum_cancel(adds, subs, item, weights(j));
    }
    assert(more =~= less);
}

/// An update that adds and removes the same items, or none at all, copies the lanes of the whole
/// tiles.
pub proof fn law_lanes_balanced<T>(
    src: Seq<i16>,
    rest: Seq<i16>,
    adds: Seq<T>,
    subs: Seq<T>,
    weights: spec_fn(int) -> spec_fn(T) -> int,
)
    requires
        adds.to_multiset() == subs.to_multiset(),
    ensures
        lanes_result(src, rest, adds, subs, weights).take(tiled(src.len() as int)) == src.take(
            tiled(src.len() as int),
        ),
{
    let end = tiled(src.len() as int);
    let result = lanes_result(src, rest, adds, subs, weights);
    assert forall|j: int| 0 <= j < end implies #[trigger] result[j] == src[j] by {
        law_sum_order(adds, subs, weights(j));
        lemma_wrap_fits(src[j]);
    }
    assert(result.take(end) =~= src.take(end));
}

/// Adding and removing one more feature changes nothing.
pub proof fn law_psqt_cancel(
    src: Seq<i16>,
    rest: Seq<i16>,
    bucket: Seq<i16>,
    adds: Seq<PsqtFeatureIndex>,
    subs: Seq<PsqtFeatureIndex>,
    feature: PsqtFeatureIndex,
)
    ensures
        psqt_result(src, rest, bucket, adds.push(feature), subs.push(feature)) == psqt_result(
            src,
            rest,
            bucket,
            adds,
            subs,
        ),
{
    let weights = |j: int| psqt_weight(bucket, src.len() as int, j);
    law_lanes_cancel(src, rest, adds, subs, feature, weights);
}

/// The order in which features are listed does not matter.
pub proof fn law_psqt_order(
    src: Seq<i16>,
    rest: Seq<i16>,
    bucket: Seq<i16>,
    adds1: Seq<PsqtFeatureIndex>,
    subs1: Seq<PsqtFeatureIndex>,
    adds2: Seq<PsqtFeatureIndex>,
    subs2: Seq<PsqtFeatureIndex>,
)
    requires
        adds1.to_multiset() == adds2.to_multiset(),
        subs1.to_multiset() == subs2.to_multiset(),
    ensures
        psqt_result(src, rest, bucket, adds1, subs1) == psqt_result(
            src,
            rest,
            bucket,
            adds2,
            subs2,
        ),
{
    let weights = |j: int| psqt_weight(bucket, src.len() as int, j);
    law_lanes_order(src, rest, adds1, subs1, adds2, subs2, weights);
}

/// The order in which an update lists its threats does not matter.
pub proof fn law_aux_order<F: FeatureSet>(
    seat: Seat<F>,
    src: Seq<i16>,
    rest: Seq<i16>,
    weights: Seq<i8>,
    u1: AuxUpdateBuffer,
    u2: AuxUpdateBuffer,
)
    requires
        u1.add@.to_multiset() == u2.add@.to_multiset(),
        u1.sub@.to_multiset() == u2.sub@.to_multiset(),
        u1.afore == u2.afore,
        u1.after == u2.after,
    ensures
        aux_result(seat, src, rest, weights, u1) == aux_result(seat, src, rest, weights, u2),
{
    broadcast use vstd::seq_lib::group_to_multiset_ensures;

    let width = src.len() as int;
    let one = aux_result(seat, src, rest, weights, u1);
    let two = aux_result(seat, src, rest, weights, u2);
    assert(u1.add@.len() == u1.add@.to_multiset().len() == u2.add@.len());
    assert(u1.sub@.len() == u1.sub@.to_multiset().len() == u2.sub@.len());
    assert forall|j: int| 0 <= j < width implies #[trigger] one[j] == two[j] by {
        let term = listed_term(seat, lane_weight(weights, width, j));
        law_sum_order(u1.add@, u2.add@, term);
        law_sum_order(u1.sub@, u2.sub@, term);
    }
    assert(one =~= two);
}

/// A threat that an update adds and removes does not show in the lanes of the whole tiles.
pub proof fn law_aux_cancel<F: FeatureSet>(
    seat: Seat<F>,
    src: Seq<i16>,
    rest: Seq<i16>,
    weights: Seq<i8>,
    updates: AuxUpdateBuffer,
    more: AuxUpdateBuffer,
    threat: ThreatFeature,
)
    requires
        more.add@ == updates.add@.push(threat),
        more.sub@ == updates.sub@.push(threat),
        more.afore == updates.afore,
        more.after == updates.after,
    ensures
        aux_result(seat, src, rest, weights, more).take(tiled(src.len() as int)) == aux_result(
            seat,
            src,
            rest,
            weights,
            updates,
        ).take(tiled(src.len() as int)),
{
    let width = src.len() as int;
    let with = aux_result(seat, src, rest, weights, more);
    let without = aux_result(seat, src, rest, weights, updates);
    assert forall|j: int| 0 <= j < tiled(width) implies #[trigger] with[j] == without[j] by {
        let term = listed_term(seat, lane_weight(weights, width, j));
        law_sum_cancel(updates.add@, updates.sub@, threat, term);
    }
    assert(with.take(tiled(width)) =~= without.take(tiled(width)));
}

/// `joined` lists what `u1` and `u2` list, and leads from the pawns before `u1` to those after
/// `u2`.
pub open spec fn joins(u1: AuxUpdateBuffer, u2: AuxUpdateBuffer, joined: AuxUpdateBuffer) -> bool {
    &&& u1.after == u2.afore
    &&& joined.add@ == u1.add@ + u2.add@
    &&& joined.sub@ == u1.sub@ + u2.sub@
    &&& joined.afore == u1.afore
    &&& joined.after == u2.after
}

/// Where the numbering is symmetric, an update and then a second are, on the lanes of the whole
/// tiles, the joined update.
pub proof fn law_aux_compose<F: FeatureSet>(
    seat: Seat<F>,
    src: Seq<i16>,
    rest: Seq<i16>,
    last: Seq<i16>,
    weights: Seq<i8>,
    u1: AuxUpdateBuffer,
    u2: AuxUpdateBuffer,
    joined: AuxUpdateBuffer,
)
    requires
        is_symmetric(&seat.features),
        0 <= seat.king < 64,
        joins(u1, u2, joined),
        is_disjoint(pawns_of(u1.afore)),
        is_disjoint(pawns_of(u1.after)),
        is_disjoint(pawns_of(u2.after)),
    ensures
        ({
            let end = tiled(src.len() as int);
            let first = aux_result(seat, src, rest, weights, u1);
            aux_result(seat, first, last, weights, u2).take(end) == aux_result(
                seat,
                src,
                last,
                weights,
                joined,
            ).take(end)
        }),
{
    let width = src.len() as int;
    let end = tiled(width);
    let first = aux_result(seat, src, rest, weights, u1);
    let twice = aux_result(seat, first, last, weights, u2);
    let once = aux_result(seat, src, last, weights, joined);
    let (p, q, r) = (pawns_of(u1.afore), pawns_of(u1.after), pawns_of(u2.after));
    assert forall|j: int| 0 <= j < end implies #[trigger] twice[j] == once[j] by {
        let weight = lane_weight(weights, width, j);
        let term = listed_term(seat, weight);
        law_pawn_pairs_follow(seat, p, q, weight);
        law_pawn_pairs_follow(seat, q, r, weight);
        law_pawn_pairs_follow(seat, p, r, weight);
        lemma_sum_concat(u1.add@, u2.add@, term);
        lemma_sum_concat(u1.sub@, u2.sub@, term);
        lemma_wrap_absorbs(
            src[j] - removed_sum(seat, u1, weight) + added_sum(seat, u1, weight),
            added_sum(seat, u2, weight) - removed_sum(seat, u2, weight),
        );
    }
    assert(twice.take(end) =~= once.take(end));
}

/// `threats` lists, once each, the threats that stand on `board`.
pub open spec fn lists_threats(threats: Seq<ThreatFeature>, board: Board) -> bool {
    &&& threats.no_duplicates()
    &&& forall|t: ThreatFeature| #[trigger] threats.contains(t) <==> stands_on(board, t)
}

/// The sum over a list of the threats of a board is the sum over the board.
pub proof fn law_listed_is_board<F: FeatureSet>(
    seat: Seat<F>,
    threats: Seq<ThreatFeature>,
    board: Board,
    weight: spec_fn(int) -> int,
)
    requires
        lists_threats(threats, board),
    ensures
        listed_threat_sum(seat, threats, weight) == board_threat_sum(seat, board, weight),
{
    let term = listed_term(seat, weight);
    let grid = |from: int, to: int|
        if threatens(board, from, to) {
            threat_term(seat, board.piece_at(from), board.piece_at(to), from, to, weight)
        } else {
            0
        };
    let cells = |a: int, b: int| cell_sum(threats, a, b, term);
    assert forall|i: int| 0 <= i < threats.len() implies (#[trigger] threats[i]).wf() by {
        assert(threats.contains(threats[i]));
    }
    lemma_cells(threats, term);
    assert forall|a: int, b: int| 0 <= a < 64 && 0 <= b < 64 implies #[trigger] cells(a, b) == grid(
        a,
        b,
    ) by {
        lemma_listed_cell(threats, board, |t: ThreatFeature| stands_on(board, t), a, b, term);
    }
    lemma_pairs_same(cells, grid);
}

/// `updates` builds `board` from nothing: it lists each threat of the board once and leads from no
/// pawns to those of the board.
pub open spec fn builds(updates: AuxUpdateBuffer, board: Board) -> bool {
    &&& lists_threats(updates.add@, board)
    &&& updates.sub@.len() == 0
    &&& forall|side: Colour, sq: int| !#[trigger] pawns_of(updates.afore)(side, sq)
    &&& forall|side: Colour, sq: int| #[trigger]
        pawns_of(updates.after)(side, sq) == board_pawns(board)(side, sq)
}

/// Without pawns there are no pairs.
proof fn lemma_no_pairs<F: FeatureSet>(
    seat: Seat<F>,
    none: Pawns,
    other: Pawns,
    weight: spec_fn(int) -> int,
)
    requires
        forall|side: Colour, sq: int| !#[trigger] none(side, sq),
    ensures
        pawn_pair_sum(seat, none, weight) == 0,
        fresh_pair_sum(seat, none, other, weight) == 0,
{
    let colour = seat.colour;
    lemma_pairs_zero(
        |a: int, b: int|
            if a < b && none(colour, a) && none(colour, b) {
                pair_term(seat, colour, a, colour, b, weight)
            } else {
                0
            },
    );
    lemma_pairs_zero(
        |a: int, b: int|
            if a < b && none(colour.other(), a) && none(colour.other(), b) {
                pair_term(seat, colour.other(), a, colour.other(), b, weight)
            } else {
                0
            },
    );
    lemma_pairs_zero(
        |a: int, b: int|
            if none(seat.colour, a) && none(seat.colour.other(), b) {
                pair_term(seat, seat.colour, a, seat.colour.other(), b, weight)
            } else {
                0
            },
    );
    lemma_pairs_zero(
        |a: int, b: int|
            fresh_pair_term(seat, none, other, Colour::White, a, Colour::White, b, weight)
                + fresh_pair_term(
                seat,
                none,
                other,
                Colour::White,
                a,
                Colour::Black,
                b,
                weight,
            ),
    );
    lemma_pairs_zero(
        |a: int, b: int|
            fresh_pair_term(seat, none, other, Colour::Black, a, Colour::White, b, weight)
                + fresh_pair_term(
                seat,
                none,
                other,
                Colour::Black,
                a,
                Colour::Black,
                b,
                weight,
            ),
    );
}

/// Where the numbering is symmetric, refreshing from a board gives, on the lanes of the whole
/// tiles, what updating the zero accumulator with all features of the board gives.
pub proof fn law_refresh_is_update_of_zero<F: FeatureSet>(
    features: &F,
    colour: Colour,
    board: Board,
    updates: AuxUpdateBuffer,
    weights: Seq<i8>,
    old_acc: Seq<i16>,
    zeros: Seq<i16>,
    rest: Seq<i16>,
)
    requires
        is_symmetric(features),
        board.bbs.has_king(colour),
        builds(updates, board),
        is_disjoint(board_pawns(board)),
        old_acc.len() == zeros.len(),
        forall|j: int| 0 <= j < zeros.len() ==> #[trigger] zeros[j] == 0,
    ensures
        ({
            let end = tiled(zeros.len() as int);
            let seat = seat_on(features, colour, board);
            refresh_result(features, old_acc, weights, board, colour).take(end) == aux_result(
                seat,
                zeros,
                rest,
                weights,
                updates,
            ).take(end)
        }),
{
    let width = zeros.len() as int;
    let end = tiled(width);
    let seat = seat_on(features, colour, board);
    let refreshed = refresh_result(features, old_acc, weights, board, colour);
    let updated = aux_result(seat, zeros, rest, weights, updates);
    let (none, pawns) = (pawns_of(updates.afore), pawns_of(updates.after));
    board.bbs.lemma_king_on_board(colour);
    assert(pawns =~= board_pawns(board)) by {
        assert forall|side: Colour, sq: int| #[trigger] pawns(side, sq) == board_pawns(board)(
            side,
            sq,
        ) by {}
    }
    assert forall|j: int| 0 <= j < end implies #[trigger] refreshed[j] == updated[j] by {
        let weight = lane_weight(weights, width, j);
        law_listed_is_board(seat, updates.add@, board, weight);
        law_pawn_pairs_follow(seat, none, pawns, weight);
        lemma_no_pairs(seat, none, pawns, weight);
        assert(listed_threat_sum(seat, updates.sub@, weight) == 0);
    }
    assert(refreshed.take(end) =~= updated.take(end));
}

/// Features in range have, in `sum`, the weight that they have in `one` and `two` together.
spec fn adds_up<F: FeatureSet>(
    features: &F,
    one: spec_fn(int) -> int,
    two: spec_fn(int) -> int,
    sum: spec_fn(int) -> int,
) -> bool {
    forall|feature: int|
        0 <= feature < features.aux_count() ==> #[trigger] sum(feature) == one(feature) + two(
            feature,
        )
}

/// The weight of a threat adds up.
proof fn lemma_threat_adds_up<F: FeatureSet>(
    seat: Seat<F>,
    attacker: Piece,
    victim: Piece,
    from: int,
    to: int,
    one: spec_fn(int) -> int,
    two: spec_fn(int) -> int,
    sum: spec_fn(int) -> int,
)
    requires
        adds_up(&seat.features, one, two, sum),
        0 <= seat.king < 64,
        0 <= from < 64,
        0 <= to < 64,
    ensures
        threat_term(seat, attacker, victim, from, to, sum) == threat_term(
            seat,
            attacker,
            victim,
            from,
            to,
            one,
        ) + threat_term(seat, attacker, victim, from, to, two),
{
    seat.features.threat_in_range(seat.colour, seat.king, attacker, victim, from, to);
}

/// The weight of a pair of pawns adds up.
proof fn lemma_pair_adds_up<F: FeatureSet>(
    seat: Seat<F>,
    a_colour: Colour,
    a: int,
    b_colour: Colour,
    b: int,
    one: spec_fn(int) -> int,
    two: spec_fn(int) -> int,
    sum: spec_fn(int) -> int,
)
    requires
        adds_up(&seat.features, one, two, sum),
        0 <= seat.king < 64,
        0 <= a < 64,
        0 <= b < 64,
    ensures
        pair_term(seat, a_colour, a, b_colour, b, sum) == pair_term(
            seat,
            a_colour,
            a,
            b_colour,
            b,
            one,
        ) + pair_term(seat, a_colour, a, b_colour, b, two),
{
    seat.features.counts_fit();
    seat.features.pawn_pair_in_range(seat.colour, seat.king, a_colour, a, b_colour, b);
}

/// The sum over the pairs of two pawns of one side adds up.
proof fn lemma_same_side_adds_up<F: FeatureSet>(
    seat: Seat<F>,
    pawns: Pawns,
    side: Colour,
    one: spec_fn(int) -> int,
    two: spec_fn(int) -> int,
    sum: spec_fn(int) -> int,
)
    requires
        adds_up(&seat.features, one, two, sum),
        0 <= seat.king < 64,
    ensures
        same_side_pair_sum(seat, pawns, side, sum) == same_side_pair_sum(seat, pawns, side, one)
            + same_side_pair_sum(seat, pawns, side, two),
{
    let f = |a: int, b: int|
        if a < b && pawns(side, a) && pawns(side, b) {
            pair_term(seat, side, a, side, b, one)
        } else {
            0
        };
    let g = |a: int, b: int|
        if a < b && pawns(side, a) && pawns(side, b) {
            pair_term(seat, side, a, side, b, two)
        } else {
            0
        };
    let h = |a: int, b: int|
        if a < b && pawns(side, a) && pawns(side, b) {
            pair_term(seat, side, a, side, b, sum)
        } else {
            0
        };
    assert forall|a: int, b: int| 0 <= a < 64 && 0 <= b < 64 implies #[trigger] h(a, b) == f(a, b)
        + g(a, b) by {
        lemma_pair_adds_up(seat, side, a, side, b, one, two, sum);
    }
    lemma_pairs_add(f, g, h);
}

/// The sum over the features of a board adds up.
proof fn lemma_board_adds_up<F: FeatureSet>(
    features: &F,
    colour: Colour,
    board: Board,
    one: spec_fn(int) -> int,
    two: spec_fn(int) -> int,
    sum: spec_fn(int) -> int,
)
    requires
        adds_up(features, one, two, sum),
        board.bbs.has_king(colour),
    ensures
        board_sum(features, colour, board, sum) == board_sum(features, colour, board, one)
            + board_sum(features, colour, board, two),
{
    let seat = seat_on(features, colour, board);
    let pawns = board_pawns(board);
    board.bbs.lemma_king_on_board(colour);
    let threats = |weight: spec_fn(int) -> int|
        |from: int, to: int|
            if threatens(board, from, to) {
                threat_term(seat, board.piece_at(from), board.piece_at(to), from, to, weight)
            } else {
                0
            };
    let (f, g, h) = (threats(one), threats(two), threats(sum));
    assert forall|a: int, b: int| 0 <= a < 64 && 0 <= b < 64 implies #[trigger] h(a, b) == f(a, b)
        + g(a, b) by {
        lemma_threat_adds_up(seat, board.piece_at(a), board.piece_at(b), a, b, one, two, sum);
    }
    lemma_pairs_add(f, g, h);
    let cross = |weight: spec_fn(int) -> int|
        |a: int, b: int|
            if pawns(seat.colour, a) && pawns(seat.colour.other(), b) {
                pair_term(seat, seat.colour, a, seat.colour.other(), b, weight)
            } else {
                0
            };
    let (p, q, r) = (cross(one), cross(two), cross(sum));
    assert forall|a: int, b: int| 0 <= a < 64 && 0 <= b < 64 implies #[trigger] r(a, b) == p(a, b)
        + q(a, b) by {
        lemma_pair_adds_up(seat, seat.colour, a, seat.colour.other(), b, one, two, sum);
    }
    lemma_pairs_add(p, q, r);
    lemma_same_side_adds_up(seat, pawns, seat.colour, one, two, sum);
    lemma_same_side_adds_up(seat, pawns, seat.colour.other(), one, two, sum);
}

/// A refresh is additive in the weights: where a table is the sum of two others, each lane of the
/// whole tiles is the wrapped sum of the lanes that the two give.
pub proof fn law_refresh_additive<F: FeatureSet>(
    features: &F,
    colour: Colour,
    board: Board,
    w1: Seq<i8>,
    w2: Seq<i8>,
    w3: Seq<i8>,
    acc1: Seq<i16>,
    acc2: Seq<i16>,
    acc3: Seq<i16>,
)
    requires
        board.bbs.has_king(colour),
        acc1.len() == acc3.len(),
        acc2.len() == acc3.len(),
        w1.len() == features.aux_count() * acc3.len(),
        w2.len() == w1.len(),
        w3.len() == w1.len(),
        forall|k: int| 0 <= k < w3.len() ==> #[trigger] w3[k] == w1[k] + w2[k],
    ensures
        forall|j: int|
            0 <= j < tiled(acc3.len() as int) ==> #[trigger] refresh_result(
                features,
                acc3,
                w3,
                board,
                colour,
            )[j] == wrap_i16(
                refresh_result(features, acc1, w1, board, colour)[j] + refresh_result(
                    features,
                    acc2,
                    w2,
                    board,
                    colour,
                )[j],
            ),
{
    let width = acc3.len() as int;
    let one = refresh_result(features, acc1, w1, board, colour);
    let two = refresh_result(features, acc2, w2, board, colour);
    let sum = refresh_result(features, acc3, w3, board, colour);
    assert forall|j: int| 0 <= j < tiled(width) implies #[trigger] sum[j] == wrap_i16(
        one[j] + two[j],
    ) by {
        let (f, g) = (lane_weight(w1, width, j), lane_weight(w2, width, j));
        let h = lane_weight(w3, width, j);
        assert forall|feature: int| 0 <= feature < features.aux_count() implies #[trigger] h(
            feature,
        ) == f(feature) + g(feature) by {
            let count = features.aux_count() as int;
            let k = feature * width + j;
            assert(0 <= k < count * width) by (nonlinear_arith)
                requires
                    0 <= feature < count,
                    0 <= j < width,
                    k == feature * width + j,
            ;
            assert(w3[k] == w1[k] + w2[k]);
        }
        lemma_board_adds_up(features, colour, board, f, g, h);
        let (x, y) = (board_sum(features, colour, board, f), board_sum(features, colour, board, g));
        lemma_wrap_absorbs(x, wrap_i16(y) as int);
        lemma_wrap_absorbs(y, x);
    }
}

/// With a table of zeros a refresh makes the lanes of the whole tiles zero.
pub proof fn law_refresh_of_zero_weights<F: FeatureSet>(
    features: &F,
    colour: Colour,
    board: Board,
    weights: Seq<i8>,
    acc: Seq<i16>,
)
    requires
        board.bbs.has_king(colour),
        weights.len() == features.aux_count() * acc.len(),
        forall|k: int| 0 <= k < weights.len() ==> #[trigger] weights[k] == 0,
    ensures
        forall|j: int|
            0 <= j < tiled(acc.len() as int) ==> #[trigger] refresh_result(
                features,
                acc,
                weights,
                board,
                colour,
            )[j] == 0,
{
    law_refresh_additive(features, colour, board, weights, weights, weights, acc, acc, acc);
}

/// Whether an update is made in place or into another accumulator, the lanes of the whole tiles
/// are the same.
pub proof fn law_psqt_in_place(
    src: Seq<i16>,
    rest: Seq<i16>,
    bucket: Seq<i16>,
    adds: Seq<PsqtFeatureIndex>,
    subs: Seq<PsqtFeatureIndex>,
)
    ensures
        psqt_result(src, src, bucket, adds, subs).take(tiled(src.len() as int)) == psqt_result(
            src,
            rest,
            bucket,
            adds,
            subs,
        ).take(tiled(src.len() as int)),
{
    let end = tiled(src.len() as int);
    assert(psqt_result(src, src, bucket, adds, subs).take(end) =~= psqt_result(
        src,
        rest,
        bucket,
        adds,
        subs,
    ).take(end));
}

/// What an accumulator held before a refresh does not show in the lanes of the whole tiles.
pub proof fn law_refresh_forgets<F: FeatureSet>(
    features: &F,
    one: Seq<i16>,
    two: Seq<i16>,
    weights: Seq<i8>,
    board: Board,
    colour: Colour,
)
    requires
        one.len() == two.len(),
    ensures
        refresh_result(features, one, weights, board, colour).take(tiled(one.len() as int))
            == refresh_result(features, two, weights, board, colour).take(tiled(two.len() as int)),
{
    let end = tiled(one.len() as int);
    assert(refresh_result(features, one, weights, board, colour).take(end) =~= refresh_result(
        features,
        two,
        weights,
        board,
        colour,
    ).take(end));
}

} // verus!
