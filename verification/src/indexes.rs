//! Offsets into the weight table of the features that a board or an update holds.

use crate::attacks::attacks_by_type;
use crate::board::{Board, Colour, Piece, PieceType};
use crate::buffers::{update_offsets, OffsetBuffer};
use crate::features::{
    board_pawns, is_fresh, is_taken, pawns_of, threatens, AuxUpdateBuffer, FeatureSet, Pawns,
    Seat, ThreatFeature, seat_of,
};
use crate::squares::{file_of, Square, SquareSet};
use crate::sums::{lemma_list_skip, list_from, list_squares};
use arrayvec::ArrayVec;
use vstd::prelude::*;

verus! {

/// Where the weights of a feature start, in a table of `width` lanes per feature.
pub open spec fn offset_at(feature: int, width: int) -> u32 {
    (feature * width) as u32
}

/// Every offset into a table for `features` of `width` lanes per feature fits 32 bits.
pub open spec fn table_fits<F: FeatureSet>(features: &F, width: int) -> bool {
    features.aux_count() * width <= u32::MAX
}

/// The offset of a threat, where it is in use.
pub open spec fn threat_list<F: FeatureSet>(
    seat: Seat<F>,
    attacker: Piece,
    victim: Piece,
    from: int,
    to: int,
    width: int,
) -> Seq<u32> {
    let (good, number) = seat.features.threat(seat.colour, seat.king, attacker, victim, from, to);
    if good {
        seq![offset_at(seat.features.pawn_tuple_count() + number, width)]
    } else {
        Seq::empty()
    }
}

/// The offsets of the listed threats from the `i`-th on.
pub open spec fn listed_threats_from<F: FeatureSet>(
    seat: Seat<F>,
    threats: Seq<ThreatFeature>,
    width: int,
    i: int,
) -> Seq<u32>
    decreases threats.len() - i,
{
    if i >= threats.len() {
        Seq::empty()
    } else {
        let t = threats[i];
        threat_list(
            seat,
            t.attacker,
            t.victim,
            t.from.index as int,
            t.to.index as int,
            width,
        ) + listed_threats_from(seat, threats, width, i + 1)
    }
}

/// For each square of `set`, the offset of the pair that a pawn there forms with the pawn on `a`.
pub open spec fn pair_lists<F: FeatureSet>(
    seat: Seat<F>,
    a_colour: Colour,
    a: int,
    b_colour: Colour,
    set: spec_fn(int) -> bool,
    width: int,
) -> spec_fn(int) -> Seq<u32> {
    |b: int|
        if set(b) {
            seq![
                offset_at(seat.pair(a_colour, a, b_colour, b), width),
            ]
        } else {
            Seq::empty()
        }
}

/// The squares of `set`, as a predicate.
pub open spec fn squares_of(set: SquareSet) -> spec_fn(int) -> bool {
    |i: int| set.has(i)
}

/// The second pawns of `b_colour` for the fresh pawn of `side` on `a`.
pub open spec fn fresh_partners<F: FeatureSet>(
    seat: Seat<F>,
    now: Pawns,
    before: Pawns,
    side: Colour,
    a: int,
    b_colour: Colour,
) -> spec_fn(int) -> bool {
    |b: int|
        now(b_colour, b) && !is_taken(now, before, side, a, b) && seat.forms_pair(a, b)
}

/// For each fresh pawn of `side`, the offsets of the pairs that it forms.
pub open spec fn fresh_lists<F: FeatureSet>(
    seat: Seat<F>,
    now: Pawns,
    before: Pawns,
    side: Colour,
    width: int,
) -> spec_fn(int) -> Seq<u32> {
    |a: int|
        if is_fresh(now, before, side, a) {
            list_squares(
                pair_lists(
                    seat,
                    side,
                    a,
                    Colour::White,
                    fresh_partners(seat, now, before, side, a, Colour::White),
                    width,
                ),
            ) + list_squares(
                pair_lists(
                    seat,
                    side,
                    a,
                    Colour::Black,
                    fresh_partners(seat, now, before, side, a, Colour::Black),
                    width,
                ),
            )
        } else {
            Seq::empty()
        }
}

/// The offsets of the pairs in `now` of which one pawn at least is not in `before`.
pub open spec fn fresh_pair_list<F: FeatureSet>(
    seat: Seat<F>,
    now: Pawns,
    before: Pawns,
    width: int,
) -> Seq<u32> {
    list_squares(fresh_lists(seat, now, before, Colour::White, width))
        + list_squares(fresh_lists(seat, now, before, Colour::Black, width))
}

/// The offset of a feature in range fits 32 bits, and so do those of its lanes.
pub proof fn lemma_offset_fits<F: FeatureSet>(features: &F, feature: int, width: int)
    requires
        0 <= feature < features.aux_count(),
        0 <= width,
        table_fits(features, width),
    ensures
        0 <= feature * width,
        feature * width + width <= features.aux_count() * width <= u32::MAX,
        offset_at(feature, width) == feature * width,
        width <= u32::MAX,
{
    let count = features.aux_count() as int;
    assert(0 <= feature * width && feature * width + width <= count * width) by (nonlinear_arith)
        requires
            0 <= feature < count,
            0 <= width,
    ;
}

/// Equal lists join equally.
proof fn lemma_list_same(f: spec_fn(int) -> Seq<u32>, g: spec_fn(int) -> Seq<u32>, i: int)
    requires
        0 <= i <= 64,
        forall|t: int| i <= t < 64 ==> #[trigger] f(t) == g(t),
    ensures
        list_from(f, i) == list_from(g, i),
    decreases 64 - i,
{
    if i < 64 {
        lemma_list_same(f, g, i + 1);
    }
}

/// The offset of a feature.
fn feature_offset<const L1_SIZE: usize>(feature: u32) -> (offset: u32)
    requires
        L1_SIZE <= u32::MAX,
        feature * L1_SIZE <= u32::MAX,
    ensures
        offset == offset_at(feature as int, L1_SIZE as int),
        offset == feature * L1_SIZE,
{
    feature * (L1_SIZE as u32)
}

/// Appends the offset of a threat, where it is in use.
fn push_threat<F: FeatureSet, B: OffsetBuffer, const L1_SIZE: usize>(
    features: &F,
    colour: Colour,
    king: Square,
    threat: ThreatFeature,
    buffer: &mut B,
)
    requires
        king.wf(),
        threat.wf(),
        table_fits(features, L1_SIZE as int),
        old(buffer).offsets().len() + threat_list(
            seat_of(features, colour, king),
            threat.attacker,
            threat.victim,
            threat.from.index as int,
            threat.to.index as int,
            L1_SIZE as int,
        ).len() <= B::room(),
    ensures
        final(buffer).offsets() == old(buffer).offsets() + threat_list(
            seat_of(features, colour, king),
            threat.attacker,
            threat.victim,
            threat.from.index as int,
            threat.to.index as int,
            L1_SIZE as int,
        ),
{
    let ghost seat = seat_of(features, colour, king);
    let (good, number) = threat.index(features, colour, king);
    if good {
        let first = features.pawn_tuple_features();
        proof {
            features.counts_fit();
            features.threat_in_range(
                colour,
                king.index as int,
                threat.attacker,
                threat.victim,
                threat.from.index as int,
                threat.to.index as int,
            );
            lemma_offset_fits(features, first + number, L1_SIZE as int);
        }
        // Threats lie behind the pairs of pawns.
        buffer.push_offset(feature_offset::<L1_SIZE>(first + number));
    }
    proof {
        assert(buffer.offsets() =~= old(buffer).offsets() + threat_list(
            seat,
            threat.attacker,
            threat.victim,
            threat.from.index as int,
            threat.to.index as int,
            L1_SIZE as int,
        ));
    }
}

/// Appends the offsets of listed threats.
fn push_threats<F: FeatureSet, B: OffsetBuffer, const L1_SIZE: usize>(
    features: &F,
    colour: Colour,
    king: Square,
    threats: &Vec<ThreatFeature>,
    buffer: &mut B,
)
    requires
        king.wf(),
        forall|i: int| 0 <= i < threats@.len() ==> (#[trigger] threats@[i]).wf(),
        table_fits(features, L1_SIZE as int),
        old(buffer).offsets().len() + listed_threats_from(
            seat_of(features, colour, king),
            threats@,
            L1_SIZE as int,
            0,
        ).len() <= B::room(),
    ensures
        final(buffer).offsets() == old(buffer).offsets() + listed_threats_from(
            seat_of(features, colour, king),
            threats@,
            L1_SIZE as int,
            0,
        ),
{
    let ghost seat = seat_of(features, colour, king);
    let ghost width = L1_SIZE as int;
    let ghost goal = buffer.offsets() + listed_threats_from(seat, threats@, width, 0);
    let mut i: usize = 0;
    while i < threats.len()
        invariant
            king.wf(),
            seat == seat_of(features, colour, king),
            width == L1_SIZE,
            i <= threats@.len(),
            forall|j: int| 0 <= j < threats@.len() ==> (#[trigger] threats@[j]).wf(),
            table_fits(features, width),
            goal.len() <= B::room(),
            goal == buffer.offsets() + listed_threats_from(seat, threats@, width, i as int),
        decreases threats@.len() - i,
    {
        let threat = threats[i];
        let ghost before = buffer.offsets();
        push_threat::<F, B, L1_SIZE>(features, colour, king, threat, buffer);
        proof {
            let list = threat_list(
                seat,
                threat.attacker,
                threat.victim,
                threat.from.index as int,
                threat.to.index as int,
                width,
            );
            let rest = listed_threats_from(seat, threats@, width, i + 1);
            assert(before + (list + rest) =~= (before + list) + rest);
        }
        i += 1;
    }
    proof {
        assert(buffer.offsets() + Seq::<u32>::empty() =~= buffer.offsets());
    }
}

/// Appends the offsets of the threats that an update adds and removes.
pub(crate) fn add_threat_indexes<F: FeatureSet, const L1_SIZE: usize>(
    features: &F,
    updates: &AuxUpdateBuffer,
    king: Square,
    colour: Colour,
    adds: &mut ArrayVec<u32, 192>,
    subs: &mut ArrayVec<u32, 192>,
)
    requires
        king.wf(),
        updates.wf(),
        table_fits(features, L1_SIZE as int),
        update_offsets(*old(adds)).len() + listed_threats_from(
            seat_of(features, colour, king),
            updates.add@,
            L1_SIZE as int,
            0,
        ).len() <= 192,
        update_offsets(*old(subs)).len() + listed_threats_from(
            seat_of(features, colour, king),
            updates.sub@,
            L1_SIZE as int,
            0,
        ).len() <= 192,
    ensures
        update_offsets(*final(adds)) == update_offsets(*old(adds)) + listed_threats_from(
            seat_of(features, colour, king),
            updates.add@,
            L1_SIZE as int,
            0,
        ),
        update_offsets(*final(subs)) == update_offsets(*old(subs)) + listed_threats_from(
            seat_of(features, colour, king),
            updates.sub@,
            L1_SIZE as int,
            0,
        ),
{
    push_threats::<F, ArrayVec<u32, 192>, L1_SIZE>(features, colour, king, &updates.add, adds);
    push_threats::<F, ArrayVec<u32, 192>, L1_SIZE>(features, colour, king, &updates.sub, subs);
}

/// Appends the offsets of the pairs that the pawn on `a` forms with the pawns of `b_colour` on
/// the squares of `set`.
fn push_pairs<F: FeatureSet, B: OffsetBuffer, const L1_SIZE: usize>(
    features: &F,
    colour: Colour,
    king: Square,
    a_colour: Colour,
    a: Square,
    b_colour: Colour,
    set: SquareSet,
    buffer: &mut B,
)
    requires
        king.wf(),
        a.wf(),
        table_fits(features, L1_SIZE as int),
        old(buffer).offsets().len() + list_squares(
            pair_lists(
                seat_of(features, colour, king),
                a_colour,
                a.index as int,
                b_colour,
                squares_of(set),
                L1_SIZE as int,
            ),
        ).len() <= B::room(),
    ensures
        final(buffer).offsets() == old(buffer).offsets() + list_squares(
            pair_lists(
                seat_of(features, colour, king),
                a_colour,
                a.index as int,
                b_colour,
                squares_of(set),
                L1_SIZE as int,
            ),
        ),
{
    let ghost seat = seat_of(features, colour, king);
    let ghost width = L1_SIZE as int;
    let ghost lists = pair_lists(seat, a_colour, a.index as int, b_colour, squares_of(set), width);
    let ghost goal = buffer.offsets() + list_squares(lists);
    let ghost mut next: int = 0;
    let mut pending = set;
    while !pending.is_empty()
        invariant
            king.wf(),
            seat == seat_of(features, colour, king),
            a.wf(),
            width == L1_SIZE,
            table_fits(features, width),
            lists == pair_lists(seat, a_colour, a.index as int, b_colour, squares_of(set), width),
            0 <= next <= 64,
            forall|i: int| #[trigger] pending.has(i) <==> set.has(i) && next <= i,
            goal.len() <= B::room(),
            goal == buffer.offsets() + list_from(lists, next),
        decreases 64 - next,
    {
        let ghost all = pending;
        let b = pending.pop_first();
        let index = features.pawn_pawn_index(colour, king, a_colour, a, b_colour, b);
        let ghost before = buffer.offsets();
        let ghost sq = b.index as int;
        proof {
            assert forall|t: int| next <= t < sq implies (#[trigger] lists(t)).len() == 0 by {
                assert(!all.has(t));
            }
            lemma_list_skip(lists, next, sq);
            assert(all.has(sq));
            features.counts_fit();
            features.pawn_pair_in_range(
                colour,
                king.index as int,
                a_colour,
                a.index as int,
                b_colour,
                sq,
            );
            lemma_offset_fits(features, index as int, width);
            assert(lists(sq) =~= seq![offset_at(index as int, width)]);
        }
        buffer.push_offset(feature_offset::<L1_SIZE>(index as u32));
        proof {
            assert(before + (lists(sq) + list_from(lists, sq + 1)) =~= buffer.offsets()
                + list_from(lists, sq + 1));
            next = sq + 1;
        }
    }
    proof {
        assert forall|t: int| next <= t < 64 implies (#[trigger] lists(t)).len() == 0 by {
            assert(!pending.has(t));
        }
        lemma_list_skip(lists, next, 64);
        assert(buffer.offsets() + Seq::<u32>::empty() =~= buffer.offsets());
    }
}

/// Appends the offsets of the pairs with a fresh pawn of `side`, and takes those pawns out of
/// `remaining`.
fn push_fresh_side<F: FeatureSet, B: OffsetBuffer, const L1_SIZE: usize>(
    features: &F,
    colour: Colour,
    king: Square,
    now: [SquareSet; 2],
    before: [SquareSet; 2],
    side: Colour,
    remaining: &mut SquareSet,
    buffer: &mut B,
)
    requires
        king.wf(),
        table_fits(features, L1_SIZE as int),
        forall|i: int| #[trigger]
            old(remaining).has(i) <==> (now@[0].has(i) || now@[1].has(i)) && !(side == Colour::Black
                && is_fresh(pawns_of(now), pawns_of(before), Colour::White, i)),
        old(buffer).offsets().len() + list_squares(
            fresh_lists(
                seat_of(features, colour, king),
                pawns_of(now),
                pawns_of(before),
                side,
                L1_SIZE as int,
            ),
        ).len() <= B::room(),
    ensures
        forall|i: int| #[trigger]
            final(remaining).has(i) <==> old(remaining).has(i) && !is_fresh(
                pawns_of(now),
                pawns_of(before),
                side,
                i,
            ),
        final(buffer).offsets() == old(buffer).offsets() + list_squares(
            fresh_lists(
                seat_of(features, colour, king),
                pawns_of(now),
                pawns_of(before),
                side,
                L1_SIZE as int,
            ),
        ),
{
    let ghost seat = seat_of(features, colour, king);
    let ghost width = L1_SIZE as int;
    let ghost (p, q) = (pawns_of(now), pawns_of(before));
    let ghost lists = fresh_lists(seat, p, q, side, width);
    let ghost goal = buffer.offsets() + list_squares(lists);
    let ghost mut next: int = 0;
    let fresh = now[side.index()].without(before[side.index()]);
    let mut pending = fresh;
    while !pending.is_empty()
        invariant
            king.wf(),
            seat == seat_of(features, colour, king),
            width == L1_SIZE,
            table_fits(features, width),
            p == pawns_of(now),
            q == pawns_of(before),
            lists == fresh_lists(seat, p, q, side, width),
            0 <= next <= 64,
            forall|i: int| #[trigger] fresh.has(i) <==> is_fresh(p, q, side, i),
            forall|i: int| #[trigger] pending.has(i) <==> fresh.has(i) && next <= i,
            forall|i: int| #[trigger]
                old(remaining).has(i) <==> (now@[0].has(i) || now@[1].has(i)) && !(side
                    == Colour::Black && is_fresh(p, q, Colour::White, i)),
            forall|i: int| #[trigger]
                remaining.has(i) <==> old(remaining).has(i) && !(is_fresh(p, q, side, i) && i
                    < next),
            goal.len() <= B::room(),
            goal == buffer.offsets() + list_from(lists, next),
        decreases 64 - next,
    {
        let ghost all = pending;
        let a = pending.pop_first();
        let ghost sq = a.index as int;
        let ghost start = buffer.offsets();
        *remaining = remaining.without(a.as_set());
        let mask = features.pawn_pawn_mask(a.file()).intersect(*remaining);
        let white = now[0].intersect(mask);
        let black = now[1].intersect(mask);
        let ghost white_goal = list_squares(
            pair_lists(
                seat,
                side,
                sq,
                Colour::White,
                fresh_partners(seat, p, q, side, sq, Colour::White),
                width,
            ),
        );
        let ghost black_goal = list_squares(
            pair_lists(
                seat,
                side,
                sq,
                Colour::Black,
                fresh_partners(seat, p, q, side, sq, Colour::Black),
                width,
            ),
        );
        proof {
            assert forall|t: int| next <= t < sq implies (#[trigger] lists(t)).len() == 0 by {
                assert(!all.has(t));
                assert(!fresh.has(t));
            }
            lemma_list_skip(lists, next, sq);
            assert(all.has(sq));
            assert(fresh.has(sq));
            assert(lists(sq) == white_goal + black_goal);
            assert forall|i: int| #[trigger] remaining.has(i) <==> old(remaining).has(i) && !(
            is_fresh(p, q, side, i) && i < sq + 1) by {
                if next <= i < sq {
                    assert(!all.has(i));
                    assert(!fresh.has(i));
                }
            }
            assert forall|t: int| 0 <= t < 64 implies #[trigger] squares_of(white)(t)
                == fresh_partners(seat, p, q, side, sq, Colour::White)(t) by {
                assert(white.has(t) <==> now@[0].has(t) && mask.has(t));
                assert(mask.has(t) <==> features.pawn_mask(file_of(sq)).has(t) && remaining.has(t));
            }
            assert forall|t: int| 0 <= t < 64 implies #[trigger] squares_of(black)(t)
                == fresh_partners(seat, p, q, side, sq, Colour::Black)(t) by {
                assert(black.has(t) <==> now@[1].has(t) && mask.has(t));
                assert(mask.has(t) <==> features.pawn_mask(file_of(sq)).has(t) && remaining.has(t));
            }
            lemma_pair_lists_same(
                seat,
                side,
                sq,
                Colour::White,
                squares_of(white),
                fresh_partners(seat, p, q, side, sq, Colour::White),
                width,
            );
            lemma_pair_lists_same(
                seat,
                side,
                sq,
                Colour::Black,
                squares_of(black),
                fresh_partners(seat, p, q, side, sq, Colour::Black),
                width,
            );
            assert(goal == start + ((white_goal + black_goal) + list_from(lists, sq + 1)));
        }
        push_pairs::<F, B, L1_SIZE>(features, colour, king, side, a, Colour::White, white, buffer);
        push_pairs::<F, B, L1_SIZE>(features, colour, king, side, a, Colour::Black, black, buffer);
        proof {
            let rest = list_from(lists, sq + 1);
            assert(start + ((white_goal + black_goal) + rest) =~= ((start + white_goal)
                + black_goal) + rest);
            next = sq + 1;
        }
    }
    proof {
        assert forall|t: int| next <= t < 64 implies !is_fresh(p, q, side, t) by {
            assert(!pending.has(t));
            assert(!fresh.has(t));
        }
        lemma_list_skip(lists, next, 64);
        assert(buffer.offsets() + Seq::<u32>::empty() =~= buffer.offsets());
        assert forall|i: int| #[trigger] remaining.has(i) <==> old(remaining).has(i) && !is_fresh(
            p,
            q,
            side,
            i,
        ) by {
            if next <= i < 64 {
                assert(!is_fresh(p, q, side, i));
            }
        }
    }
}

/// Pawns on the same squares form the same pairs.
proof fn lemma_pair_lists_same<F: FeatureSet>(
    seat: Seat<F>,
    a_colour: Colour,
    a: int,
    b_colour: Colour,
    s: spec_fn(int) -> bool,
    t: spec_fn(int) -> bool,
    width: int,
)
    requires
        forall|i: int| 0 <= i < 64 ==> #[trigger] s(i) == t(i),
    ensures
        list_squares(pair_lists(seat, a_colour, a, b_colour, s, width))
            == list_squares(pair_lists(seat, a_colour, a, b_colour, t, width)),
{
    let f = pair_lists(seat, a_colour, a, b_colour, s, width);
    let g = pair_lists(seat, a_colour, a, b_colour, t, width);
    assert forall|i: int| 0 <= i < 64 implies #[trigger] f(i) == g(i) by {
        assert(s(i) == t(i));
    }
    lemma_list_same(f, g, 0);
}

/// Appends the offsets of the pairs in `now` of which one pawn at least is not in `before`.
fn push_fresh_pairs<F: FeatureSet, B: OffsetBuffer, const L1_SIZE: usize>(
    features: &F,
    colour: Colour,
    king: Square,
    now: [SquareSet; 2],
    before: [SquareSet; 2],
    buffer: &mut B,
)
    requires
        king.wf(),
        table_fits(features, L1_SIZE as int),
        old(buffer).offsets().len() + fresh_pair_list(
            seat_of(features, colour, king),
            pawns_of(now),
            pawns_of(before),
            L1_SIZE as int,
        ).len() <= B::room(),
    ensures
        final(buffer).offsets() == old(buffer).offsets() + fresh_pair_list(
            seat_of(features, colour, king),
            pawns_of(now),
            pawns_of(before),
            L1_SIZE as int,
        ),
{
    let ghost seat = seat_of(features, colour, king);
    let mut remaining = now[0].union(now[1]);
    push_fresh_side::<F, B, L1_SIZE>(
        features,
        colour,
        king,
        now,
        before,
        Colour::White,
        &mut remaining,
        buffer,
    );
    push_fresh_side::<F, B, L1_SIZE>(
        features,
        colour,
        king,
        now,
        before,
        Colour::Black,
        &mut remaining,
        buffer,
    );
    proof {
        assert(buffer.offsets() =~= old(buffer).offsets() + fresh_pair_list(
            seat,
            pawns_of(now),
            pawns_of(before),
            L1_SIZE as int,
        ));
    }
}

/// Appends the offsets of the pairs of pawns that an update adds and removes.
pub(crate) fn add_pawn_pawn_indexes<F: FeatureSet, const L1_SIZE: usize>(
    features: &F,
    updates: &AuxUpdateBuffer,
    king: Square,
    colour: Colour,
    adds: &mut ArrayVec<u32, 192>,
    subs: &mut ArrayVec<u32, 192>,
)
    requires
        king.wf(),
        table_fits(features, L1_SIZE as int),
        update_offsets(*old(adds)).len() + fresh_pair_list(
            seat_of(features, colour, king),
            pawns_of(updates.after),
            pawns_of(updates.afore),
            L1_SIZE as int,
        ).len() <= 192,
        update_offsets(*old(subs)).len() + fresh_pair_list(
            seat_of(features, colour, king),
            pawns_of(updates.afore),
            pawns_of(updates.after),
            L1_SIZE as int,
        ).len() <= 192,
    ensures
        update_offsets(*final(adds)) == update_offsets(*old(adds)) + fresh_pair_list(
            seat_of(features, colour, king),
            pawns_of(updates.after),
            pawns_of(updates.afore),
            L1_SIZE as int,
        ),
        update_offsets(*final(subs)) == update_offsets(*old(subs)) + fresh_pair_list(
            seat_of(features, colour, king),
            pawns_of(updates.afore),
            pawns_of(updates.after),
            L1_SIZE as int,
        ),
{
    push_fresh_pairs::<F, ArrayVec<u32, 192>, L1_SIZE>(
        features,
        colour,
        king,
        updates.after,
        updates.afore,
        adds,
    );
    push_fresh_pairs::<F, ArrayVec<u32, 192>, L1_SIZE>(
        features,
        colour,
        king,
        updates.afore,
        updates.after,
        subs,
    );
}

/// For each square that the piece on `from` threatens, the offset of that threat.
pub open spec fn threat_row<F: FeatureSet>(
    seat: Seat<F>,
    board: Board,
    from: int,
    width: int,
) -> spec_fn(int) -> Seq<u32> {
    |to: int|
        if threatens(board, from, to) {
            threat_list(seat, board.piece_at(from), board.piece_at(to), from, to, width)
        } else {
            Seq::empty()
        }
}

/// For each square that holds a piece other than a king, the offsets of the threats of that piece.
pub open spec fn threat_rows<F: FeatureSet>(
    seat: Seat<F>,
    board: Board,
    width: int,
) -> spec_fn(int) -> Seq<u32> {
    |from: int|
        if board.bbs.has_man(from) {
            list_squares(threat_row(seat, board, from, width))
        } else {
            Seq::empty()
        }
}

/// The second pawns, of the same side and on higher squares, for the pawn of `side` on `a`.
pub open spec fn same_side_partners<F: FeatureSet>(
    seat: Seat<F>,
    pawns: Pawns,
    side: Colour,
    a: int,
) -> spec_fn(int) -> bool {
    |b: int| a < b && pawns(side, b) && seat.forms_pair(a, b)
}

/// The second pawns, of the side other than `side`, for the pawn on `a`.
pub open spec fn cross_partners<F: FeatureSet>(
    seat: Seat<F>,
    pawns: Pawns,
    side: Colour,
    a: int,
) -> spec_fn(int) -> bool {
    |b: int| pawns(side.other(), b) && seat.forms_pair(a, b)
}

/// For each pawn of the side that looks, the offsets of its pairs: those with later pawns of the
/// same side, then those with pawns of the other side.
pub open spec fn our_pair_lists<F: FeatureSet>(
    seat: Seat<F>,
    pawns: Pawns,
    width: int,
) -> spec_fn(int) -> Seq<u32> {
    |a: int|
        if pawns(seat.colour, a) {
            list_squares(
                pair_lists(
                    seat,
                    seat.colour,
                    a,
                    seat.colour,
                    same_side_partners(seat, pawns, seat.colour, a),
                    width,
                ),
            ) + list_squares(
                pair_lists(
                    seat,
                    seat.colour,
                    a,
                    seat.colour.other(),
                    cross_partners(seat, pawns, seat.colour, a),
                    width,
                ),
            )
        } else {
            Seq::empty()
        }
}

/// For each pawn of the other side, the offsets of its pairs with later pawns of that side.
pub open spec fn their_pair_lists<F: FeatureSet>(
    seat: Seat<F>,
    pawns: Pawns,
    width: int,
) -> spec_fn(int) -> Seq<u32> {
    |a: int|
        if pawns(seat.colour.other(), a) {
            list_squares(
                pair_lists(
                    seat,
                    seat.colour.other(),
                    a,
                    seat.colour.other(),
                    same_side_partners(seat, pawns, seat.colour.other(), a),
                    width,
                ),
            )
        } else {
            Seq::empty()
        }
}

/// The offsets of the auxiliary features of a board.
pub open spec fn board_list<F: FeatureSet>(seat: Seat<F>, board: Board, width: int) -> Seq<u32> {
    list_squares(threat_rows(seat, board, width)) + list_squares(
        our_pair_lists(seat, board_pawns(board), width),
    ) + list_squares(their_pair_lists(seat, board_pawns(board), width))
}

/// Appends the offsets of the threats of the piece on `from` against the squares of `targets`.
fn push_threat_row<F: FeatureSet, B: OffsetBuffer, const L1_SIZE: usize>(
    features: &F,
    colour: Colour,
    king: Square,
    board: &Board,
    from: Square,
    targets: SquareSet,
    buffer: &mut B,
)
    requires
        king.wf(),
        from.wf(),
        table_fits(features, L1_SIZE as int),
        board.names_its_men(),
        board.bbs.has_man(from.index as int),
        forall|i: int| #[trigger] targets.has(i) <==> threatens(*board, from.index as int, i),
        old(buffer).offsets().len() + list_squares(
            threat_row(seat_of(features, colour, king), *board, from.index as int, L1_SIZE as int),
        ).len() <= B::room(),
    ensures
        final(buffer).offsets() == old(buffer).offsets() + list_squares(
            threat_row(seat_of(features, colour, king), *board, from.index as int, L1_SIZE as int),
        ),
{
    let ghost seat = seat_of(features, colour, king);
    let ghost width = L1_SIZE as int;
    let ghost f = from.index as int;
    let ghost lists = threat_row(seat, *board, f, width);
    let ghost goal = buffer.offsets() + list_squares(lists);
    let ghost mut next: int = 0;
    let attacker = board.mailbox[from.index as usize].unwrap();
    let mut pending = targets;
    while !pending.is_empty()
        invariant
            king.wf(),
            from.wf(),
            seat == seat_of(features, colour, king),
            f == from.index,
            width == L1_SIZE,
            table_fits(features, width),
            board.names_its_men(),
            attacker == board.piece_at(f),
            lists == threat_row(seat, *board, f, width),
            forall|i: int| #[trigger] targets.has(i) <==> threatens(*board, f, i),
            0 <= next <= 64,
            forall|i: int| #[trigger] pending.has(i) <==> targets.has(i) && next <= i,
            goal.len() <= B::room(),
            goal == buffer.offsets() + list_from(lists, next),
        decreases 64 - next,
    {
        let ghost all = pending;
        let to = pending.pop_first();
        let ghost sq = to.index as int;
        let ghost start = buffer.offsets();
        proof {
            assert forall|t: int| next <= t < sq implies (#[trigger] lists(t)).len() == 0 by {
                assert(!all.has(t));
                assert(!targets.has(t));
            }
            lemma_list_skip(lists, next, sq);
            assert(all.has(sq));
            assert(targets.has(sq));
        }
        let victim = board.mailbox[to.index as usize].unwrap();
        let threat = ThreatFeature { attacker, victim, from, to };
        push_threat::<F, B, L1_SIZE>(features, colour, king, threat, buffer);
        proof {
            let rest = list_from(lists, sq + 1);
            assert(start + (lists(sq) + rest) =~= (start + lists(sq)) + rest);
            next = sq + 1;
        }
    }
    proof {
        assert forall|t: int| next <= t < 64 implies (#[trigger] lists(t)).len() == 0 by {
            assert(!pending.has(t));
            assert(!targets.has(t));
        }
        lemma_list_skip(lists, next, 64);
        assert(buffer.offsets() + Seq::<u32>::empty() =~= buffer.offsets());
    }
}

/// Appends the offsets of the threats on a board.
fn push_board_threats<F: FeatureSet, B: OffsetBuffer, const L1_SIZE: usize>(
    features: &F,
    colour: Colour,
    king: Square,
    board: &Board,
    buffer: &mut B,
)
    requires
        king.wf(),
        table_fits(features, L1_SIZE as int),
        board.names_its_men(),
        old(buffer).offsets().len() + list_squares(
            threat_rows(seat_of(features, colour, king), *board, L1_SIZE as int),
        ).len() <= B::room(),
    ensures
        final(buffer).offsets() == old(buffer).offsets() + list_squares(
            threat_rows(seat_of(features, colour, king), *board, L1_SIZE as int),
        ),
{
    let ghost seat = seat_of(features, colour, king);
    let ghost width = L1_SIZE as int;
    let ghost lists = threat_rows(seat, *board, width);
    let ghost goal = buffer.offsets() + list_squares(lists);
    let ghost mut next: int = 0;
    let occupied = board.bbs.occupied();
    let men = occupied.without(board.bbs.of_type(PieceType::King));
    let mut pending = men;
    while !pending.is_empty()
        invariant
            king.wf(),
            seat == seat_of(features, colour, king),
            width == L1_SIZE,
            table_fits(features, width),
            board.names_its_men(),
            occupied == board.bbs.blockers(),
            lists == threat_rows(seat, *board, width),
            forall|i: int| #[trigger] men.has(i) <==> board.bbs.has_man(i),
            0 <= next <= 64,
            forall|i: int| #[trigger] pending.has(i) <==> men.has(i) && next <= i,
            goal.len() <= B::room(),
            goal == buffer.offsets() + list_from(lists, next),
        decreases 64 - next,
    {
        let ghost all = pending;
        let from = pending.pop_first();
        let ghost sq = from.index as int;
        let ghost start = buffer.offsets();
        proof {
            assert forall|t: int| next <= t < sq implies (#[trigger] lists(t)).len() == 0 by {
                assert(!all.has(t));
                assert(!men.has(t));
            }
            lemma_list_skip(lists, next, sq);
            assert(all.has(sq));
            assert(men.has(sq));
            assert(board.bbs.has_man(sq));
        }
        let attacker = board.mailbox[from.index as usize].unwrap();
        let targets = attacks_by_type(attacker, from, occupied).intersect(men);
        push_threat_row::<F, B, L1_SIZE>(features, colour, king, board, from, targets, buffer);
        proof {
            let rest = list_from(lists, sq + 1);
            assert(start + (lists(sq) + rest) =~= (start + lists(sq)) + rest);
            next = sq + 1;
        }
    }
    proof {
        assert forall|t: int| next <= t < 64 implies (#[trigger] lists(t)).len() == 0 by {
            assert(!pending.has(t));
            assert(!men.has(t));
        }
        lemma_list_skip(lists, next, 64);
        assert(buffer.offsets() + Seq::<u32>::empty() =~= buffer.offsets());
    }
}

/// Appends the offsets of the pairs with a pawn of `colour`.
fn push_our_pairs<F: FeatureSet, B: OffsetBuffer, const L1_SIZE: usize>(
    features: &F,
    colour: Colour,
    king: Square,
    our_pawns: SquareSet,
    their_pawns: SquareSet,
    Ghost(pawns): Ghost<Pawns>,
    buffer: &mut B,
)
    requires
        king.wf(),
        table_fits(features, L1_SIZE as int),
        forall|i: int| #[trigger] our_pawns.has(i) <==> pawns(colour, i),
        forall|i: int| #[trigger] their_pawns.has(i) <==> pawns(colour.other(), i),
        old(buffer).offsets().len() + list_squares(
            our_pair_lists(seat_of(features, colour, king), pawns, L1_SIZE as int),
        ).len() <= B::room(),
    ensures
        final(buffer).offsets() == old(buffer).offsets() + list_squares(
            our_pair_lists(seat_of(features, colour, king), pawns, L1_SIZE as int),
        ),
{
    let ghost seat = seat_of(features, colour, king);
    let ghost width = L1_SIZE as int;
    let ghost lists = our_pair_lists(seat, pawns, width);
    let ghost goal = buffer.offsets() + list_squares(lists);
    let ghost mut next: int = 0;
    let mut pending = our_pawns;
    while !pending.is_empty()
        invariant
            king.wf(),
            seat == seat_of(features, colour, king),
            width == L1_SIZE,
            table_fits(features, width),
            lists == our_pair_lists(seat, pawns, width),
            forall|i: int| #[trigger] our_pawns.has(i) <==> pawns(colour, i),
            forall|i: int| #[trigger] their_pawns.has(i) <==> pawns(colour.other(), i),
            0 <= next <= 64,
            forall|i: int| #[trigger] pending.has(i) <==> our_pawns.has(i) && next <= i,
            goal.len() <= B::room(),
            goal == buffer.offsets() + list_from(lists, next),
        decreases 64 - next,
    {
        let ghost all = pending;
        let a = pending.pop_first();
        let ghost sq = a.index as int;
        let ghost start = buffer.offsets();
        let mask = features.pawn_pawn_mask(a.file());
        let ours = pending.intersect(mask);
        let theirs = their_pawns.intersect(mask);
        let ghost partners = same_side_partners(seat, pawns, colour, sq);
        let ghost opponents = cross_partners(seat, pawns, colour, sq);
        let ghost first = list_squares(pair_lists(seat, colour, sq, colour, partners, width));
        let ghost second = list_squares(
            pair_lists(seat, colour, sq, colour.other(), opponents, width),
        );
        proof {
            assert forall|t: int| next <= t < sq implies (#[trigger] lists(t)).len() == 0 by {
                assert(!all.has(t));
                assert(!our_pawns.has(t));
            }
            lemma_list_skip(lists, next, sq);
            assert(all.has(sq));
            assert(our_pawns.has(sq));
            assert(lists(sq) == first + second);
            assert forall|t: int| 0 <= t < 64 implies #[trigger] squares_of(ours)(t) == partners(
                t,
            ) by {
                assert(ours.has(t) <==> pending.has(t) && mask.has(t));
                if our_pawns.has(t) && t < sq {
                    assert(!all.has(t));
                }
            }
            assert forall|t: int| 0 <= t < 64 implies #[trigger] squares_of(theirs)(t)
                == opponents(t) by {
                assert(theirs.has(t) <==> their_pawns.has(t) && mask.has(t));
            }
            lemma_pair_lists_same(seat, colour, sq, colour, squares_of(ours), partners, width);
            lemma_pair_lists_same(
                seat,
                colour,
                sq,
                colour.other(),
                squares_of(theirs),
                opponents,
                width,
            );
            assert(goal == start + ((first + second) + list_from(lists, sq + 1)));
        }
        push_pairs::<F, B, L1_SIZE>(features, colour, king, colour, a, colour, ours, buffer);
        push_pairs::<F, B, L1_SIZE>(
            features,
            colour,
            king,
            colour,
            a,
            colour.flip(),
            theirs,
            buffer,
        );
        proof {
            let rest = list_from(lists, sq + 1);
            assert(start + ((first + second) + rest) =~= ((start + first) + second) + rest);
            next = sq + 1;
        }
    }
    proof {
        assert forall|t: int| next <= t < 64 implies (#[trigger] lists(t)).len() == 0 by {
            assert(!pending.has(t));
            assert(!our_pawns.has(t));
        }
        lemma_list_skip(lists, next, 64);
        assert(buffer.offsets() + Seq::<u32>::empty() =~= buffer.offsets());
    }
}

/// Appends the offsets of the pairs of two pawns of the side other than `colour`.
fn push_their_pairs<F: FeatureSet, B: OffsetBuffer, const L1_SIZE: usize>(
    features: &F,
    colour: Colour,
    king: Square,
    their_pawns: SquareSet,
    Ghost(pawns): Ghost<Pawns>,
    buffer: &mut B,
)
    requires
        king.wf(),
        table_fits(features, L1_SIZE as int),
        forall|i: int| #[trigger] their_pawns.has(i) <==> pawns(colour.other(), i),
        old(buffer).offsets().len() + list_squares(
            their_pair_lists(seat_of(features, colour, king), pawns, L1_SIZE as int),
        ).len() <= B::room(),
    ensures
        final(buffer).offsets() == old(buffer).offsets() + list_squares(
            their_pair_lists(seat_of(features, colour, king), pawns, L1_SIZE as int),
        ),
{
    let ghost seat = seat_of(features, colour, king);
    let ghost width = L1_SIZE as int;
    let ghost lists = their_pair_lists(seat, pawns, width);
    let ghost goal = buffer.offsets() + list_squares(lists);
    let ghost mut next: int = 0;
    let mut pending = their_pawns;
    while !pending.is_empty()
        invariant
            king.wf(),
            seat == seat_of(features, colour, king),
            width == L1_SIZE,
            table_fits(features, width),
            lists == their_pair_lists(seat, pawns, width),
            forall|i: int| #[trigger] their_pawns.has(i) <==> pawns(colour.other(), i),
            0 <= next <= 64,
            forall|i: int| #[trigger] pending.has(i) <==> their_pawns.has(i) && next <= i,
            goal.len() <= B::room(),
            goal == buffer.offsets() + list_from(lists, next),
        decreases 64 - next,
    {
        let ghost all = pending;
        let a = pending.pop_first();
        let ghost sq = a.index as int;
        let ghost start = buffer.offsets();
        let mask = features.pawn_pawn_mask(a.file());
        let theirs = pending.intersect(mask);
        let ghost partners = same_side_partners(seat, pawns, colour.other(), sq);
        proof {
            assert forall|t: int| next <= t < sq implies (#[trigger] lists(t)).len() == 0 by {
                assert(!all.has(t));
                assert(!their_pawns.has(t));
            }
            lemma_list_skip(lists, next, sq);
            assert(all.has(sq));
            assert(their_pawns.has(sq));
            assert forall|t: int| 0 <= t < 64 implies #[trigger] squares_of(theirs)(t) == partners(
                t,
            ) by {
                assert(theirs.has(t) <==> pending.has(t) && mask.has(t));
                if their_pawns.has(t) && t < sq {
                    assert(!all.has(t));
                }
            }
            lemma_pair_lists_same(
                seat,
                colour.other(),
                sq,
                colour.other(),
                squares_of(theirs),
                partners,
                width,
            );
        }
        push_pairs::<F, B, L1_SIZE>(
            features,
            colour,
            king,
            colour.flip(),
            a,
            colour.flip(),
            theirs,
            buffer,
        );
        proof {
            let rest = list_from(lists, sq + 1);
            assert(start + (lists(sq) + rest) =~= (start + lists(sq)) + rest);
            next = sq + 1;
        }
    }
    proof {
        assert forall|t: int| next <= t < 64 implies (#[trigger] lists(t)).len() == 0 by {
            assert(!pending.has(t));
            assert(!their_pawns.has(t));
        }
        lemma_list_skip(lists, next, 64);
        assert(buffer.offsets() + Seq::<u32>::empty() =~= buffer.offsets());
    }
}

/// Appends the offsets of the auxiliary features of a board.
pub(crate) fn add_board_indexes<F: FeatureSet, B: OffsetBuffer, const L1_SIZE: usize>(
    features: &F,
    board: &Board,
    king: Square,
    colour: Colour,
    buffer: &mut B,
)
    requires
        king.wf(),
        table_fits(features, L1_SIZE as int),
        board.names_its_men(),
        old(buffer).offsets().len() + board_list(
            seat_of(features, colour, king),
            *board,
            L1_SIZE as int,
        ).len() <= B::room(),
    ensures
        final(buffer).offsets() == old(buffer).offsets() + board_list(
            seat_of(features, colour, king),
            *board,
            L1_SIZE as int,
        ),
{
    let ghost seat = seat_of(features, colour, king);
    let ghost pawns = board_pawns(*board);
    push_board_threats::<F, B, L1_SIZE>(features, colour, king, board, buffer);
    let all_pawns = board.bbs.of_type(PieceType::Pawn);
    let our_pawns = all_pawns.intersect(board.bbs.of_colour(colour));
    let their_pawns = all_pawns.intersect(board.bbs.of_colour(colour.flip()));
    push_our_pairs::<F, B, L1_SIZE>(
        features,
        colour,
        king,
        our_pawns,
        their_pawns,
        Ghost(pawns),
        buffer,
    );
    push_their_pairs::<F, B, L1_SIZE>(features, colour, king, their_pawns, Ghost(pawns), buffer);
    proof {
        assert(buffer.offsets() =~= old(buffer).offsets() + board_list(
            seat,
            *board,
            L1_SIZE as int,
        ));
    }
}

} // verus!
