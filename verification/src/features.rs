//! Input features of the network, and the sums of their weights.

use crate::attacks::attacks;
use crate::board::{Board, Colour, Piece, PieceType};
use crate::squares::{file_of, Square, SquareSet};
use crate::sums::{sum_of, sum_pairs};
use vstd::prelude::*;

verus! {

/// The number of a piece-square feature within a bucket.
#[derive(Clone, Copy, Debug, PartialEq, Eq, Structural)]
pub struct PsqtFeatureIndex {
    pub number: u16,
}

impl PsqtFeatureIndex {
    /// The number of the feature.
    pub fn index(self) -> (index: usize)
        ensures
            index == self.number,
    {
        self.number as usize
    }
}

/// One piece attacks another: the feature of `attacker` on `from` and `victim` on `to`.
#[derive(Clone, Copy, Debug, PartialEq, Eq, Structural)]
pub struct ThreatFeature {
    pub attacker: Piece,
    pub victim: Piece,
    pub from: Square,
    pub to: Square,
}

impl ThreatFeature {
    /// Both squares are on the board.
    pub open spec fn wf(self) -> bool {
        self.from.wf() && self.to.wf()
    }

    /// The number of the feature as `colour` sees it, with its king on `king`, and whether the
    /// feature is in use.
    pub fn index<F: FeatureSet>(
        self,
        features: &F,
        colour: Colour,
        king: Square,
    ) -> (r: (bool, u32))
        requires
            self.wf(),
            king.wf(),
        ensures
            r == features.threat(
                colour,
                king.index as int,
                self.attacker,
                self.victim,
                self.from.index as int,
                self.to.index as int,
            ),
    {
        features.threat_index(colour, king, self.attacker, self.victim, self.from, self.to)
    }
}

/// What a move changes: the threats that appear and vanish, and the pawns of each side (White
/// first) before and after.
#[derive(Debug)]
pub struct AuxUpdateBuffer {
    pub add: Vec<ThreatFeature>,
    pub sub: Vec<ThreatFeature>,
    pub afore: [SquareSet; 2],
    pub after: [SquareSet; 2],
}

impl AuxUpdateBuffer {
    /// Every threat is on the board.
    pub open spec fn wf(self) -> bool {
        &&& forall|i: int| 0 <= i < self.add@.len() ==> (#[trigger] self.add@[i]).wf()
        &&& forall|i: int| 0 <= i < self.sub@.len() ==> (#[trigger] self.sub@[i]).wf()
    }

    /// Nothing changes.
    pub open spec fn is_unchanged(self) -> bool {
        self.add@.len() == 0 && self.sub@.len() == 0 && self.afore@ == self.after@
    }
}

/// Pawns of both sides, as a predicate on sides and squares.
pub type Pawns = spec_fn(Colour, int) -> bool;

/// The pawns of two sets, White's first.
pub open spec fn pawns_of(sets: [SquareSet; 2]) -> Pawns {
    |colour: Colour, sq: int| sets@[colour.place()].has(sq)
}

/// The pawns of a board.
pub open spec fn board_pawns(board: Board) -> Pawns {
    |colour: Colour, sq: int| board.bbs.has_piece(PieceType::Pawn, colour, sq)
}

/// A numbering of the auxiliary features: pairs of pawns come first, then threats.
///
/// Features are seen from one side, and may depend on the square of the king of that side.
pub trait FeatureSet: Sized {
    /// How many numbers the pairs of pawns take.
    spec fn pawn_tuple_count(&self) -> nat;

    /// How many numbers all the auxiliary features take.
    spec fn aux_count(&self) -> nat;

    /// The number of a threat, counted from the first threat, and whether it is in use.
    spec fn threat(
        &self,
        colour: Colour,
        king: int,
        attacker: Piece,
        victim: Piece,
        from: int,
        to: int,
    ) -> (bool, u32);

    /// The number of a pair of pawns.
    spec fn pawn_pair(
        &self,
        colour: Colour,
        king: int,
        a_colour: Colour,
        a: int,
        b_colour: Colour,
        b: int,
    ) -> u16;

    /// The squares on which a second pawn forms a pair with a pawn on that file.
    spec fn pawn_mask(&self, file: int) -> SquareSet;

    /// The numbers of features fit 32 bits.
    proof fn counts_fit(&self)
        ensures
            self.pawn_tuple_count() <= self.aux_count() <= u32::MAX,
    ;

    /// A threat in use has a number of its own behind the pairs of pawns.
    proof fn threat_in_range(
        &self,
        colour: Colour,
        king: int,
        attacker: Piece,
        victim: Piece,
        from: int,
        to: int,
    )
        requires
            0 <= king < 64,
            0 <= from < 64,
            0 <= to < 64,
        ensures
            self.threat(colour, king, attacker, victim, from, to).0 ==> self.pawn_tuple_count()
                + self.threat(colour, king, attacker, victim, from, to).1 < self.aux_count(),
    ;

    /// A pair of pawns has a number among the pairs.
    proof fn pawn_pair_in_range(
        &self,
        colour: Colour,
        king: int,
        a_colour: Colour,
        a: int,
        b_colour: Colour,
        b: int,
    )
        requires
            0 <= king < 64,
            0 <= a < 64,
            0 <= b < 64,
        ensures
            self.pawn_pair(colour, king, a_colour, a, b_colour, b) < self.pawn_tuple_count(),
    ;

    fn pawn_tuple_features(&self) -> (count: u32)
        ensures
            count == self.pawn_tuple_count(),
    ;

    fn threat_index(
        &self,
        colour: Colour,
        king: Square,
        attacker: Piece,
        victim: Piece,
        from: Square,
        to: Square,
    ) -> (r: (bool, u32))
        requires
            king.wf(),
            from.wf(),
            to.wf(),
        ensures
            r == self.threat(
                colour,
                king.index as int,
                attacker,
                victim,
                from.index as int,
                to.index as int,
            ),
    ;

    fn pawn_pawn_index(
        &self,
        colour: Colour,
        king: Square,
        a_colour: Colour,
        a: Square,
        b_colour: Colour,
        b: Square,
    ) -> (r: u16)
        requires
            king.wf(),
            a.wf(),
            b.wf(),
        ensures
            r == self.pawn_pair(
                colour,
                king.index as int,
                a_colour,
                a.index as int,
                b_colour,
                b.index as int,
            ),
    ;

    fn pawn_pawn_mask(&self, file: usize) -> (mask: SquareSet)
        requires
            file < 8,
        ensures
            mask == self.pawn_mask(file as int),
    ;
}

/// A numbering that does not tell the two pawns of a pair apart.
pub open spec fn is_symmetric<F: FeatureSet>(features: &F) -> bool {
    &&& forall|colour: Colour, king: int, a_colour: Colour, a: int, b_colour: Colour, b: int|
        #![trigger features.pawn_pair(colour, king, a_colour, a, b_colour, b)]
        0 <= king < 64 && 0 <= a < 64 && 0 <= b < 64 ==> features.pawn_pair(
            colour,
            king,
            a_colour,
            a,
            b_colour,
            b,
        ) == features.pawn_pair(colour, king, b_colour, b, a_colour, a)
    &&& forall|a: int, b: int|
        #![trigger features.pawn_mask(file_of(a)).has(b)]
        0 <= a < 64 && 0 <= b < 64 ==> features.pawn_mask(file_of(a)).has(b)
            == features.pawn_mask(file_of(b)).has(a)
}

/// A side that looks at the board, with its king on square `king`, and the numbering that it uses.
#[verifier::reject_recursive_types(F)]
pub struct Seat<F> {
    pub features: F,
    pub colour: Colour,
    pub king: int,
}

impl<F: FeatureSet> Seat<F> {
    /// The number of a pair of pawns.
    pub open spec fn pair(self, a_colour: Colour, a: int, b_colour: Colour, b: int) -> int {
        self.features.pawn_pair(self.colour, self.king, a_colour, a, b_colour, b) as int
    }

    /// A pawn on `a` and a second on `b` form a pair.
    pub open spec fn forms_pair(self, a: int, b: int) -> bool {
        self.features.pawn_mask(file_of(a)).has(b)
    }
}

/// The seat of `colour` with its king on `king`.
pub open spec fn seat_of<F: FeatureSet>(features: &F, colour: Colour, king: Square) -> Seat<F> {
    Seat { features: *features, colour, king: king.index as int }
}

/// The seat of `colour` on a board.
pub open spec fn seat_on<F: FeatureSet>(features: &F, colour: Colour, board: Board) -> Seat<F> {
    Seat { features: *features, colour, king: board.bbs.king_square(colour) }
}

/// What a threat adds to the sum of `weight`: nothing, where it is not in use.
pub open spec fn threat_term<F: FeatureSet>(
    seat: Seat<F>,
    attacker: Piece,
    victim: Piece,
    from: int,
    to: int,
    weight: spec_fn(int) -> int,
) -> int {
    let (good, number) = seat.features.threat(seat.colour, seat.king, attacker, victim, from, to);
    if good {
        weight(seat.features.pawn_tuple_count() + number)
    } else {
        0
    }
}

/// What each threat adds to the sum of `weight`.
pub open spec fn listed_term<F: FeatureSet>(
    seat: Seat<F>,
    weight: spec_fn(int) -> int,
) -> spec_fn(ThreatFeature) -> int {
    |t: ThreatFeature|
        threat_term(seat, t.attacker, t.victim, t.from.index as int, t.to.index as int, weight)
}

/// The sum of `weight` over listed threats.
pub open spec fn listed_threat_sum<F: FeatureSet>(
    seat: Seat<F>,
    threats: Seq<ThreatFeature>,
    weight: spec_fn(int) -> int,
) -> int {
    sum_of(threats, listed_term(seat, weight))
}

/// On `board`, the piece on `from` attacks the piece on `to`, and neither is a king.
pub open spec fn threatens(board: Board, from: int, to: int) -> bool {
    &&& board.bbs.has_man(from)
    &&& board.bbs.has_man(to)
    &&& attacks(board.piece_at(from), from, board.bbs.blockers(), to)
}

/// The sum of `weight` over the threats on a board.
pub open spec fn board_threat_sum<F: FeatureSet>(
    seat: Seat<F>,
    board: Board,
    weight: spec_fn(int) -> int,
) -> int {
    sum_pairs(
        |from: int, to: int|
            if threatens(board, from, to) {
                threat_term(seat, board.piece_at(from), board.piece_at(to), from, to, weight)
            } else {
                0
            },
    )
}

/// What a pawn on `a` and a second on `b` add to the sum of `weight`: nothing, where they do not
/// form a pair.
pub open spec fn pair_term<F: FeatureSet>(
    seat: Seat<F>,
    a_colour: Colour,
    a: int,
    b_colour: Colour,
    b: int,
    weight: spec_fn(int) -> int,
) -> int {
    if seat.forms_pair(a, b) {
        weight(seat.pair(a_colour, a, b_colour, b))
    } else {
        0
    }
}

/// The sum of `weight` over the pairs of two pawns of `side`, the lower square first.
pub open spec fn same_side_pair_sum<F: FeatureSet>(
    seat: Seat<F>,
    pawns: Pawns,
    side: Colour,
    weight: spec_fn(int) -> int,
) -> int {
    sum_pairs(
        |a: int, b: int|
            if a < b && pawns(side, a) && pawns(side, b) {
                pair_term(seat, side, a, side, b, weight)
            } else {
                0
            },
    )
}

/// The sum of `weight` over the pairs of a pawn of the side that looks and one of the other.
pub open spec fn cross_pair_sum<F: FeatureSet>(
    seat: Seat<F>,
    pawns: Pawns,
    weight: spec_fn(int) -> int,
) -> int {
    sum_pairs(
        |a: int, b: int|
            if pawns(seat.colour, a) && pawns(seat.colour.other(), b) {
                pair_term(seat, seat.colour, a, seat.colour.other(), b, weight)
            } else {
                0
            },
    )
}

/// The sum of `weight` over all pairs of pawns.
pub open spec fn pawn_pair_sum<F: FeatureSet>(
    seat: Seat<F>,
    pawns: Pawns,
    weight: spec_fn(int) -> int,
) -> int {
    same_side_pair_sum(seat, pawns, seat.colour, weight)
        + cross_pair_sum(seat, pawns, weight)
        + same_side_pair_sum(seat, pawns, seat.colour.other(), weight)
}

/// The sum of `weight` over the auxiliary features of a board, as `colour` sees them.
pub open spec fn board_sum<F: FeatureSet>(
    features: &F,
    colour: Colour,
    board: Board,
    weight: spec_fn(int) -> int,
) -> int {
    let seat = seat_on(features, colour, board);
    board_threat_sum(seat, board, weight)
        + pawn_pair_sum(seat, board_pawns(board), weight)
}

/// A pawn of `side` on `sq` is in `now` and not in `before`.
pub open spec fn is_fresh(now: Pawns, before: Pawns, side: Colour, sq: int) -> bool {
    now(side, sq) && !before(side, sq)
}

/// With fresh pawns taken White's first, and lower squares first, the fresh pawn on `b` is taken
/// no later than the fresh pawn of `side` on `a`.
pub open spec fn is_taken(now: Pawns, before: Pawns, side: Colour, a: int, b: int) -> bool {
    ||| is_fresh(now, before, side, b) && b <= a
    ||| side == Colour::Black && is_fresh(now, before, Colour::White, b)
}

/// What the fresh pawn of `side` on `a` adds with the pawn on `b` of `b_colour`, unless the pawn
/// on `b` is fresh itself and taken before.
pub open spec fn fresh_pair_term<F: FeatureSet>(
    seat: Seat<F>,
    now: Pawns,
    before: Pawns,
    side: Colour,
    a: int,
    b_colour: Colour,
    b: int,
    weight: spec_fn(int) -> int,
) -> int {
    if is_fresh(now, before, side, a) && now(b_colour, b) && !is_taken(now, before, side, a, b) {
        pair_term(seat, side, a, b_colour, b, weight)
    } else {
        0
    }
}

/// The sum of `weight` over the pairs with a fresh pawn of `side`.
pub open spec fn fresh_side_sum<F: FeatureSet>(
    seat: Seat<F>,
    now: Pawns,
    before: Pawns,
    side: Colour,
    weight: spec_fn(int) -> int,
) -> int {
    sum_pairs(
        |a: int, b: int|
            fresh_pair_term(seat, now, before, side, a, Colour::White, b, weight)
                + fresh_pair_term(
                seat,
                now,
                before,
                side,
                a,
                Colour::Black,
                b,
                weight,
            ),
    )
}

/// The sum of `weight` over the pairs of pawns in `now` of which one at least is not in `before`.
pub open spec fn fresh_pair_sum<F: FeatureSet>(
    seat: Seat<F>,
    now: Pawns,
    before: Pawns,
    weight: spec_fn(int) -> int,
) -> int {
    fresh_side_sum(seat, now, before, Colour::White, weight) + fresh_side_sum(
        seat,
        now,
        before,
        Colour::Black,
        weight,
    )
}

/// The sum of `weight` over the features that an update adds.
pub open spec fn added_sum<F: FeatureSet>(
    seat: Seat<F>,
    updates: AuxUpdateBuffer,
    weight: spec_fn(int) -> int,
) -> int {
    listed_threat_sum(seat, updates.add@, weight) + fresh_pair_sum(
        seat,
        pawns_of(updates.after),
        pawns_of(updates.afore),
        weight,
    )
}

/// The sum of `weight` over the features that an update removes.
pub open spec fn removed_sum<F: FeatureSet>(
    seat: Seat<F>,
    updates: AuxUpdateBuffer,
    weight: spec_fn(int) -> int,
) -> int {
    listed_threat_sum(seat, updates.sub@, weight) + fresh_pair_sum(
        seat,
        pawns_of(updates.afore),
        pawns_of(updates.after),
        weight,
    )
}

/// The weight of one: sums of it count features.
pub open spec fn unit_weight() -> spec_fn(int) -> int {
    |feature: int| 1int
}

/// The weights that the features give to lane `lane`, in a table of `width` lanes per feature.
pub open spec fn lane_weight(table: Seq<i8>, width: int, lane: int) -> spec_fn(int) -> int {
    |feature: int| table[feature * width + lane] as int
}

/// The weights that the features of a bucket give to lane `lane`, with `width` lanes per feature.
pub open spec fn psqt_weight(bucket: Seq<i16>, width: int, lane: int) -> spec_fn(
    PsqtFeatureIndex,
) -> int {
    |feature: PsqtFeatureIndex| bucket[feature.number * width + lane] as int
}

} // verus!
