//! How many features a board can have.

use crate::attacks::{along, attacks, reaches, sees, sees_diagonally, sees_straight};
use crate::board::{Board, Colour, Piece, PieceType};
use crate::features::{
    added_sum, board_pawns, board_sum, board_threat_sum, cross_pair_sum, fresh_pair_sum,
    fresh_pair_term, fresh_side_sum, is_fresh, listed_threat_sum, pair_term, pawns_of, removed_sum,
    same_side_pair_sum, seat_on, threat_term, threatens, unit_weight, AuxUpdateBuffer, FeatureSet,
    Pawns, Seat, ThreatFeature,
};
use crate::squares::{file_of, rank_of, SquareSet};
use crate::sums::{lemma_sum_add, lemma_sum_same, lemma_sum_zero, sum_from, sum_squares};
use vstd::prelude::*;

verus! {

/// One where the condition holds, else nothing.
pub open spec fn one_if(condition: bool) -> int {
    if condition {
        1
    } else {
        0
    }
}

/// How many squares satisfy `property`.
pub open spec fn count_squares(property: spec_fn(int) -> bool) -> int {
    sum_squares(|sq: int| one_if(property(sq)))
}

/// How many pieces of that kind and that side stand on the board.
pub open spec fn count_pieces(board: Board, piece_type: PieceType, side: Colour) -> int {
    count_squares(|sq: int| board.bbs.has_piece(piece_type, side, sq))
}

/// Each square names the piece that the sets of squares put there.
pub open spec fn is_consistent(board: Board) -> bool {
    &&& forall|piece_type: PieceType, side: Colour, sq: int| #[trigger]
        board.bbs.has_piece(piece_type, side, sq) ==> board.mailbox@[sq] == Some(
            Piece { piece_type, colour: side },
        )
    &&& forall|sq: int| #[trigger]
        board.bbs.has_any(sq) ==> board.mailbox@[sq] is Some && board.bbs.has_piece(
            board.piece_at(sq).piece_type,
            board.piece_at(sq).colour,
            sq,
        )
}

/// How far `count` goes beyond `limit`.
pub open spec fn excess(count: int, limit: int) -> int {
    if count > limit {
        count - limit
    } else {
        0
    }
}

/// A side can have come to its pieces by promotion: it has at most eight pawns, and at least as
/// many are missing as there are pieces beyond those that the game starts with.
pub open spec fn has_legal_material(board: Board, side: Colour) -> bool {
    let pawns = count_pieces(board, PieceType::Pawn, side);
    &&& pawns <= 8
    &&& excess(count_pieces(board, PieceType::Knight, side), 2) + excess(
        count_pieces(board, PieceType::Bishop, side),
        2,
    ) + excess(count_pieces(board, PieceType::Rook, side), 2) + excess(
        count_pieces(board, PieceType::Queen, side),
        1,
    ) <= 8 - pawns
}

proof fn lemma_sum_at_most(f: spec_fn(int) -> int, g: spec_fn(int) -> int, i: int)
    requires
        0 <= i <= 64,
        forall|t: int| i <= t < 64 ==> #[trigger] f(t) <= g(t),
    ensures
        sum_from(f, i) <= sum_from(g, i),
    decreases 64 - i,
{
    if i < 64 {
        lemma_sum_at_most(f, g, i + 1);
    }
}

proof fn lemma_sum_scaled(f: spec_fn(int) -> int, g: spec_fn(int) -> int, factor: int, i: int)
    requires
        0 <= i <= 64,
        forall|t: int| i <= t < 64 ==> #[trigger] g(t) == factor * f(t),
    ensures
        sum_from(g, i) == factor * sum_from(f, i),
    decreases 64 - i,
{
    if i < 64 {
        lemma_sum_scaled(f, g, factor, i + 1);
        let (x, y) = (f(i), sum_from(f, i + 1));
        assert(factor * (x + y) == factor * x + factor * y) by (nonlinear_arith);
    } else {
        assert(factor * 0 == 0) by (nonlinear_arith);
    }
}

/// A property of no two squares holds of at most one.
proof fn lemma_at_most_one(property: spec_fn(int) -> bool, i: int)
    requires
        0 <= i <= 64,
        forall|s: int, t: int|
            i <= s < 64 && i <= t < 64 && #[trigger] property(s) && #[trigger] property(t) ==> s
                == t,
    ensures
        0 <= sum_from(|sq: int| one_if(property(sq)), i) <= 1,
    decreases 64 - i,
{
    let term = |sq: int| one_if(property(sq));
    if i < 64 {
        lemma_at_most_one(property, i + 1);
        if property(i) {
            assert forall|t: int| i + 1 <= t < 64 implies #[trigger] term(t) == 0 by {
                if property(t) {
                    assert(i == t);
                }
            }
            lemma_sum_zero(term, i + 1);
        }
    }
}

proof fn lemma_count_nonnegative(property: spec_fn(int) -> bool)
    ensures
        0 <= count_squares(property),
{
    let term = |sq: int| one_if(property(sq));
    let zero = |sq: int| 0int;
    lemma_sum_zero(zero, 0);
    lemma_sum_at_most(zero, term, 0);
}

/// A slider sees at most one piece in each direction.
proof fn lemma_sees_one(from: int, df: int, dr: int, blockers: SquareSet)
    requires
        0 <= from < 64,
        df != 0 || dr != 0,
    ensures
        count_squares(|to: int| blockers.has(to) && sees(from, df, dr, blockers, to)) <= 1,
{
    let property = |to: int| blockers.has(to) && sees(from, df, dr, blockers, to);
    assert forall|s: int, t: int|
        0 <= s < 64 && 0 <= t < 64 && #[trigger] property(s) && #[trigger] property(t) implies s
        == t by {
        let j = choose|j: int| #[trigger] reaches(from, df, dr, blockers, s, j);
        let k = choose|k: int| #[trigger] reaches(from, df, dr, blockers, t, k);
        assert(s == along(from, df, dr, j));
        assert(t == along(from, df, dr, k));
        if j < k {
            assert(!blockers.has(along(from, df, dr, j)));
        } else if k < j {
            assert(!blockers.has(along(from, df, dr, k)));
        }
    }
    lemma_at_most_one(property, 0);
}

/// The count of squares with either property is at most the sum of the counts.
proof fn lemma_count_either(
    p: spec_fn(int) -> bool,
    q: spec_fn(int) -> bool,
    either: spec_fn(int) -> bool,
)
    requires
        forall|sq: int| 0 <= sq < 64 && #[trigger] either(sq) ==> p(sq) || q(sq),
    ensures
        count_squares(either) <= count_squares(p) + count_squares(q),
{
    let (f, g) = (|sq: int| one_if(p(sq)), |sq: int| one_if(q(sq)));
    let h = |sq: int| f(sq) + g(sq);
    lemma_sum_add(f, g, h, 0);
    lemma_sum_at_most(|sq: int| one_if(either(sq)), h, 0);
}

/// A slider sees at most four pieces along the diagonals.
proof fn lemma_sees_diagonals(from: int, blockers: SquareSet)
    requires
        0 <= from < 64,
    ensures
        count_squares(|to: int| blockers.has(to) && sees_diagonally(from, blockers, to)) <= 4,
{
    lemma_sees_one(from, 1, 1, blockers);
    lemma_sees_one(from, 1, -1, blockers);
    lemma_sees_one(from, -1, 1, blockers);
    lemma_sees_one(from, -1, -1, blockers);
    let p1 = |to: int| blockers.has(to) && sees(from, 1, 1, blockers, to);
    let p2 = |to: int| blockers.has(to) && sees(from, 1, -1, blockers, to);
    let p3 = |to: int| blockers.has(to) && sees(from, -1, 1, blockers, to);
    let p4 = |to: int| blockers.has(to) && sees(from, -1, -1, blockers, to);
    let p12 = |to: int| p1(to) || p2(to);
    let p34 = |to: int| p3(to) || p4(to);
    lemma_count_either(p1, p2, p12);
    lemma_count_either(p3, p4, p34);
    lemma_count_either(p12, p34, |to: int| blockers.has(to) && sees_diagonally(from, blockers, to));
}

/// A slider sees at most four pieces along its rank and its file.
proof fn lemma_sees_straights(from: int, blockers: SquareSet)
    requires
        0 <= from < 64,
    ensures
        count_squares(|to: int| blockers.has(to) && sees_straight(from, blockers, to)) <= 4,
{
    lemma_sees_one(from, 1, 0, blockers);
    lemma_sees_one(from, -1, 0, blockers);
    lemma_sees_one(from, 0, 1, blockers);
    lemma_sees_one(from, 0, -1, blockers);
    let p1 = |to: int| blockers.has(to) && sees(from, 1, 0, blockers, to);
    let p2 = |to: int| blockers.has(to) && sees(from, -1, 0, blockers, to);
    let p3 = |to: int| blockers.has(to) && sees(from, 0, 1, blockers, to);
    let p4 = |to: int| blockers.has(to) && sees(from, 0, -1, blockers, to);
    let p12 = |to: int| p1(to) || p2(to);
    let p34 = |to: int| p3(to) || p4(to);
    lemma_count_either(p1, p2, p12);
    lemma_count_either(p3, p4, p34);
    lemma_count_either(p12, p34, |to: int| blockers.has(to) && sees_straight(from, blockers, to));
}

/// The square that lies `df` files and `dr` ranks away.
spec fn lies_at(from: int, df: int, dr: int) -> spec_fn(int) -> bool {
    |to: int| file_of(to) == file_of(from) + df && rank_of(to) == rank_of(from) + dr
}

/// At most one square lies a given way away.
proof fn lemma_lies_at(from: int, df: int, dr: int)
    ensures
        count_squares(lies_at(from, df, dr)) <= 1,
{
    lemma_at_most_one(lies_at(from, df, dr), 0);
}

/// A pawn attacks at most two squares.
proof fn lemma_pawn_reach(piece: Piece, from: int, blockers: SquareSet)
    requires
        piece.piece_type == PieceType::Pawn,
    ensures
        count_squares(|to: int| attacks(piece, from, blockers, to)) <= 2,
{
    let up = match piece.colour {
        Colour::White => 1int,
        Colour::Black => -1int,
    };
    lemma_lies_at(from, 1, up);
    lemma_lies_at(from, -1, up);
    lemma_count_either(
        lies_at(from, 1, up),
        lies_at(from, -1, up),
        |to: int| attacks(piece, from, blockers, to),
    );
}

/// A knight attacks at most eight squares.
proof fn lemma_knight_reach(piece: Piece, from: int, blockers: SquareSet)
    requires
        piece.piece_type == PieceType::Knight,
    ensures
        count_squares(|to: int| attacks(piece, from, blockers, to)) <= 8,
{
    lemma_lies_at(from, 1, 2);
    lemma_lies_at(from, 1, -2);
    lemma_lies_at(from, -1, 2);
    lemma_lies_at(from, -1, -2);
    lemma_lies_at(from, 2, 1);
    lemma_lies_at(from, 2, -1);
    lemma_lies_at(from, -2, 1);
    lemma_lies_at(from, -2, -1);
    let p1 = |to: int| lies_at(from, 1, 2)(to) || lies_at(from, 1, -2)(to);
    let p2 = |to: int| lies_at(from, -1, 2)(to) || lies_at(from, -1, -2)(to);
    let p3 = |to: int| lies_at(from, 2, 1)(to) || lies_at(from, 2, -1)(to);
    let p4 = |to: int| lies_at(from, -2, 1)(to) || lies_at(from, -2, -1)(to);
    lemma_count_either(lies_at(from, 1, 2), lies_at(from, 1, -2), p1);
    lemma_count_either(lies_at(from, -1, 2), lies_at(from, -1, -2), p2);
    lemma_count_either(lies_at(from, 2, 1), lies_at(from, 2, -1), p3);
    lemma_count_either(lies_at(from, -2, 1), lies_at(from, -2, -1), p4);
    let p12 = |to: int| p1(to) || p2(to);
    let p34 = |to: int| p3(to) || p4(to);
    lemma_count_either(p1, p2, p12);
    lemma_count_either(p3, p4, p34);
    lemma_count_either(p12, p34, |to: int| attacks(piece, from, blockers, to));
}

/// How many pieces a piece of that kind threatens at most.
pub open spec fn reach(piece_type: PieceType) -> int {
    match piece_type {
        PieceType::Pawn => 2,
        PieceType::Knight => 8,
        PieceType::Bishop => 4,
        PieceType::Rook => 4,
        PieceType::Queen => 8,
        PieceType::King => 8,
    }
}

/// A piece other than a king threatens no more pieces than its kind can.
proof fn lemma_reach(board: Board, from: int)
    requires
        is_consistent(board),
        0 <= from < 64,
        board.bbs.has_man(from),
    ensures
        count_squares(|to: int| threatens(board, from, to)) <= reach(
            board.piece_at(from).piece_type,
        ),
{
    let piece = board.piece_at(from);
    let blockers = board.bbs.blockers();
    let hits = |to: int| threatens(board, from, to);
    assert(board.bbs.has_any(from));
    assert(board.bbs.has_piece(piece.piece_type, piece.colour, from));
    assert forall|to: int| 0 <= to < 64 && #[trigger] hits(to) implies blockers.has(to) by {
        board.bbs.lemma_blockers(to);
    }
    let none = |to: int| false;
    lemma_sum_zero(|to: int| one_if(none(to)), 0);
    match piece.piece_type {
        PieceType::Pawn => {
            lemma_pawn_reach(piece, from, blockers);
            lemma_count_either(|to: int| attacks(piece, from, blockers, to), none, hits);
        },
        PieceType::Knight => {
            lemma_knight_reach(piece, from, blockers);
            lemma_count_either(|to: int| attacks(piece, from, blockers, to), none, hits);
        },
        PieceType::Bishop => {
            lemma_sees_diagonals(from, blockers);
            lemma_count_either(
                |to: int| blockers.has(to) && sees_diagonally(from, blockers, to),
                none,
                hits,
            );
        },
        PieceType::Rook => {
            lemma_sees_straights(from, blockers);
            lemma_count_either(
                |to: int| blockers.has(to) && sees_straight(from, blockers, to),
                none,
                hits,
            );
        },
        PieceType::Queen => {
            lemma_sees_diagonals(from, blockers);
            lemma_sees_straights(from, blockers);
            lemma_count_either(
                |to: int| blockers.has(to) && sees_diagonally(from, blockers, to),
                |to: int| blockers.has(to) && sees_straight(from, blockers, to),
                hits,
            );
        },
        PieceType::King => {
            assert(board.bbs.has_type(PieceType::King, from));
        },
    }
}

/// What the pieces of `side` on `sq` can threaten.
spec fn side_reach(board: Board, side: Colour, sq: int) -> int {
    2 * one_if(board.bbs.has_piece(PieceType::Pawn, side, sq)) + 8 * one_if(
        board.bbs.has_piece(PieceType::Knight, side, sq),
    ) + 4 * one_if(board.bbs.has_piece(PieceType::Bishop, side, sq)) + 4 * one_if(
        board.bbs.has_piece(PieceType::Rook, side, sq),
    ) + 8 * one_if(board.bbs.has_piece(PieceType::Queen, side, sq))
}

/// The pieces of one kind and side, each with the reach of its kind.
proof fn lemma_scaled_count(
    board: Board,
    piece_type: PieceType,
    side: Colour,
    factor: int,
    scaled: spec_fn(int) -> int,
)
    requires
        forall|sq: int|
            0 <= sq < 64 ==> #[trigger] scaled(sq) == factor * one_if(
                board.bbs.has_piece(piece_type, side, sq),
            ),
    ensures
        sum_squares(scaled) == factor * count_pieces(board, piece_type, side),
        0 <= count_pieces(board, piece_type, side),
{
    let property = |sq: int| board.bbs.has_piece(piece_type, side, sq);
    let term = |sq: int| one_if(property(sq));
    lemma_sum_scaled(term, scaled, factor, 0);
    lemma_count_nonnegative(property);
}

/// What a side with legal material can threaten.
proof fn lemma_side_reach(board: Board, side: Colour)
    requires
        has_legal_material(board, side),
    ensures
        sum_squares(|sq: int| side_reach(board, side, sq)) <= 104 - 6 * count_pieces(
            board,
            PieceType::Pawn,
            side,
        ),
        0 <= count_pieces(board, PieceType::Pawn, side) <= 8,
{
    let pawns = |sq: int| 2 * one_if(board.bbs.has_piece(PieceType::Pawn, side, sq));
    let knights = |sq: int| 8 * one_if(board.bbs.has_piece(PieceType::Knight, side, sq));
    let bishops = |sq: int| 4 * one_if(board.bbs.has_piece(PieceType::Bishop, side, sq));
    let rooks = |sq: int| 4 * one_if(board.bbs.has_piece(PieceType::Rook, side, sq));
    let queens = |sq: int| 8 * one_if(board.bbs.has_piece(PieceType::Queen, side, sq));
    lemma_scaled_count(board, PieceType::Pawn, side, 2, pawns);
    lemma_scaled_count(board, PieceType::Knight, side, 8, knights);
    lemma_scaled_count(board, PieceType::Bishop, side, 4, bishops);
    lemma_scaled_count(board, PieceType::Rook, side, 4, rooks);
    lemma_scaled_count(board, PieceType::Queen, side, 8, queens);
    let two = |sq: int| pawns(sq) + knights(sq);
    let three = |sq: int| two(sq) + bishops(sq);
    let four = |sq: int| three(sq) + rooks(sq);
    let all = |sq: int| side_reach(board, side, sq);
    lemma_sum_add(pawns, knights, two, 0);
    lemma_sum_add(two, bishops, three, 0);
    lemma_sum_add(three, rooks, four, 0);
    lemma_sum_add(four, queens, all, 0);
}

/// A board has no more threats than its pieces can reach.
proof fn lemma_threat_count<F: FeatureSet>(seat: Seat<F>, board: Board)
    requires
        is_consistent(board),
    ensures
        board_threat_sum(seat, board, unit_weight()) <= sum_squares(
            |sq: int| side_reach(board, Colour::White, sq),
        ) + sum_squares(|sq: int| side_reach(board, Colour::Black, sq)),
{
    let white = |sq: int| side_reach(board, Colour::White, sq);
    let black = |sq: int| side_reach(board, Colour::Black, sq);
    let both = |sq: int| white(sq) + black(sq);
    lemma_sum_add(white, black, both, 0);
    let pair = |from: int, to: int|
        if threatens(board, from, to) {
            threat_term(seat, board.piece_at(from), board.piece_at(to), from, to, unit_weight())
        } else {
            0
        };
    let rows = |from: int| sum_squares(|to: int| pair(from, to));
    assert forall|from: int| 0 <= from < 64 implies #[trigger] rows(from) <= both(from) by {
        let row = |to: int| pair(from, to);
        if board.bbs.has_man(from) {
            let hits = |to: int| threatens(board, from, to);
            let piece = board.piece_at(from);
            lemma_reach(board, from);
            lemma_sum_at_most(row, |to: int| one_if(hits(to)), 0);
            assert(board.bbs.has_any(from));
            assert(board.bbs.has_piece(piece.piece_type, piece.colour, from));
            assert(piece.piece_type != PieceType::King);
        } else {
            lemma_sum_zero(row, 0);
        }
    }
    lemma_sum_at_most(rows, both, 0);
}

/// How many of the squares from `i` on satisfy `property`.
spec fn count_from(property: spec_fn(int) -> bool, i: int) -> int {
    sum_from(|sq: int| one_if(property(sq)), i)
}

/// Where each square of `property` counts `extra` and the later squares of `property`, the squares
/// from `i` on count no more than `extra` each and half of their ordered pairs.
proof fn lemma_pairs_within(
    property: spec_fn(int) -> bool,
    rows: spec_fn(int) -> int,
    extra: int,
    i: int,
)
    requires
        0 <= i <= 64,
        forall|a: int|
            0 <= a < 64 ==> #[trigger] rows(a) <= if property(a) {
                extra + count_from(property, a + 1)
            } else {
                0
            },
    ensures
        2 * sum_from(rows, i) <= 2 * (extra * count_from(property, i)) + count_from(property, i) * (
        count_from(property, i) - 1),
    decreases 64 - i,
{
    if i < 64 {
        lemma_pairs_within(property, rows, extra, i + 1);
        let n = count_from(property, i + 1);
        let term = |sq: int| one_if(property(sq));
        assert(sum_from(term, i) == term(i) + sum_from(term, i + 1));
        assert((n + 1) * n == n * (n - 1) + 2 * n) by (nonlinear_arith);
        assert(extra * (n + 1) == extra * n + extra) by (nonlinear_arith);
    } else {
        assert(0int * (0int - 1) == 0);
        assert(extra * 0 == 0) by (nonlinear_arith);
    }
}

/// A side has no more pairs of pawns than its number of pawns allows.
proof fn lemma_same_side_count<F: FeatureSet>(seat: Seat<F>, pawns: Pawns, side: Colour)
    ensures
        ({
            let n = count_squares(|sq: int| pawns(side, sq));
            2 * same_side_pair_sum(seat, pawns, side, unit_weight()) <= n * (n
                - 1)
        }),
{
    let property = |sq: int| pawns(side, sq);
    let pair = |a: int, b: int|
        if a < b && pawns(side, a) && pawns(side, b) {
            pair_term(seat, side, a, side, b, unit_weight())
        } else {
            0
        };
    let rows = |a: int| sum_squares(|b: int| pair(a, b));
    let ones = |sq: int| one_if(property(sq));
    assert forall|a: int| 0 <= a < 64 implies #[trigger] rows(a) <= if property(a) {
        count_from(property, a + 1)
    } else {
        0
    } by {
        let row = |b: int| pair(a, b);
        if property(a) {
            lemma_sum_split(row, a + 1, 0);
            lemma_sum_at_most(row, ones, a + 1);
        } else {
            lemma_sum_zero(row, 0);
        }
    }
    lemma_pairs_within(property, rows, 0, 0);
}

/// Where the squares before `j` add nothing, the sum starts at `j`.
proof fn lemma_sum_split(f: spec_fn(int) -> int, j: int, i: int)
    requires
        0 <= i <= j <= 64,
        forall|t: int| i <= t < j ==> #[trigger] f(t) == 0,
    ensures
        sum_from(f, i) == sum_from(f, j),
    decreases j - i,
{
    if i < j {
        lemma_sum_split(f, j, i + 1);
    }
}

/// The two sides have no more pairs across than their numbers of pawns allow.
proof fn lemma_cross_count<F: FeatureSet>(seat: Seat<F>, pawns: Pawns)
    ensures
        ({
            let ours = count_squares(|sq: int| pawns(seat.colour, sq));
            let theirs = count_squares(|sq: int| pawns(seat.colour.other(), sq));
            cross_pair_sum(seat, pawns, unit_weight()) <= theirs * ours
        }),
{
    let other = seat.colour.other();
    let ours = |sq: int| one_if(pawns(seat.colour, sq));
    let theirs = |sq: int| one_if(pawns(other, sq));
    let mine = |sq: int| pawns(seat.colour, sq);
    let yours = |sq: int| pawns(other, sq);
    let count = count_squares(yours);
    let scaled = |a: int| count * ours(a);
    let pair = |a: int, b: int|
        if pawns(seat.colour, a) && pawns(seat.colour.other(), b) {
            pair_term(seat, seat.colour, a, seat.colour.other(), b, unit_weight())
        } else {
            0
        };
    let rows = |a: int| sum_squares(|b: int| pair(a, b));
    assert forall|a: int| 0 <= a < 64 implies #[trigger] rows(a) <= scaled(a) by {
        let row = |b: int| pair(a, b);
        if pawns(seat.colour, a) {
            lemma_sum_at_most(row, |sq: int| one_if(yours(sq)), 0);
            assert(count * 1 == count);
        } else {
            lemma_sum_zero(row, 0);
            assert(count * 0 == 0);
        }
    }
    lemma_sum_at_most(rows, scaled, 0);
    lemma_sum_scaled(ours, scaled, count, 0);
    lemma_sum_same(ours, |sq: int| one_if(mine(sq)), 0);
}

/// A consistent board with legal material has at most 256 auxiliary features, whichever side looks
/// and however features are numbered.
pub proof fn law_board_features_fit<F: FeatureSet>(features: &F, colour: Colour, board: Board)
    requires
        is_consistent(board),
        has_legal_material(board, Colour::White),
        has_legal_material(board, Colour::Black),
    ensures
        board_sum(features, colour, board, unit_weight()) <= 256,
{
    let seat = seat_on(features, colour, board);
    let pawns = board_pawns(board);
    lemma_side_reach(board, Colour::White);
    lemma_side_reach(board, Colour::Black);
    lemma_threat_count(seat, board);
    lemma_same_side_count(seat, pawns, colour);
    lemma_same_side_count(seat, pawns, colour.other());
    lemma_cross_count(seat, pawns);
    let ours = count_pieces(board, PieceType::Pawn, colour);
    let theirs = count_pieces(board, PieceType::Pawn, colour.other());
    lemma_sum_same(
        |sq: int| one_if((|s: int| pawns(colour, s))(sq)),
        |sq: int| one_if((|s: int| board.bbs.has_piece(PieceType::Pawn, colour, s))(sq)),
        0,
    );
    lemma_sum_same(
        |sq: int| one_if((|s: int| pawns(colour.other(), s))(sq)),
        |sq: int| one_if((|s: int| board.bbs.has_piece(PieceType::Pawn, colour.other(), s))(sq)),
        0,
    );
    assert(2 * (208 - 6 * (ours + theirs)) + ours * (ours - 1) + 2 * (theirs * ours) + theirs * (
    theirs - 1) <= 512) by (nonlinear_arith)
        requires
            0 <= ours <= 8,
            0 <= theirs <= 8,
    ;
}

/// A list of threats has no more features in use than it has threats.
pub proof fn law_listed_threats_fit<F: FeatureSet>(seat: Seat<F>, threats: Seq<ThreatFeature>)
    ensures
        0 <= listed_threat_sum(seat, threats, unit_weight()) <= threats.len(),
    decreases threats.len(),
{
    if threats.len() > 0 {
        law_listed_threats_fit(seat, threats.drop_last());
    }
}

/// How many pawns of `now` are not in `before`.
pub open spec fn count_fresh(now: Pawns, before: Pawns) -> int {
    count_squares(|sq: int| is_fresh(now, before, Colour::White, sq)) + count_squares(
        |sq: int| is_fresh(now, before, Colour::Black, sq),
    )
}

/// How many pawns there are.
pub open spec fn count_pawns(pawns: Pawns) -> int {
    count_squares(|sq: int| pawns(Colour::White, sq)) + count_squares(
        |sq: int| pawns(Colour::Black, sq),
    )
}

/// The squares of `property` up to `a`, and those behind it, are all of them.
proof fn lemma_count_split(property: spec_fn(int) -> bool, a: int, i: int)
    requires
        0 <= i <= a + 1 <= 64,
    ensures
        sum_from(|sq: int| one_if(property(sq) && sq <= a), i) + count_from(property, a + 1)
            == count_from(property, i),
    decreases a + 1 - i,
{
    let upto = |sq: int| one_if(property(sq) && sq <= a);
    let all = |sq: int| one_if(property(sq));
    if i == a + 1 {
        lemma_sum_zero(upto, i);
    } else {
        lemma_count_split(property, a, i + 1);
        assert(sum_from(upto, i) == upto(i) + sum_from(upto, i + 1));
        assert(sum_from(all, i) == all(i) + sum_from(all, i + 1));
    }
}

/// The pawn on `sq` is a fresh pawn of White, which is taken before those of Black.
spec fn taken_before(now: Pawns, before: Pawns, side: Colour, sq: int) -> bool {
    side == Colour::Black && is_fresh(now, before, Colour::White, sq)
}

/// The first of the fresh pawns of one side forms a pair with every pawn that is not taken before,
/// and each later one with one pawn less.
proof fn lemma_fresh_side_count<F: FeatureSet>(
    seat: Seat<F>,
    now: Pawns,
    before: Pawns,
    side: Colour,
)
    ensures
        ({
            let k = count_squares(|sq: int| is_fresh(now, before, side, sq));
            let taken = count_squares(|sq: int| taken_before(now, before, side, sq));
            2 * fresh_side_sum(seat, now, before, side, unit_weight()) <= 2 * ((count_pawns(now)
                - taken - k) * k) + k * (k - 1)
        }),
{
    let weight = unit_weight();
    let whites = |sq: int| now(Colour::White, sq);
    let blacks = |sq: int| now(Colour::Black, sq);
    let earlier = |sq: int| taken_before(now, before, side, sq);
    let property = |sq: int| is_fresh(now, before, side, sq);
    let white = |sq: int| one_if(whites(sq));
    let black = |sq: int| one_if(blacks(sq));
    let gone = |sq: int| one_if(earlier(sq));
    let either = |sq: int| white(sq) + black(sq);
    let extra = count_pawns(now) - count_squares(earlier) - count_squares(property);
    let pair = |a: int, b: int|
        fresh_pair_term(seat, now, before, side, a, Colour::White, b, weight) + fresh_pair_term(
            seat,
            now,
            before,
            side,
            a,
            Colour::Black,
            b,
            weight,
        );
    let rows = |a: int| sum_squares(|b: int| pair(a, b));
    lemma_sum_add(white, black, either, 0);
    assert forall|a: int| 0 <= a < 64 implies #[trigger] rows(a) <= if property(a) {
        extra + count_from(property, a + 1)
    } else {
        0
    } by {
        let row = |b: int| pair(a, b);
        if property(a) {
            let upto = |sq: int| one_if(property(sq) && sq <= a);
            let less = |sq: int| row(sq) + gone(sq);
            let least = |sq: int| less(sq) + upto(sq);
            lemma_count_split(property, a, 0);
            lemma_sum_add(row, gone, less, 0);
            lemma_sum_add(less, upto, least, 0);
            lemma_sum_at_most(least, either, 0);
        } else {
            lemma_sum_zero(row, 0);
        }
    }
    lemma_pairs_within(property, rows, extra, 0);
}

/// Of `n` pawns with `k` fresh ones among them, at most `k * (n - 1) - k * (k - 1) / 2` pairs have
/// a fresh pawn.
pub proof fn law_fresh_pairs_fit<F: FeatureSet>(seat: Seat<F>, now: Pawns, before: Pawns)
    ensures
        ({
            let (n, k) = (count_pawns(now), count_fresh(now, before));
            2 * fresh_pair_sum(seat, now, before, unit_weight()) <= 2 * (k * (n - 1)) - k * (k - 1)
        }),
{
    lemma_fresh_side_count(seat, now, before, Colour::White);
    lemma_fresh_side_count(seat, now, before, Colour::Black);
    let n = count_pawns(now);
    let fresh_white = |sq: int| is_fresh(now, before, Colour::White, sq);
    let fresh_black = |sq: int| is_fresh(now, before, Colour::Black, sq);
    let none = |sq: int| taken_before(now, before, Colour::White, sq);
    let whites = |sq: int| taken_before(now, before, Colour::Black, sq);
    lemma_sum_zero(|sq: int| one_if(none(sq)), 0);
    lemma_sum_same(|sq: int| one_if(whites(sq)), |sq: int| one_if(fresh_white(sq)), 0);
    let (w, b) = (count_squares(fresh_white), count_squares(fresh_black));
    assert(2 * ((n - w) * w) + w * (w - 1) + 2 * ((n - w - b) * b) + b * (b - 1) == 2 * ((w + b) * (
    n - 1)) - (w + b) * (w + b - 1)) by (nonlinear_arith);
}

/// An update adds no more features than it lists threats and its fresh pawns can form pairs, and
/// removes no more than it lists and the pawns that go could form.
pub proof fn law_update_features_fit<F: FeatureSet>(seat: Seat<F>, updates: AuxUpdateBuffer)
    ensures
        ({
            let (afore, after) = (pawns_of(updates.afore), pawns_of(updates.after));
            let (n, k) = (count_pawns(after), count_fresh(after, afore));
            2 * added_sum(seat, updates, unit_weight()) <= 2 * updates.add@.len() + 2 * (k * (n
                - 1)) - k * (k - 1)
        }),
        ({
            let (afore, after) = (pawns_of(updates.afore), pawns_of(updates.after));
            let (n, k) = (count_pawns(afore), count_fresh(afore, after));
            2 * removed_sum(seat, updates, unit_weight()) <= 2 * updates.sub@.len() + 2 * (k * (n
                - 1)) - k * (k - 1)
        }),
{
    let (afore, after) = (pawns_of(updates.afore), pawns_of(updates.after));
    law_listed_threats_fit(seat, updates.add@);
    law_listed_threats_fit(seat, updates.sub@);
    law_fresh_pairs_fit(seat, after, afore);
    law_fresh_pairs_fit(seat, afore, after);
}

} // verus!
