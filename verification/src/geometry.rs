//! What the pieces attack, in terms of files and ranks.

use crate::attacks::{along, attacks, reaches, sees};
use crate::board::{Colour, Piece, PieceType};
use crate::squares::{file_of, rank_of, SquareSet};
use vstd::prelude::*;

verus! {

/// Each square has a file and a rank, which name it.
pub proof fn law_coordinates(sq: int)
    requires
        0 <= sq < 64,
    ensures
        0 <= file_of(sq) < 8,
        0 <= rank_of(sq) < 8,
        sq == 8 * rank_of(sq) + file_of(sq),
{
}

/// A square belongs to a set where the bit of its number is set, and nothing else does.
pub proof fn law_membership(set: SquareSet, sq: int)
    ensures
        0 <= sq < 64 ==> (set.has(sq) <==> set.bits & (1u64 << (sq as u64)) != 0),
        !(0 <= sq < 64) ==> !set.has(sq),
{
    if 0 <= sq < 64 {
        let (bits, j) = (set.bits, sq as u64);
        assert((bits >> j) & 1 == 1 <==> bits & (1u64 << j) != 0) by (bit_vector)
            requires
                j < 64,
        ;
    }
}

/// A knight attacks exactly the squares whose distance squared is five.
pub proof fn law_knight(piece: Piece, from: int, blockers: SquareSet, to: int)
    requires
        piece.piece_type == PieceType::Knight,
        0 <= from < 64,
        0 <= to < 64,
    ensures
        ({
            let (df, dr) = (to % 8 - from % 8, to / 8 - from / 8);
            attacks(piece, from, blockers, to) <==> df * df + dr * dr == 5
        }),
{
    let (df, dr) = (to % 8 - from % 8, to / 8 - from / 8);
    lemma_squares(df);
    lemma_squares(dr);
}

/// A king attacks exactly the squares whose distance squared is one or two.
pub proof fn law_king(piece: Piece, from: int, blockers: SquareSet, to: int)
    requires
        piece.piece_type == PieceType::King,
        0 <= from < 64,
        0 <= to < 64,
    ensures
        ({
            let (df, dr) = (to % 8 - from % 8, to / 8 - from / 8);
            attacks(piece, from, blockers, to) <==> 1 <= df * df + dr * dr <= 2
        }),
{
    let (df, dr) = (to % 8 - from % 8, to / 8 - from / 8);
    lemma_squares(df);
    lemma_squares(dr);
}

/// A pawn attacks exactly the squares beside the one in front of it: White's pawns go up the
/// ranks, Black's go down.
pub proof fn law_pawn(piece: Piece, from: int, blockers: SquareSet, to: int)
    requires
        piece.piece_type == PieceType::Pawn,
        0 <= from < 64,
        0 <= to < 64,
    ensures
        ({
            let (df, dr) = (to % 8 - from % 8, to / 8 - from / 8);
            attacks(piece, from, blockers, to) <==> df * df == 1 && (if piece.colour
                == Colour::White {
                dr == 1
            } else {
                dr == -1
            })
        }),
{
    lemma_squares(to % 8 - from % 8);
}

/// Small squares.
proof fn lemma_squares(d: int)
    requires
        -7 <= d <= 7,
    ensures
        0 <= d * d,
        d * d == 0 <==> d == 0,
        d * d == 1 <==> d == 1 || d == -1,
        d * d == 4 <==> d == 2 || d == -2,
        !(d == 0 || d == 1 || d == -1 || d == 2 || d == -2) ==> d * d >= 9,
{
    assert(d * d >= 0) by (nonlinear_arith);
    assert(d == 0 ==> d * d == 0) by (nonlinear_arith);
    assert(d == 1 || d == -1 ==> d * d == 1) by (nonlinear_arith);
    assert(d == 2 || d == -2 ==> d * d == 4) by (nonlinear_arith);
    assert(d >= 3 || d <= -3 ==> d * d >= 9) by (nonlinear_arith);
}

/// A bishop attacks exactly the squares on its diagonals with no piece strictly between.
pub proof fn law_bishop(piece: Piece, from: int, blockers: SquareSet, to: int)
    requires
        piece.piece_type == PieceType::Bishop,
        0 <= from < 64,
        0 <= to < 64,
    ensures
        attacks(piece, from, blockers, to) <==> {
            let (df, dr) = (to % 8 - from % 8, to / 8 - from / 8);
            &&& df != 0
            &&& df == dr || df == -dr
            &&& forall|s: int| #[trigger]
                blockers.has(s) && (if df > 0 {
                    from % 8 < s % 8 < to % 8
                } else {
                    to % 8 < s % 8 < from % 8
                }) ==> s / 8 - from / 8 != (if df == dr {
                    s % 8 - from % 8
                } else {
                    from % 8 - s % 8
                })
        },
{
    lemma_ray(from, 1, 1, blockers, to);
    lemma_ray(from, 1, -1, blockers, to);
    lemma_ray(from, -1, 1, blockers, to);
    lemma_ray(from, -1, -1, blockers, to);
    lemma_inside(blockers);
}

/// A rook attacks exactly the squares on its rank and its file with no piece strictly between.
pub proof fn law_rook(piece: Piece, from: int, blockers: SquareSet, to: int)
    requires
        piece.piece_type == PieceType::Rook,
        0 <= from < 64,
        0 <= to < 64,
    ensures
        attacks(piece, from, blockers, to) <==> from != to && ((from / 8 == to / 8 && forall|s: int|
         #[trigger]
            blockers.has(s) && s / 8 == from / 8 ==> !(from % 8 < s % 8 < to % 8) && !(to % 8 < s
                % 8 < from % 8)) || (from % 8 == to % 8 && forall|s: int| #[trigger]
            blockers.has(s) && s % 8 == from % 8 ==> !(from / 8 < s / 8 < to / 8) && !(to / 8 < s
                / 8 < from / 8))),
{
    lemma_ray(from, 1, 0, blockers, to);
    lemma_ray(from, -1, 0, blockers, to);
    lemma_ray(from, 0, 1, blockers, to);
    lemma_ray(from, 0, -1, blockers, to);
    lemma_inside(blockers);
}

/// A queen attacks exactly what a bishop or a rook in its place would.
pub proof fn law_queen(colour: Colour, from: int, blockers: SquareSet, to: int)
    ensures
        attacks(Piece { piece_type: PieceType::Queen, colour }, from, blockers, to) <==> attacks(
            Piece { piece_type: PieceType::Bishop, colour },
            from,
            blockers,
            to,
        ) || attacks(Piece { piece_type: PieceType::Rook, colour }, from, blockers, to),
{
}

/// Nothing off the board is attacked.
pub proof fn law_attacks_stay_on_board(piece: Piece, from: int, blockers: SquareSet, to: int)
    requires
        attacks(piece, from, blockers, to),
    ensures
        0 <= to < 64,
{
}

/// Pieces of one kind attack each other or neither does; of pawns this holds of opposite sides.
pub proof fn law_mutual(one: Piece, two: Piece, x: int, y: int, blockers: SquareSet)
    requires
        one.piece_type == two.piece_type,
        one.piece_type == PieceType::Pawn ==> one.colour != two.colour,
        0 <= x < 64,
        0 <= y < 64,
    ensures
        attacks(one, x, blockers, y) <==> attacks(two, y, blockers, x),
{
    match one.piece_type {
        PieceType::Pawn => {},
        PieceType::Knight => {},
        PieceType::Bishop => {
            lemma_bishop_mutual(one, two, x, y, blockers);
        },
        PieceType::Rook => {
            law_rook(one, x, blockers, y);
            law_rook(two, y, blockers, x);
        },
        PieceType::Queen => {
            let (b1, b2) = (
                Piece { piece_type: PieceType::Bishop, colour: one.colour },
                Piece { piece_type: PieceType::Bishop, colour: two.colour },
            );
            let (r1, r2) = (
                Piece { piece_type: PieceType::Rook, colour: one.colour },
                Piece { piece_type: PieceType::Rook, colour: two.colour },
            );
            law_queen(one.colour, x, blockers, y);
            law_queen(two.colour, y, blockers, x);
            lemma_bishop_mutual(b1, b2, x, y, blockers);
            law_rook(r1, x, blockers, y);
            law_rook(r2, y, blockers, x);
        },
        PieceType::King => {},
    }
}

/// Bishops attack each other or neither does.
proof fn lemma_bishop_mutual(one: Piece, two: Piece, x: int, y: int, blockers: SquareSet)
    requires
        one.piece_type == PieceType::Bishop,
        two.piece_type == PieceType::Bishop,
        0 <= x < 64,
        0 <= y < 64,
    ensures
        attacks(one, x, blockers, y) <==> attacks(two, y, blockers, x),
{
    law_bishop(one, x, blockers, y);
    law_bishop(two, y, blockers, x);
}

/// Only squares of the board belong to a set.
proof fn lemma_inside(set: SquareSet)
    ensures
        forall|s: int| #[trigger] set.has(s) ==> 0 <= s < 64,
{
}

/// How far `to` lies from `from`, along the longer coordinate.
spec fn span(from: int, to: int) -> int {
    let (df, dr) = (to % 8 - from % 8, to / 8 - from / 8);
    if df != 0 {
        if df > 0 {
            df
        } else {
            -df
        }
    } else if dr > 0 {
        dr
    } else {
        -dr
    }
}

/// `to` lies in direction (`df`, `dr`) from `from`.
spec fn lies_towards(from: int, df: int, dr: int, to: int) -> bool {
    let n = span(from, to);
    &&& n >= 1
    &&& 0 <= to < 64
    &&& to % 8 - from % 8 == (if df > 0 {
        n
    } else if df < 0 {
        -n
    } else {
        0
    })
    &&& to / 8 - from / 8 == (if dr > 0 {
        n
    } else if dr < 0 {
        -n
    } else {
        0
    })
}

/// A square is reached by as many steps as it lies away.
proof fn lemma_reached(from: int, df: int, dr: int, to: int)
    requires
        0 <= from < 64,
        lies_towards(from, df, dr, to),
    ensures
        along(from, df, dr, span(from, to)) == to,
{
}

/// The squares on the way to a square lie in its direction, and nearer.
proof fn lemma_on_the_way(from: int, df: int, dr: int, to: int, j: int)
    requires
        0 <= from < 64,
        -1 <= df <= 1,
        -1 <= dr <= 1,
        df != 0 || dr != 0,
        lies_towards(from, df, dr, to),
        1 <= j < span(from, to),
    ensures
        lies_towards(from, df, dr, along(from, df, dr, j)),
        span(from, along(from, df, dr, j)) == j,
{
    let s = along(from, df, dr, j);
    let x = from % 8 + (if df > 0 {
        j
    } else if df < 0 {
        -j
    } else {
        0
    });
    let y = from / 8 + (if dr > 0 {
        j
    } else if dr < 0 {
        -j
    } else {
        0
    });
    assert(0 <= x < 8);
    assert(0 <= y < 8);
    assert(s == y * 8 + x);
    assert(s % 8 == x && s / 8 == y);
}

/// A slider sees in one direction exactly the squares with no piece nearer in that direction.
proof fn lemma_ray(from: int, df: int, dr: int, blockers: SquareSet, to: int)
    requires
        0 <= from < 64,
        0 <= to < 64,
        -1 <= df <= 1,
        -1 <= dr <= 1,
        df != 0 || dr != 0,
    ensures
        sees(from, df, dr, blockers, to) <==> lies_towards(from, df, dr, to) && forall|s: int|
         #[trigger]
            blockers.has(s) && lies_towards(from, df, dr, s) ==> span(from, s) >= span(from, to),
{
    let n = span(from, to);
    if sees(from, df, dr, blockers, to) {
        let k = choose|k: int| #[trigger] reaches(from, df, dr, blockers, to, k);
        assert(k == n);
        assert(lies_towards(from, df, dr, to));
        assert forall|s: int| #[trigger]
            blockers.has(s) && lies_towards(from, df, dr, s) implies span(from, s) >= n by {
            let m = span(from, s);
            lemma_reached(from, df, dr, s);
            if m < n {
                assert(!blockers.has(along(from, df, dr, m)));
            }
        }
    }
    if lies_towards(from, df, dr, to) && forall|s: int| #[trigger]
        blockers.has(s) && lies_towards(from, df, dr, s) ==> span(from, s) >= n {
        assert forall|j: int| 1 <= j < n implies !#[trigger] blockers.has(
            along(from, df, dr, j),
        ) by {
            lemma_on_the_way(from, df, dr, to, j);
        }
        assert(reaches(from, df, dr, blockers, to, n));
    }
}

} // verus!
