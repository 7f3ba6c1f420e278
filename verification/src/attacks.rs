//! The squares that a piece attacks.

use crate::board::{Colour, Piece, PieceType};
use crate::squares::{file_of, rank_of, Square, SquareSet};
use vstd::prelude::*;

verus! {

/// `k` steps along one coordinate, in the direction of the sign of `d`.
pub open spec fn steps(d: int, k: int) -> int {
    if d > 0 {
        k
    } else if d < 0 {
        -k
    } else {
        0
    }
}

/// The square `k` steps from `from` in direction (`df`, `dr`).
pub open spec fn along(from: int, df: int, dr: int, k: int) -> int {
    (rank_of(from) + steps(dr, k)) * 8 + (file_of(from) + steps(df, k))
}

/// `to` lies `k` steps from `from` in direction (`df`, `dr`), with nothing of `blockers` between.
pub open spec fn reaches(
    from: int,
    df: int,
    dr: int,
    blockers: SquareSet,
    to: int,
    k: int,
) -> bool {
    &&& 1 <= k
    &&& 0 <= to < 64
    &&& file_of(to) == file_of(from) + steps(df, k)
    &&& rank_of(to) == rank_of(from) + steps(dr, k)
    &&& forall|j: int| 1 <= j < k ==> !#[trigger] blockers.has(along(from, df, dr, j))
}

/// A slider on `from` sees `to` in direction (`df`, `dr`): up to and with the first blocker.
pub open spec fn sees(from: int, df: int, dr: int, blockers: SquareSet, to: int) -> bool {
    exists|k: int| #[trigger] reaches(from, df, dr, blockers, to, k)
}

/// A slider on `from` sees `to` along a diagonal.
pub open spec fn sees_diagonally(from: int, blockers: SquareSet, to: int) -> bool {
    ||| sees(from, 1, 1, blockers, to)
    ||| sees(from, 1, -1, blockers, to)
    ||| sees(from, -1, 1, blockers, to)
    ||| sees(from, -1, -1, blockers, to)
}

/// A slider on `from` sees `to` along a rank or a file.
pub open spec fn sees_straight(from: int, blockers: SquareSet, to: int) -> bool {
    ||| sees(from, 1, 0, blockers, to)
    ||| sees(from, -1, 0, blockers, to)
    ||| sees(from, 0, 1, blockers, to)
    ||| sees(from, 0, -1, blockers, to)
}

/// The distance between two numbers.
pub open spec fn distance(a: int, b: int) -> int {
    if a <= b {
        b - a
    } else {
        a - b
    }
}

/// `piece` on `from` attacks `to` on a board whose pieces stand on `blockers`.
pub open spec fn attacks(piece: Piece, from: int, blockers: SquareSet, to: int) -> bool {
    let files = distance(file_of(from), file_of(to));
    let ranks = distance(rank_of(from), rank_of(to));
    0 <= to < 64 && match piece.piece_type {
        PieceType::Pawn => files == 1 && rank_of(to) == rank_of(from) + match piece.colour {
            Colour::White => 1int,
            Colour::Black => -1int,
        },
        PieceType::Knight => (files == 1 && ranks == 2) || (files == 2 && ranks == 1),
        PieceType::Bishop => sees_diagonally(from, blockers, to),
        PieceType::Rook => sees_straight(from, blockers, to),
        PieceType::Queen => sees_diagonally(from, blockers, to) || sees_straight(
            from,
            blockers,
            to,
        ),
        PieceType::King => files <= 1 && ranks <= 1 && from != to,
    }
}

/// The square `df` files and `dr` ranks away, if it is on the board.
fn leap(from: Square, df: i8, dr: i8) -> (set: SquareSet)
    requires
        from.wf(),
        -2 <= df <= 2,
        -2 <= dr <= 2,
    ensures
        forall|to: int| #[trigger]
            set.has(to) <==> 0 <= to < 64 && file_of(to) == file_of(from.index as int) + df
                && rank_of(to) == rank_of(from.index as int) + dr,
{
    let file: i8 = (from.index % 8) as i8 + df;
    let rank: i8 = (from.index / 8) as i8 + dr;
    if 0 <= file && file < 8 && 0 <= rank && rank < 8 {
        let to = Square { index: (rank * 8 + file) as u8 };
        to.as_set()
    } else {
        SquareSet::empty()
    }
}

/// The squares that a slider on `from` sees in direction (`df`, `dr`).
fn ray(from: Square, df: i8, dr: i8, blockers: SquareSet) -> (set: SquareSet)
    requires
        from.wf(),
        -1 <= df <= 1,
        -1 <= dr <= 1,
        df != 0 || dr != 0,
    ensures
        forall|to: int| #[trigger]
            set.has(to) <==> sees(from.index as int, df as int, dr as int, blockers, to),
{
    let ghost start = from.index as int;
    let ghost (x, y) = (df as int, dr as int);
    let mut set = SquareSet::empty();
    let mut file: i8 = (from.index % 8) as i8 + df;
    let mut rank: i8 = (from.index / 8) as i8 + dr;
    let ghost mut k: int = 1;
    while 0 <= file && file < 8 && 0 <= rank && rank < 8
        invariant
            from.wf(),
            start == from.index,
            x == df,
            y == dr,
            -1 <= df <= 1,
            -1 <= dr <= 1,
            df != 0 || dr != 0,
            1 <= k <= 8,
            -1 <= file <= 8,
            -1 <= rank <= 8,
            file == file_of(start) + steps(x, k),
            rank == rank_of(start) + steps(y, k),
            forall|j: int| 1 <= j < k ==> !#[trigger] blockers.has(along(start, x, y, j)),
            forall|to: int| #[trigger]
                set.has(to) <==> exists|j: int|
                    j < k && #[trigger] reaches(start, x, y, blockers, to, j),
        decreases 9 - k,
    {
        let square = Square { index: (rank * 8 + file) as u8 };
        let ghost before = set;
        set = set.union(square.as_set());
        proof {
            let here = square.index as int;
            assert(here == along(start, x, y, k));
            assert(reaches(start, x, y, blockers, here, k));
            assert forall|to: int| #[trigger] set.has(to) <==> exists|j: int|
                j < k + 1 && #[trigger] reaches(start, x, y, blockers, to, j) by {
                if set.has(to) && !before.has(to) {
                    assert(to == here);
                }
                if exists|j: int| j < k + 1 && #[trigger] reaches(start, x, y, blockers, to, j) {
                    let j = choose|j: int|
                        j < k + 1 && #[trigger] reaches(start, x, y, blockers, to, j);
                    if j == k {
                        assert(to == here);
                    }
                }
            }
        }
        if blockers.contains(square) {
            proof {
                assert forall|to: int| #[trigger] set.has(to) <==> sees(
                    start,
                    x,
                    y,
                    blockers,
                    to,
                ) by {
                    if sees(start, x, y, blockers, to) {
                        let j = choose|j: int| #[trigger] reaches(start, x, y, blockers, to, j);
                        if j >= k + 1 {
                            assert(!blockers.has(along(start, x, y, k)));
                        }
                    }
                }
            }
            return set;
        }
        file = file + df;
        rank = rank + dr;
        proof {
            k = k + 1;
        }
    }
    proof {
        assert forall|to: int| #[trigger] set.has(to) <==> sees(start, x, y, blockers, to) by {
            if sees(start, x, y, blockers, to) {
                let j = choose|j: int| #[trigger] reaches(start, x, y, blockers, to, j);
                assert(j < k);
            }
        }
    }
    set
}

/// The diagonals that a slider on `from` sees.
fn diagonals(from: Square, blockers: SquareSet) -> (set: SquareSet)
    requires
        from.wf(),
    ensures
        forall|to: int| #[trigger]
            set.has(to) <==> sees_diagonally(from.index as int, blockers, to),
{
    ray(from, 1, 1, blockers).union(ray(from, 1, -1, blockers)).union(
        ray(from, -1, 1, blockers),
    ).union(ray(from, -1, -1, blockers))
}

/// The ranks and files that a slider on `from` sees.
fn straights(from: Square, blockers: SquareSet) -> (set: SquareSet)
    requires
        from.wf(),
    ensures
        forall|to: int| #[trigger] set.has(to) <==> sees_straight(from.index as int, blockers, to),
{
    ray(from, 1, 0, blockers).union(ray(from, -1, 0, blockers)).union(
        ray(from, 0, 1, blockers),
    ).union(ray(from, 0, -1, blockers))
}

/// The squares that `piece` on `from` attacks, its lines ending at the first of `blockers`.
pub fn attacks_by_type(piece: Piece, from: Square, blockers: SquareSet) -> (set: SquareSet)
    requires
        from.wf(),
    ensures
        forall|to: int| #[trigger]
            set.has(to) <==> attacks(piece, from.index as int, blockers, to),
{
    match piece.piece_type {
        PieceType::Pawn => {
            let up: i8 = match piece.colour {
                Colour::White => 1,
                Colour::Black => -1,
            };
            leap(from, 1, up).union(leap(from, -1, up))
        },
        PieceType::Knight => {
            leap(from, 1, 2).union(leap(from, 2, 1)).union(leap(from, 2, -1)).union(
                leap(from, 1, -2),
            ).union(leap(from, -1, -2)).union(leap(from, -2, -1)).union(leap(from, -2, 1)).union(
                leap(from, -1, 2),
            )
        },
        PieceType::Bishop => diagonals(from, blockers),
        PieceType::Rook => straights(from, blockers),
        PieceType::Queen => diagonals(from, blockers).union(straights(from, blockers)),
        PieceType::King => {
            leap(from, 1, 0).union(leap(from, 1, 1)).union(leap(from, 0, 1)).union(
                leap(from, -1, 1),
            ).union(leap(from, -1, 0)).union(leap(from, -1, -1)).union(leap(from, 0, -1)).union(
                leap(from, 1, -1),
            )
        },
    }
}

} // verus!
