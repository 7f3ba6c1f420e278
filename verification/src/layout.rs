//! A numbering of features relative to the side that looks at the board.

use crate::attacks::distance;
use crate::board::{Colour, Piece, PieceType};
use crate::features::{is_symmetric, FeatureSet};
use crate::squares::{file_of, rank_of, Square, SquareSet};
use vstd::prelude::*;

verus! {

/// Numbers features on a board that is turned so that `colour` plays up the board, and mirrored
/// so that its king stands on the files a to d.
///
/// Two pawns form a pair where they stand on the same or on neighbouring files. A threat between
/// two pieces of one kind that attack each other counts once; threats by and against kings are not
/// in use.
#[derive(Clone, Copy, Debug)]
pub struct RelativeFeatures;

/// How many numbers the pairs of pawns take.
pub const PAWN_TUPLE_FEATURES: u32 = 8256;

/// How many numbers all the auxiliary features take.
pub const AUX_FEATURES: u32 = 417856;

/// Square `sq` on the board as `colour` sees it with its king on `king`.
pub open spec fn oriented(colour: Colour, king: int, sq: int) -> int {
    let rank = match colour {
        Colour::White => rank_of(sq),
        Colour::Black => 7 - rank_of(sq),
    };
    let file = if file_of(king) < 4 {
        file_of(sq)
    } else {
        7 - file_of(sq)
    };
    rank * 8 + file
}

/// The kind of a piece other than a king as `colour` sees it: its own kinds first.
pub open spec fn relative_kind(colour: Colour, piece: Piece) -> int {
    piece.piece_type.place() + if piece.colour == colour {
        0int
    } else {
        5int
    }
}

/// The place of a pawn as `colour` sees it: its own pawns first.
pub open spec fn pawn_place(colour: Colour, king: int, pawn_colour: Colour, sq: int) -> int {
    oriented(colour, king, sq) + if pawn_colour == colour {
        0int
    } else {
        64int
    }
}

/// The number of an unordered pair of places.
pub open spec fn pair_number(x: int, y: int) -> int {
    if x >= y {
        x * (x + 1) / 2 + y
    } else {
        y * (y + 1) / 2 + x
    }
}

/// Pieces of one kind that attack each other whenever one attacks the other.
pub open spec fn is_mutual(attacker: Piece, victim: Piece) -> bool {
    attacker.piece_type == victim.piece_type && (attacker.piece_type != PieceType::Pawn
        || attacker.colour != victim.colour)
}

/// The squares on and beside the file of number `file`, as a word of bits.
pub open spec fn neighbour_files(file: int) -> u64 {
    if file == 0 {
        0x0303030303030303
    } else if file == 1 {
        0x0707070707070707
    } else if file == 2 {
        0x0e0e0e0e0e0e0e0e
    } else if file == 3 {
        0x1c1c1c1c1c1c1c1c
    } else if file == 4 {
        0x3838383838383838
    } else if file == 5 {
        0x7070707070707070
    } else if file == 6 {
        0xe0e0e0e0e0e0e0e0
    } else {
        0xc0c0c0c0c0c0c0c0
    }
}

/// The word of bits holds the squares whose file is at most one file away.
pub proof fn lemma_neighbour_files(file: int, sq: int)
    requires
        0 <= file < 8,
        0 <= sq < 64,
    ensures
        (SquareSet { bits: neighbour_files(file) }).has(sq) <==> distance(file, file_of(sq)) <= 1,
{
    let j = sq as u64;
    if file == 0 {
        assert((0x0303030303030303u64 >> j) & 1 == 1 <==> j % 8 <= 1) by (bit_vector)
            requires
                j < 64,
        ;
    } else if file == 1 {
        assert((0x0707070707070707u64 >> j) & 1 == 1 <==> j % 8 <= 2) by (bit_vector)
            requires
                j < 64,
        ;
    } else if file == 2 {
        assert((0x0e0e0e0e0e0e0e0eu64 >> j) & 1 == 1 <==> 1 <= j % 8 && j % 8 <= 3)
            by (bit_vector)
            requires
                j < 64,
        ;
    } else if file == 3 {
        assert((0x1c1c1c1c1c1c1c1cu64 >> j) & 1 == 1 <==> 2 <= j % 8 && j % 8 <= 4)
            by (bit_vector)
            requires
                j < 64,
        ;
    } else if file == 4 {
        assert((0x3838383838383838u64 >> j) & 1 == 1 <==> 3 <= j % 8 && j % 8 <= 5)
            by (bit_vector)
            requires
                j < 64,
        ;
    } else if file == 5 {
        assert((0x7070707070707070u64 >> j) & 1 == 1 <==> 4 <= j % 8 && j % 8 <= 6)
            by (bit_vector)
            requires
                j < 64,
        ;
    } else if file == 6 {
        assert((0xe0e0e0e0e0e0e0e0u64 >> j) & 1 == 1 <==> 5 <= j % 8) by (bit_vector)
            requires
                j < 64,
        ;
    } else {
        assert((0xc0c0c0c0c0c0c0c0u64 >> j) & 1 == 1 <==> 6 <= j % 8) by (bit_vector)
            requires
                j < 64,
        ;
    }
}

/// Pairs of places are numbered from 0 to 8255.
proof fn lemma_pair_number(x: int, y: int)
    requires
        0 <= x < 128,
        0 <= y < 128,
    ensures
        0 <= pair_number(x, y) < 8256,
        pair_number(x, y) == pair_number(y, x),
{
    let high = if x >= y {
        x
    } else {
        y
    };
    assert(0 <= high * (high + 1) <= 127 * 128) by (nonlinear_arith)
        requires
            0 <= high <= 127,
    ;
}

/// The square as `colour` sees it.
fn orient(colour: Colour, king: Square, square: Square) -> (r: u32)
    requires
        king.wf(),
        square.wf(),
    ensures
        r == oriented(colour, king.index as int, square.index as int),
        r < 64,
{
    let rank: u8 = match colour {
        Colour::White => square.index / 8,
        Colour::Black => 7 - square.index / 8,
    };
    let file: u8 = if king.index % 8 < 4 {
        square.index % 8
    } else {
        7 - square.index % 8
    };
    (rank * 8 + file) as u32
}

impl FeatureSet for RelativeFeatures {
    open spec fn pawn_tuple_count(&self) -> nat {
        PAWN_TUPLE_FEATURES as nat
    }

    open spec fn aux_count(&self) -> nat {
        AUX_FEATURES as nat
    }

    open spec fn threat(
        &self,
        colour: Colour,
        king: int,
        attacker: Piece,
        victim: Piece,
        from: int,
        to: int,
    ) -> (bool, u32) {
        let (x, y) = (oriented(colour, king, from), oriented(colour, king, to));
        if attacker.piece_type == PieceType::King || victim.piece_type == PieceType::King {
            (false, 0)
        } else {
            let kinds = relative_kind(colour, attacker) * 10 + relative_kind(colour, victim);
            (!(is_mutual(attacker, victim) && x > y), (kinds * 4096 + x * 64 + y) as u32)
        }
    }

    open spec fn pawn_pair(
        &self,
        colour: Colour,
        king: int,
        a_colour: Colour,
        a: int,
        b_colour: Colour,
        b: int,
    ) -> u16 {
        pair_number(
            pawn_place(colour, king, a_colour, a),
            pawn_place(colour, king, b_colour, b),
        ) as u16
    }

    open spec fn pawn_mask(&self, file: int) -> SquareSet {
        SquareSet { bits: neighbour_files(file) }
    }

    proof fn counts_fit(&self) {
    }

    proof fn threat_in_range(
        &self,
        colour: Colour,
        king: int,
        attacker: Piece,
        victim: Piece,
        from: int,
        to: int,
    ) {
    }

    proof fn pawn_pair_in_range(
        &self,
        colour: Colour,
        king: int,
        a_colour: Colour,
        a: int,
        b_colour: Colour,
        b: int,
    ) {
        lemma_pair_number(
            pawn_place(colour, king, a_colour, a),
            pawn_place(colour, king, b_colour, b),
        );
    }

    fn pawn_tuple_features(&self) -> (count: u32) {
        PAWN_TUPLE_FEATURES
    }

    fn threat_index(
        &self,
        colour: Colour,
        king: Square,
        attacker: Piece,
        victim: Piece,
        from: Square,
        to: Square,
    ) -> (r: (bool, u32)) {
        if attacker.piece_type == PieceType::King || victim.piece_type == PieceType::King {
            return (false, 0);
        }
        let x = orient(colour, king, from);
        let y = orient(colour, king, to);
        let hunter = attacker.piece_type.index() as u32 + if attacker.colour == colour {
            0u32
        } else {
            5u32
        };
        let hunted = victim.piece_type.index() as u32 + if victim.colour == colour {
            0u32
        } else {
            5u32
        };
        let mutual = attacker.piece_type == victim.piece_type && (attacker.piece_type
            != PieceType::Pawn || attacker.colour != victim.colour);
        (!(mutual && x > y), (hunter * 10 + hunted) * 4096 + x * 64 + y)
    }

    fn pawn_pawn_index(
        &self,
        colour: Colour,
        king: Square,
        a_colour: Colour,
        a: Square,
        b_colour: Colour,
        b: Square,
    ) -> (r: u16) {
        let x = orient(colour, king, a) + if a_colour == colour {
            0u32
        } else {
            64u32
        };
        let y = orient(colour, king, b) + if b_colour == colour {
            0u32
        } else {
            64u32
        };
        let (high, low) = if x >= y {
            (x, y)
        } else {
            (y, x)
        };
        proof {
            lemma_pair_number(x as int, y as int);
            assert(0 <= high * (high + 1) <= 127 * 128) by (nonlinear_arith)
                requires
                    0 <= high <= 127,
            ;
        }
        (high * (high + 1) / 2 + low) as u16
    }

    fn pawn_pawn_mask(&self, file: usize) -> (mask: SquareSet) {
        let bits: u64 = match file {
            0 => 0x0303030303030303,
            1 => 0x0707070707070707,
            2 => 0x0e0e0e0e0e0e0e0e,
            3 => 0x1c1c1c1c1c1c1c1c,
            4 => 0x3838383838383838,
            5 => 0x7070707070707070,
            6 => 0xe0e0e0e0e0e0e0e0,
            _ => 0xc0c0c0c0c0c0c0c0,
        };
        SquareSet { bits }
    }
}

/// The numbering does not tell the two pawns of a pair apart.
pub proof fn law_relative_is_symmetric()
    ensures
        is_symmetric(&RelativeFeatures),
{
    let features = RelativeFeatures;
    assert forall|a: int, b: int|
        #![trigger features.pawn_mask(file_of(a)).has(b)]
        0 <= a < 64 && 0 <= b < 64 implies (features.pawn_mask(file_of(a)).has(b)
        <==> features.pawn_mask(file_of(b)).has(a)) by {
        lemma_neighbour_files(file_of(a), b);
        lemma_neighbour_files(file_of(b), a);
    }
}

/// Square `sq` with the files turned round.
pub open spec fn mirrored(sq: int) -> int {
    sq - sq % 8 + (7 - sq % 8)
}

/// Square `sq` with the ranks turned round.
pub open spec fn turned(sq: int) -> int {
    56 - (sq - sq % 8) + sq % 8
}

/// `piece` in the colour of the other side.
pub open spec fn recoloured(piece: Piece) -> Piece {
    Piece { piece_type: piece.piece_type, colour: piece.colour.other() }
}

/// Two pawns form a pair exactly where their files are at most one apart.
pub proof fn law_pairs_stand_side_by_side(a: int, b: int)
    requires
        0 <= a < 64,
        0 <= b < 64,
    ensures
        RelativeFeatures.pawn_mask(a % 8).has(b) <==> -1 <= a % 8 - b % 8 <= 1,
{
    lemma_neighbour_files(a % 8, b);
}

/// Squares stay apart on the board as a side sees it.
proof fn lemma_oriented_apart(colour: Colour, king: int, a: int, b: int)
    requires
        0 <= a < 64,
        0 <= b < 64,
    ensures
        0 <= oriented(colour, king, a) < 64,
        oriented(colour, king, a) == oriented(colour, king, b) ==> a == b,
{
}

/// Different pairs of places have different numbers.
proof fn lemma_pair_numbers_apart(x: int, y: int, u: int, v: int)
    requires
        0 <= y <= x,
        0 <= v <= u,
        x * (x + 1) / 2 + y == u * (u + 1) / 2 + v,
    ensures
        x == u,
        y == v,
{
    if x < u {
        lemma_triangle(x, u);
    } else if u < x {
        lemma_triangle(u, x);
    }
}

/// Triangular numbers grow by more than their rank.
proof fn lemma_triangle(x: int, u: int)
    requires
        0 <= x < u,
    ensures
        x * (x + 1) / 2 + x < u * (u + 1) / 2,
{
    assert(u * (u + 1) >= x * (x + 1) + 2 * (x + 1)) by (nonlinear_arith)
        requires
            0 <= x < u,
    ;
}

/// Two pairs of pawns share a number only where they are the same two pawns: each of the same
/// side and on the same square.
pub proof fn law_pairs_apart(
    colour: Colour,
    king: int,
    p: (Colour, int),
    q: (Colour, int),
    r: (Colour, int),
    s: (Colour, int),
)
    requires
        0 <= p.1 < 64,
        0 <= q.1 < 64,
        0 <= r.1 < 64,
        0 <= s.1 < 64,
        RelativeFeatures.pawn_pair(colour, king, p.0, p.1, q.0, q.1)
            == RelativeFeatures.pawn_pair(colour, king, r.0, r.1, s.0, s.1),
    ensures
        (p == r && q == s) || (p == s && q == r),
{
    let (x, y) = (pawn_place(colour, king, p.0, p.1), pawn_place(colour, king, q.0, q.1));
    let (u, v) = (pawn_place(colour, king, r.0, r.1), pawn_place(colour, king, s.0, s.1));
    lemma_oriented_apart(colour, king, p.1, r.1);
    lemma_oriented_apart(colour, king, p.1, s.1);
    lemma_oriented_apart(colour, king, q.1, r.1);
    lemma_oriented_apart(colour, king, q.1, s.1);
    lemma_pair_number(x, y);
    lemma_pair_number(u, v);
    let (high1, low1) = if x >= y {
        (x, y)
    } else {
        (y, x)
    };
    let (high2, low2) = if u >= v {
        (u, v)
    } else {
        (v, u)
    };
    lemma_pair_numbers_apart(high1, low1, high2, low2);
}

/// Two threats between pieces other than kings share a number only where they are the same threat:
/// the same attacker, the same victim, the same squares.
pub proof fn law_threats_apart(
    colour: Colour,
    king: int,
    attacker1: Piece,
    victim1: Piece,
    from1: int,
    to1: int,
    attacker2: Piece,
    victim2: Piece,
    from2: int,
    to2: int,
)
    requires
        attacker1.piece_type != PieceType::King,
        victim1.piece_type != PieceType::King,
        attacker2.piece_type != PieceType::King,
        victim2.piece_type != PieceType::King,
        0 <= from1 < 64,
        0 <= to1 < 64,
        0 <= from2 < 64,
        0 <= to2 < 64,
        RelativeFeatures.threat(colour, king, attacker1, victim1, from1, to1).1
            == RelativeFeatures.threat(colour, king, attacker2, victim2, from2, to2).1,
    ensures
        attacker1 == attacker2,
        victim1 == victim2,
        from1 == from2,
        to1 == to2,
{
    lemma_oriented_apart(colour, king, from1, from2);
    lemma_oriented_apart(colour, king, to1, to2);
    lemma_oriented_apart(colour, king, from2, to2);
    lemma_kinds_apart(colour, attacker1, attacker2);
    lemma_kinds_apart(colour, victim1, victim2);
    let (x1, y1) = (oriented(colour, king, from1), oriented(colour, king, to1));
    let (x2, y2) = (oriented(colour, king, from2), oriented(colour, king, to2));
    let (a1, a2) = (relative_kind(colour, attacker1), relative_kind(colour, attacker2));
    let (v1, v2) = (relative_kind(colour, victim1), relative_kind(colour, victim2));
    assert((a1 * 10 + v1) * 4096 + x1 * 64 + y1 == (a2 * 10 + v2) * 4096 + x2 * 64 + y2);
}

/// Kinds stay apart as a side sees them.
proof fn lemma_kinds_apart(colour: Colour, one: Piece, two: Piece)
    requires
        one.piece_type != PieceType::King,
        two.piece_type != PieceType::King,
    ensures
        0 <= relative_kind(colour, one) < 10,
        0 <= relative_kind(colour, two) < 10,
        relative_kind(colour, one) == relative_kind(colour, two) ==> one == two,
{
}

/// Of a threat and the threat back between pieces that attack each other, exactly one is in use.
/// Every other threat between pieces other than kings is in use, and none with a king is.
pub proof fn law_threats_count_once(
    colour: Colour,
    king: int,
    attacker: Piece,
    victim: Piece,
    from: int,
    to: int,
)
    requires
        0 <= from < 64,
        0 <= to < 64,
        from != to,
    ensures
        ({
            let there = RelativeFeatures.threat(colour, king, attacker, victim, from, to).0;
            let back = RelativeFeatures.threat(colour, king, victim, attacker, to, from).0;
            if attacker.piece_type == PieceType::King || victim.piece_type == PieceType::King {
                !there
            } else if attacker.piece_type == victim.piece_type && !(attacker.piece_type
                == PieceType::Pawn && attacker.colour == victim.colour) {
                there != back
            } else {
                there
            }
        }),
{
    lemma_oriented_apart(colour, king, from, to);
}

/// Turned round from file to file, with the king, a board has the same features.
pub proof fn law_numbering_mirrors(
    colour: Colour,
    king: int,
    attacker: Piece,
    victim: Piece,
    p: Colour,
    q: Colour,
    a: int,
    b: int,
)
    requires
        0 <= king < 64,
        0 <= a < 64,
        0 <= b < 64,
    ensures
        RelativeFeatures.threat(colour, king, attacker, victim, a, b) == RelativeFeatures.threat(
            colour,
            mirrored(king),
            attacker,
            victim,
            mirrored(a),
            mirrored(b),
        ),
        RelativeFeatures.pawn_pair(colour, king, p, a, q, b) == RelativeFeatures.pawn_pair(
            colour,
            mirrored(king),
            p,
            mirrored(a),
            q,
            mirrored(b),
        ),
{
    lemma_oriented_mirrors(colour, king, a);
    lemma_oriented_mirrors(colour, king, b);
}

/// A side sees its board as the other side sees the board with the ranks turned round and the
/// colours changed.
pub proof fn law_numbering_turns(
    colour: Colour,
    king: int,
    attacker: Piece,
    victim: Piece,
    p: Colour,
    q: Colour,
    a: int,
    b: int,
)
    requires
        0 <= king < 64,
        0 <= a < 64,
        0 <= b < 64,
    ensures
        RelativeFeatures.threat(colour, king, attacker, victim, a, b) == RelativeFeatures.threat(
            colour.other(),
            turned(king),
            recoloured(attacker),
            recoloured(victim),
            turned(a),
            turned(b),
        ),
        RelativeFeatures.pawn_pair(colour, king, p, a, q, b) == RelativeFeatures.pawn_pair(
            colour.other(),
            turned(king),
            p.other(),
            turned(a),
            q.other(),
            turned(b),
        ),
{
    lemma_oriented_turns(colour, king, a);
    lemma_oriented_turns(colour, king, b);
}

/// As White sees them with its king on the files a to d, threats are numbered by attacker, victim
/// and squares, and pairs of pawns as the places below a diagonal; White's own come first. Of two
/// threats between pieces that attack each other, the one to the higher square is in use.
pub proof fn law_white_numbers(
    king: int,
    attacker: Piece,
    victim: Piece,
    p: Colour,
    q: Colour,
    a: int,
    b: int,
)
    requires
        0 <= king < 64,
        king % 8 < 4,
        0 <= a < 64,
        0 <= b < 64,
    ensures
        RelativeFeatures.pawn_tuple_count() * 2 == 128 * 129,
        RelativeFeatures.aux_count() == RelativeFeatures.pawn_tuple_count() + 100 * 4096,
        attacker.piece_type != PieceType::King && victim.piece_type != PieceType::King ==> ({
            let (used, n) = RelativeFeatures.threat(Colour::White, king, attacker, victim, a, b);
            let (first, second) = (attacker.piece_type.place(), victim.piece_type.place());
            let own = attacker.colour == Colour::White;
            let friend = victim.colour == Colour::White;
            &&& n % 4096 == a * 64 + b
            &&& n / 4096 / 10 == first + if own {
                0int
            } else {
                5int
            }
            &&& n / 4096 % 10 == second + if friend {
                0int
            } else {
                5int
            }
            &&& first == second && (first != 0 || own != friend) && a != b ==> (used <==> a < b)
        }),
        ({
            let n = RelativeFeatures.pawn_pair(Colour::White, king, p, a, q, b);
            let x = if p == Colour::White {
                a
            } else {
                a + 64
            };
            let y = if q == Colour::White {
                b
            } else {
                b + 64
            };
            &&& x >= y ==> (n - y) * 2 == x * (x + 1)
            &&& x <= y ==> (n - x) * 2 == y * (y + 1)
        }),
{
    let x = pawn_place(Colour::White, king, p, a);
    let y = pawn_place(Colour::White, king, q, b);
    lemma_pair_number(x, y);
    lemma_even(x);
    lemma_even(y);
}

/// Of two numbers in a row one is even.
proof fn lemma_even(x: int)
    ensures
        x * (x + 1) % 2 == 0,
{
    let half = x / 2;
    if x % 2 == 0 {
        assert(x * (x + 1) == 2 * (half * (x + 1))) by (nonlinear_arith)
            requires
                x == 2 * half,
        ;
    } else {
        assert(x * (x + 1) == 2 * (x * (half + 1))) by (nonlinear_arith)
            requires
                x == 2 * half + 1,
        ;
    }
}

proof fn lemma_oriented_mirrors(colour: Colour, king: int, sq: int)
    requires
        0 <= king < 64,
        0 <= sq < 64,
    ensures
        oriented(colour, mirrored(king), mirrored(sq)) == oriented(colour, king, sq),
{
    assert(mirrored(sq) % 8 == 7 - sq % 8 && mirrored(sq) / 8 == sq / 8);
    assert(mirrored(king) % 8 == 7 - king % 8);
}

proof fn lemma_oriented_turns(colour: Colour, king: int, sq: int)
    requires
        0 <= king < 64,
        0 <= sq < 64,
    ensures
        oriented(colour.other(), turned(king), turned(sq)) == oriented(colour, king, sq),
{
    assert(turned(sq) % 8 == sq % 8 && turned(sq) / 8 == 7 - sq / 8);
    assert(turned(king) % 8 == king % 8);
}

} // verus!
