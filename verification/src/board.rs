//! Pieces and their placement.

use crate::squares::{Square, SquareSet};
use vstd::prelude::*;

verus! {

/// A side.
#[derive(Clone, Copy, Debug, PartialEq, Eq, Structural)]
pub enum Colour {
    White,
    Black,
}

impl Colour {
    /// The other side.
    pub open spec fn other(self) -> Colour {
        match self {
            Colour::White => Colour::Black,
            Colour::Black => Colour::White,
        }
    }

    /// The place of the side in tables: White first.
    pub open spec fn place(self) -> int {
        match self {
            Colour::White => 0,
            Colour::Black => 1,
        }
    }

    /// The other side.
    pub fn flip(self) -> (other: Colour)
        ensures
            other == self.other(),
    {
        match self {
            Colour::White => Colour::Black,
            Colour::Black => Colour::White,
        }
    }

    /// The place of the side in tables.
    pub fn index(self) -> (index: usize)
        ensures
            index == self.place(),
            index < 2,
    {
        match self {
            Colour::White => 0,
            Colour::Black => 1,
        }
    }
}

/// A kind of piece.
#[derive(Clone, Copy, Debug, PartialEq, Eq, Structural)]
pub enum PieceType {
    Pawn,
    Knight,
    Bishop,
    Rook,
    Queen,
    King,
}

impl PieceType {
    /// The place of the kind in tables, from the pawn (0) to the king (5).
    pub open spec fn place(self) -> int {
        match self {
            PieceType::Pawn => 0,
            PieceType::Knight => 1,
            PieceType::Bishop => 2,
            PieceType::Rook => 3,
            PieceType::Queen => 4,
            PieceType::King => 5,
        }
    }

    /// The place of the kind in tables.
    pub fn index(self) -> (index: usize)
        ensures
            index == self.place(),
            index < 6,
    {
        match self {
            PieceType::Pawn => 0,
            PieceType::Knight => 1,
            PieceType::Bishop => 2,
            PieceType::Rook => 3,
            PieceType::Queen => 4,
            PieceType::King => 5,
        }
    }
}

/// A piece of one side.
#[derive(Clone, Copy, Debug, PartialEq, Eq, Structural)]
pub struct Piece {
    pub piece_type: PieceType,
    pub colour: Colour,
}

/// The squares that each kind of piece and each side stands on.
#[derive(Clone, Copy, Debug)]
pub struct PieceLayout {
    pub pieces: [SquareSet; 6],
    pub colours: [SquareSet; 2],
}

impl PieceLayout {
    /// A piece of that kind stands on square `sq`.
    pub open spec fn has_type(self, piece_type: PieceType, sq: int) -> bool {
        self.pieces@[piece_type.place()].has(sq)
    }

    /// A piece of that side stands on square `sq`.
    pub open spec fn has_colour(self, colour: Colour, sq: int) -> bool {
        self.colours@[colour.place()].has(sq)
    }

    /// A piece of that kind and that side stands on square `sq`.
    pub open spec fn has_piece(self, piece_type: PieceType, colour: Colour, sq: int) -> bool {
        self.has_type(piece_type, sq) && self.has_colour(colour, sq)
    }

    /// A piece of either side stands on square `sq`.
    pub open spec fn has_any(self, sq: int) -> bool {
        self.has_colour(Colour::White, sq) || self.has_colour(Colour::Black, sq)
    }

    /// The squares of all pieces.
    pub open spec fn blockers(self) -> SquareSet {
        SquareSet { bits: self.colours@[0].bits | self.colours@[1].bits }
    }

    /// A piece other than a king stands on square `sq`.
    pub open spec fn has_man(self, sq: int) -> bool {
        self.has_any(sq) && !self.has_type(PieceType::King, sq)
    }

    /// `sq` is the (lowest) square of the king of that side.
    pub open spec fn is_king_square(self, colour: Colour, sq: int) -> bool {
        &&& self.has_piece(PieceType::King, colour, sq)
        &&& forall|i: int| #[trigger] self.has_piece(PieceType::King, colour, i) ==> sq <= i
    }

    /// The square of the king of that side.
    pub open spec fn king_square(self, colour: Colour) -> int {
        choose|sq: int| self.is_king_square(colour, sq)
    }

    /// That side has a king.
    pub open spec fn has_king(self, colour: Colour) -> bool {
        exists|sq: int| #[trigger] self.has_piece(PieceType::King, colour, sq)
    }

    /// The squares of all pieces are those of either side.
    pub proof fn lemma_blockers(self, sq: int)
        ensures
            self.blockers().has(sq) <==> self.has_any(sq),
    {
        if 0 <= sq < 64 {
            let (a, b, j) = (self.colours@[0].bits, self.colours@[1].bits, sq as u64);
            assert(((a | b) >> j) & 1 == 1 <==> (a >> j) & 1 == 1 || (b >> j) & 1 == 1)
                by (bit_vector);
        }
    }

    /// The square of a king is on the board.
    pub proof fn lemma_king_on_board(self, colour: Colour)
        requires
            self.has_king(colour),
        ensures
            self.is_king_square(colour, self.king_square(colour)),
            0 <= self.king_square(colour) < 64,
    {
        let some = choose|sq: int| #[trigger] self.has_piece(PieceType::King, colour, sq);
        self.lemma_lowest_king(colour, some);
    }

    /// Of the squares that hold a king of that side, one is the lowest.
    proof fn lemma_lowest_king(self, colour: Colour, sq: int)
        requires
            self.has_piece(PieceType::King, colour, sq),
        ensures
            exists|low: int| self.is_king_square(colour, low),
        decreases sq,
    {
        if !self.is_king_square(colour, sq) {
            let lower = choose|i: int| #[trigger]
                self.has_piece(PieceType::King, colour, i) && i < sq;
            self.lemma_lowest_king(colour, lower);
        }
    }

    /// The squares of all pieces of that kind.
    pub fn of_type(&self, piece_type: PieceType) -> (set: SquareSet)
        ensures
            forall|i: int| #[trigger] set.has(i) <==> self.has_type(piece_type, i),
    {
        self.pieces[piece_type.index()]
    }

    /// The squares of all pieces of that side.
    pub fn of_colour(&self, colour: Colour) -> (set: SquareSet)
        ensures
            forall|i: int| #[trigger] set.has(i) <==> self.has_colour(colour, i),
    {
        self.colours[colour.index()]
    }

    /// The squares of all pieces.
    pub fn occupied(&self) -> (set: SquareSet)
        ensures
            set == self.blockers(),
            forall|i: int| #[trigger] set.has(i) <==> self.has_any(i),
    {
        self.colours[0].union(self.colours[1])
    }

    /// The square of the king of that side.
    pub fn king_sq(&self, colour: Colour) -> (square: Square)
        requires
            self.has_king(colour),
        ensures
            square.wf(),
            self.is_king_square(colour, square.index as int),
            square.index == self.king_square(colour),
    {
        let kings = self.of_type(PieceType::King).intersect(self.of_colour(colour));
        proof {
            let sq = choose|sq: int| #[trigger] self.has_piece(PieceType::King, colour, sq);
            assert(kings.has(sq));
        }
        let square = kings.first();
        proof {
            let found = square.index as int;
            assert forall|i: int| #[trigger]
                self.has_piece(PieceType::King, colour, i) implies found <= i by {
                assert(kings.has(i));
            }
            assert(kings.has(found));
            assert(self.is_king_square(colour, found));
            let named = self.king_square(colour);
            assert(self.is_king_square(colour, named));
            assert(self.has_piece(PieceType::King, colour, named));
            assert(self.has_piece(PieceType::King, colour, found));
        }
        square
    }
}

/// A position: the pieces by kind and by side, and the piece on each square.
#[derive(Clone, Copy, Debug)]
pub struct Board {
    pub bbs: PieceLayout,
    pub mailbox: [Option<Piece>; 64],
}

impl Board {
    /// Every square that holds a piece other than a king names that piece.
    pub open spec fn names_its_men(self) -> bool {
        forall|sq: int| #[trigger] self.bbs.has_man(sq) ==> self.mailbox@[sq] is Some
    }

    /// The piece on square `sq`.
    pub open spec fn piece_at(self, sq: int) -> Piece {
        self.mailbox@[sq]->0
    }
}

} // verus!
