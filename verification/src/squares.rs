//! Squares and sets of squares.

use vstd::prelude::*;
use vstd::std_specs::bits::axiom_u64_trailing_zeros;

verus! {

/// Squares of the board.
pub const SQUARES: usize = 64;

/// A square, numbered along the ranks from a1 (0) to h8 (63).
#[derive(Clone, Copy, Debug, PartialEq, Eq, Structural)]
pub struct Square {
    pub index: u8,
}

impl Square {
    /// The number names a square.
    pub open spec fn wf(self) -> bool {
        self.index < SQUARES
    }

    /// The square of that number, if there is one.
    pub fn new(index: u8) -> (square: Option<Square>)
        ensures
            square is Some <==> index < SQUARES,
            square matches Some(s) ==> s.wf() && s.index == index,
    {
        if index < 64 {
            Some(Square { index })
        } else {
            None
        }
    }

    /// The file, from the a-file (0) to the h-file (7).
    pub fn file(self) -> (file: usize)
        ensures
            file == file_of(self.index as int),
    {
        (self.index % 8) as usize
    }

    /// The set that holds this square alone.
    pub fn as_set(self) -> (set: SquareSet)
        requires
            self.wf(),
        ensures
            forall|i: int| #[trigger] set.has(i) <==> i == self.index,
    {
        let index = self.index;
        let set = SquareSet { bits: 1u64 << index };
        proof {
            assert forall|i: int| #[trigger] set.has(i) <==> i == index by {
                if 0 <= i < 64 {
                    let j = i as u64;
                    assert(((1u64 << index) >> j) & 1 == 1 <==> j == index) by (bit_vector)
                        requires
                            index < 64,
                            j < 64,
                    ;
                }
            }
        }
        set
    }
}

/// The file of square `sq`.
pub open spec fn file_of(sq: int) -> int {
    sq % 8
}

/// The rank of square `sq`.
pub open spec fn rank_of(sq: int) -> int {
    sq / 8
}

/// A set of squares: bit `i` tells whether square `i` belongs to it.
#[derive(Clone, Copy, Debug, PartialEq, Eq, Structural)]
pub struct SquareSet {
    pub bits: u64,
}

impl SquareSet {
    /// Square `i` belongs to the set.
    pub open spec fn has(self, i: int) -> bool {
        0 <= i < SQUARES && (self.bits >> (i as u64)) & 1 == 1
    }

    /// The set without squares.
    pub fn empty() -> (set: SquareSet)
        ensures
            forall|i: int| !#[trigger] set.has(i),
    {
        let set = SquareSet { bits: 0 };
        proof {
            lemma_no_bits(set);
        }
        set
    }

    /// Tells whether no square belongs to the set.
    pub fn is_empty(self) -> (r: bool)
        ensures
            r <==> forall|i: int| !#[trigger] self.has(i),
    {
        proof {
            lemma_no_bits(self);
        }
        self.bits == 0
    }

    /// Tells whether `square` belongs to the set.
    pub fn contains(self, square: Square) -> (r: bool)
        requires
            square.wf(),
        ensures
            r <==> self.has(square.index as int),
    {
        (self.bits >> (square.index as u64)) & 1 == 1
    }

    /// The squares of both sets.
    pub fn intersect(self, other: SquareSet) -> (set: SquareSet)
        ensures
            forall|i: int| #[trigger] set.has(i) <==> self.has(i) && other.has(i),
    {
        let set = SquareSet { bits: self.bits & other.bits };
        proof {
            assert forall|i: int| #[trigger] set.has(i) <==> self.has(i) && other.has(i) by {
                if 0 <= i < 64 {
                    let (a, b, j) = (self.bits, other.bits, i as u64);
                    assert(((a & b) >> j) & 1 == 1 <==> (a >> j) & 1 == 1 && (b >> j) & 1 == 1)
                        by (bit_vector);
                }
            }
        }
        set
    }

    /// The squares of either set.
    pub fn union(self, other: SquareSet) -> (set: SquareSet)
        ensures
            set.bits == self.bits | other.bits,
            forall|i: int| #[trigger] set.has(i) <==> self.has(i) || other.has(i),
    {
        let set = SquareSet { bits: self.bits | other.bits };
        proof {
            assert forall|i: int| #[trigger] set.has(i) <==> self.has(i) || other.has(i) by {
                if 0 <= i < 64 {
                    let (a, b, j) = (self.bits, other.bits, i as u64);
                    assert(((a | b) >> j) & 1 == 1 <==> (a >> j) & 1 == 1 || (b >> j) & 1 == 1)
                        by (bit_vector);
                }
            }
        }
        set
    }

    /// The squares of this set that are not in the other.
    pub fn without(self, other: SquareSet) -> (set: SquareSet)
        ensures
            forall|i: int| #[trigger] set.has(i) <==> self.has(i) && !other.has(i),
    {
        let set = SquareSet { bits: self.bits & !other.bits };
        proof {
            assert forall|i: int| #[trigger] set.has(i) <==> self.has(i) && !other.has(i) by {
                if 0 <= i < 64 {
                    let (a, b, j) = (self.bits, other.bits, i as u64);
                    assert(((a & !b) >> j) & 1 == 1 <==> (a >> j) & 1 == 1 && (b >> j) & 1 != 1)
                        by (bit_vector)
                        requires
                            j < 64,
                    ;
                }
            }
        }
        set
    }

    /// The lowest square of the set.
    pub fn first(self) -> (square: Square)
        requires
            exists|i: int| #[trigger] self.has(i),
        ensures
            square.wf(),
            is_lowest(self, square.index as int),
    {
        proof {
            lemma_no_bits(self);
            axiom_u64_trailing_zeros(self.bits);
        }
        let index = self.bits.trailing_zeros();
        proof {
            assert forall|i: int| #[trigger] self.has(i) implies index <= i by {
                if i < index {
                    let j = i as u64;
                    assert((self.bits >> j) & 1u64 == 0u64);
                }
            }
        }
        Square { index: index as u8 }
    }

    /// Takes the lowest square out of the set.
    pub fn pop_first(&mut self) -> (square: Square)
        requires
            exists|i: int| #[trigger] old(self).has(i),
        ensures
            square.wf(),
            is_lowest(*old(self), square.index as int),
            forall|i: int|
                #[trigger] final(self).has(i) <==> old(self).has(i) && i != square.index,
    {
        let square = self.first();
        *self = self.without(square.as_set());
        square
    }
}

/// `sq` is the lowest square of `set`.
pub open spec fn is_lowest(set: SquareSet, sq: int) -> bool {
    set.has(sq) && forall|i: int| #[trigger] set.has(i) ==> sq <= i
}

/// Only the word of zeros has no bit set.
proof fn lemma_no_bits(set: SquareSet)
    ensures
        set.bits == 0 <==> forall|i: int| !#[trigger] set.has(i),
{
    let bits = set.bits;
    if bits == 0 {
        assert forall|i: int| !#[trigger] set.has(i) by {
            if 0 <= i < 64 {
                let j = i as u64;
                assert((0u64 >> j) & 1 != 1) by (bit_vector);
            }
        }
    } else {
        axiom_u64_trailing_zeros(bits);
        assert(set.has(bits.trailing_zeros() as int));
    }
}

} // verus!
