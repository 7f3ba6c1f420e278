use nnue_accumulator::attacks::attacks_by_type;
use nnue_accumulator::board::{Colour, Piece, PieceType};
use nnue_accumulator::features::{FeatureSet, PsqtFeatureIndex, ThreatFeature};
use nnue_accumulator::layout::{RelativeFeatures, AUX_FEATURES, PAWN_TUPLE_FEATURES};
use nnue_accumulator::squares::{Square, SquareSet};

fn at(index: u8) -> Square {
    Square::new(index).unwrap()
}

fn man(piece_type: PieceType, colour: Colour) -> Piece {
    Piece { piece_type, colour }
}

const NONE: SquareSet = SquareSet { bits: 0 };

#[test]
fn squares_are_numbered_below_64() {
    assert_eq!(Square::new(63), Some(Square { index: 63 }));
    assert_eq!(Square::new(64), None);
    assert_eq!(at(8).file(), 0);
    assert_eq!(at(15).file(), 7);
}

#[test]
fn sets_pop_their_lowest_square() {
    let mut set = SquareSet { bits: 0x8000_0000_0000_0110 };
    assert_eq!(set.first(), at(4));
    assert_eq!(set.pop_first(), at(4));
    assert_eq!(set.pop_first(), at(8));
    assert!(!set.is_empty());
    assert_eq!(set.pop_first(), at(63));
    assert!(set.is_empty());
}

#[test]
fn sets_combine() {
    let a = SquareSet { bits: 0b1100 };
    let b = SquareSet { bits: 0b1010 };
    assert_eq!(a.union(b).bits, 0b1110);
    assert_eq!(a.intersect(b).bits, 0b1000);
    assert_eq!(a.without(b).bits, 0b0100);
    assert!(a.contains(at(2)));
    assert!(!a.contains(at(1)));
    assert_eq!(at(5).as_set().bits, 32);
    assert_eq!(SquareSet::empty(), NONE);
}

#[test]
fn sides_flip() {
    assert_eq!(Colour::White.flip(), Colour::Black);
    assert_eq!(Colour::Black.flip(), Colour::White);
}

#[test]
fn leapers_attack() {
    let knight = man(PieceType::Knight, Colour::White);
    assert_eq!(attacks_by_type(knight, at(0), NONE).bits, (1 << 10) | (1 << 17));
    let king = man(PieceType::King, Colour::Black);
    assert_eq!(attacks_by_type(king, at(0), NONE).bits, 0x302);
    let white = man(PieceType::Pawn, Colour::White);
    let black = man(PieceType::Pawn, Colour::Black);
    assert_eq!(attacks_by_type(white, at(8), NONE).bits, 1 << 17);
    assert_eq!(attacks_by_type(white, at(12), NONE).bits, (1 << 19) | (1 << 21));
    assert_eq!(attacks_by_type(black, at(12), NONE).bits, (1 << 3) | (1 << 5));
    assert_eq!(attacks_by_type(black, at(3), NONE).bits, 0);
}

#[test]
fn sliders_stop_at_the_first_blocker() {
    let rook = man(PieceType::Rook, Colour::White);
    assert_eq!(attacks_by_type(rook, at(0), NONE).bits, 0x0101_0101_0101_01fe);
    let blockers = SquareSet { bits: (1 << 16) | (1 << 3) | (1 << 4) };
    assert_eq!(attacks_by_type(rook, at(0), blockers).bits, (1 << 8) | (1 << 16) | 0b1110);
    let bishop = man(PieceType::Bishop, Colour::White);
    assert_eq!(attacks_by_type(bishop, at(0), NONE).bits, 0x8040_2010_0804_0200);
    let queen = man(PieceType::Queen, Colour::White);
    assert_eq!(
        attacks_by_type(queen, at(27), NONE).bits.count_ones(),
        27,
    );
}

#[test]
fn features_keep_their_numbers() {
    assert_eq!(PsqtFeatureIndex { number: 703 }.index(), 703);
    assert_eq!(RelativeFeatures.pawn_tuple_features(), PAWN_TUPLE_FEATURES);
}

#[test]
fn threats_are_numbered_from_the_side_that_looks() {
    let rook = man(PieceType::Rook, Colour::White);
    let pawn = man(PieceType::Pawn, Colour::Black);
    let threat = ThreatFeature { attacker: rook, victim: pawn, from: at(0), to: at(48) };
    let own_rook = 3u32;
    let their_pawn = 5u32;
    assert_eq!(
        threat.index(&RelativeFeatures, Colour::White, at(0)),
        (true, (own_rook * 10 + their_pawn) * 4096 + 48),
    );
    // Mirrored: the king stands on the e-file.
    assert_eq!(
        threat.index(&RelativeFeatures, Colour::White, at(4)),
        (true, (own_rook * 10 + their_pawn) * 4096 + 7 * 64 + 55),
    );
    // Turned: Black looks.
    let their_rook = 8u32;
    let own_pawn = 0u32;
    assert_eq!(
        threat.index(&RelativeFeatures, Colour::Black, at(0)),
        (true, (their_rook * 10 + own_pawn) * 4096 + 56 * 64 + 8),
    );
    let king = man(PieceType::King, Colour::White);
    let by_king = ThreatFeature { attacker: king, victim: pawn, from: at(0), to: at(1) };
    assert_eq!(by_king.index(&RelativeFeatures, Colour::White, at(0)), (false, 0));
}

#[test]
fn pairs_have_one_number_each() {
    let (w, b) = (Colour::White, Colour::Black);
    let king = at(2);
    let mut seen = vec![false; PAWN_TUPLE_FEATURES as usize];
    for x in 0..128u8 {
        for y in 0..=x {
            let side = |p: u8| if p < 64 { w } else { b };
            let one = RelativeFeatures.pawn_pawn_index(
                w, king, side(x), at(x % 64), side(y), at(y % 64),
            );
            let other = RelativeFeatures.pawn_pawn_index(
                w, king, side(y), at(y % 64), side(x), at(x % 64),
            );
            assert_eq!(one, other);
            assert!(!seen[one as usize]);
            seen[one as usize] = true;
        }
    }
    assert!(seen.iter().all(|used| *used));
}

#[test]
fn pairs_stand_on_neighbouring_files() {
    for file in 0..8usize {
        let mask = RelativeFeatures.pawn_pawn_mask(file);
        for index in 0..64u8 {
            let near = (at(index).file() as i32 - file as i32).abs() <= 1;
            assert_eq!(mask.contains(at(index)), near);
        }
    }
}

#[test]
fn numbers_fill_the_table() {
    assert_eq!(AUX_FEATURES, PAWN_TUPLE_FEATURES + 10 * 10 * 64 * 64);
}
