use nnue_accumulator::accumulator::{refresh_aux, vector_update_aux, Align};
use nnue_accumulator::attacks::attacks_by_type;
use nnue_accumulator::board::{Board, Colour, Piece, PieceLayout, PieceType};
use nnue_accumulator::features::{AuxUpdateBuffer, FeatureSet, ThreatFeature};
use nnue_accumulator::layout::{RelativeFeatures, AUX_FEATURES, PAWN_TUPLE_FEATURES};
use nnue_accumulator::squares::{Square, SquareSet};

const WIDTH: usize = 256;

fn sq(name: &str) -> Square {
    let bytes = name.as_bytes();
    Square { index: (bytes[1] - b'1') * 8 + (bytes[0] - b'a') }
}

fn set_of(names: &[&str]) -> SquareSet {
    let mut bits = 0u64;
    for name in names {
        bits |= 1 << sq(name).index;
    }
    SquareSet { bits }
}

fn piece(letter: char) -> Piece {
    let piece_type = match letter.to_ascii_lowercase() {
        'p' => PieceType::Pawn,
        'n' => PieceType::Knight,
        'b' => PieceType::Bishop,
        'r' => PieceType::Rook,
        'q' => PieceType::Queen,
        'k' => PieceType::King,
        _ => panic!("no such piece"),
    };
    let colour = if letter.is_ascii_uppercase() { Colour::White } else { Colour::Black };
    Piece { piece_type, colour }
}

fn board(placement: &str) -> Board {
    let mut pieces = [SquareSet { bits: 0 }; 6];
    let mut colours = [SquareSet { bits: 0 }; 2];
    let mut mailbox = [None; 64];
    for (row, line) in placement.split('/').enumerate() {
        let mut file = 0usize;
        for letter in line.chars() {
            if let Some(gap) = letter.to_digit(10) {
                file += gap as usize;
            } else {
                let index = (7 - row) * 8 + file;
                let man = piece(letter);
                pieces[man.piece_type.index()].bits |= 1 << index;
                colours[man.colour.index()].bits |= 1 << index;
                mailbox[index] = Some(man);
                file += 1;
            }
        }
        assert_eq!(file, 8);
    }
    Board { bbs: PieceLayout { pieces, colours }, mailbox }
}

fn pawns(board: &Board) -> [SquareSet; 2] {
    let all = board.bbs.pieces[0].bits;
    [
        SquareSet { bits: all & board.bbs.colours[0].bits },
        SquareSet { bits: all & board.bbs.colours[1].bits },
    ]
}

fn squares(bits: u64) -> Vec<Square> {
    (0..64u8).filter(|i| (bits >> i) & 1 == 1).map(|index| Square { index }).collect()
}

fn threats(board: &Board) -> Vec<ThreatFeature> {
    let occupied = board.bbs.colours[0].bits | board.bbs.colours[1].bits;
    let men = occupied & !board.bbs.pieces[5].bits;
    let mut list = Vec::new();
    for from in squares(men) {
        let attacker = board.mailbox[from.index as usize].unwrap();
        let seen = attacks_by_type(attacker, from, SquareSet { bits: occupied });
        for to in squares(seen.bits & men) {
            let victim = board.mailbox[to.index as usize].unwrap();
            list.push(ThreatFeature { attacker, victim, from, to });
        }
    }
    list
}

fn updates(before: &Board, after: &Board) -> AuxUpdateBuffer {
    let (old, new) = (threats(before), threats(after));
    let add = new.iter().filter(|t| !old.contains(t)).copied().collect();
    let sub = old.iter().filter(|t| !new.contains(t)).copied().collect();
    AuxUpdateBuffer { add, sub, afore: pawns(before), after: pawns(after) }
}

fn ones() -> Vec<i8> {
    vec![1i8; AUX_FEATURES as usize * WIDTH]
}

fn scattered() -> Vec<i8> {
    let mut state = 12345u32;
    let mut weights = vec![0i8; AUX_FEATURES as usize * WIDTH];
    for weight in weights.iter_mut() {
        state = state.wrapping_mul(1664525).wrapping_add(1013904223);
        *weight = (state >> 24) as i8;
    }
    weights
}

fn refreshed(weights: &[i8], board: &Board, colour: Colour) -> Align<[i16; WIDTH]> {
    let mut acc = Align([123i16; WIDTH]);
    refresh_aux(&RelativeFeatures, weights, &mut acc, board, colour);
    acc
}

#[test]
fn bare_kings_have_no_features() {
    let position = board("4k3/8/8/8/8/8/8/4K3");
    let acc = refreshed(&ones(), &position, Colour::White);
    assert_eq!(acc.0, [0i16; WIDTH]);
}

#[test]
fn counts_threats_and_pairs() {
    // The rook attacks the pawn on d5; kings neither attack nor are attacked. The pawns c4 and d5
    // attack each other, which counts once, and they form the one pair.
    let position = board("4k3/8/8/3p4/2P5/8/8/3RK3");
    let weights = ones();
    assert_eq!(refreshed(&weights, &position, Colour::White).0, [3i16; WIDTH]);
    assert_eq!(refreshed(&weights, &position, Colour::Black).0, [3i16; WIDTH]);
}

#[test]
fn blocked_lines_are_not_threats() {
    let open = board("4k3/3p4/8/8/8/8/8/3RK3");
    let shut = board("4k3/3p4/8/8/3N4/8/8/3RK3");
    let weights = ones();
    assert_eq!(refreshed(&weights, &open, Colour::White).0[0], 1);
    // The rook now defends the knight, and the knight attacks nothing that stands.
    assert_eq!(refreshed(&weights, &shut, Colour::White).0[0], 1);
}

#[test]
fn pawns_far_apart_form_no_pair() {
    let near = board("4k3/8/8/8/8/8/PP6/4K3");
    let far = board("4k3/8/8/8/8/8/P1P5/4K3");
    let weights = ones();
    assert_eq!(refreshed(&weights, &near, Colour::White).0[0], 1);
    assert_eq!(refreshed(&weights, &far, Colour::White).0[0], 0);
}

#[test]
fn picks_the_weights_of_the_feature() {
    let position = board("4k3/3p4/8/8/8/8/8/3RK3");
    let (used, number) = RelativeFeatures.threat_index(
        Colour::White,
        sq("e1"),
        piece('R'),
        piece('p'),
        sq("d1"),
        sq("d7"),
    );
    assert!(used);
    let at = (PAWN_TUPLE_FEATURES + number) as usize * WIDTH;
    let mut weights = vec![0i8; AUX_FEATURES as usize * WIDTH];
    for j in 0..WIDTH {
        weights[at + j] = (j as i32 - 128) as i8;
    }
    let acc = refreshed(&weights, &position, Colour::White);
    for j in 0..WIDTH {
        assert_eq!(acc.0[j], j as i16 - 128);
    }
    assert_eq!(refreshed(&weights, &position, Colour::Black).0, [0i16; WIDTH]);
}

#[test]
fn refresh_of_the_initial_position() {
    let position = board("rnbqkbnr/pppppppp/8/8/8/8/PPPPPPPP/RNBQKBNR");
    // Each side: rooks defend knight and pawn (2 * 2), knights defend one pawn each besides the
    // queen's or the king's neighbour (b1 defends d2, g1 defends e2: 2), bishops two pawns each (4),
    // the queen her bishop and the pawns c2, d2, e2 (4). The pairs: 7 of neighbouring files for each
    // side, and 8 + 14 across.
    let acc = refreshed(&ones(), &position, Colour::White);
    assert_eq!(acc.0, [(14 * 2 + 7 * 2 + 22) as i16; WIDTH]);
}

#[test]
fn update_agrees_with_refresh() {
    let weights = scattered();
    let steps = [
        ("rnbqkbnr/pppppppp/8/8/8/8/PPPPPPPP/RNBQKBNR", "rnbqkbnr/pppppppp/8/8/4P3/8/PPPP1PPP/RNBQKBNR"),
        ("rnbqkbnr/ppp1pppp/8/3p4/4P3/8/PPPP1PPP/RNBQKBNR", "rnbqkbnr/ppp1pppp/8/3P4/8/8/PPPP1PPP/RNBQKBNR"),
        ("rnbqkbnr/pp1ppppp/8/2pP4/8/8/PPP1PPPP/RNBQKBNR", "rnbqkbnr/pp1ppppp/2P5/8/8/8/PPP1PPPP/RNBQKBNR"),
        ("4k3/P7/8/8/8/8/p7/1R2K3", "Q3k3/8/8/8/8/8/p7/1R2K3"),
        ("4k3/8/8/3p4/2P1P3/8/8/4K3", "4k3/8/8/2pPp3/3P4/8/8/4K3"),
    ];
    for (from, to) in steps {
        let (before, after) = (board(from), board(to));
        let changes = updates(&before, &after);
        for colour in [Colour::White, Colour::Black] {
            let king = before.bbs.king_sq(colour);
            let src = refreshed(&weights, &before, colour);
            let mut dst = Align([99i16; WIDTH]);
            vector_update_aux(&RelativeFeatures, &src, &mut dst, &weights, &changes, king, colour);
            assert_eq!(dst.0, refreshed(&weights, &after, colour).0);
            assert_ne!(dst.0, src.0);
        }
    }
}

#[test]
fn update_and_reverse_update_cancel() {
    let weights = scattered();
    let before = board("rnbqkbnr/ppp1pppp/8/3p4/4P3/8/PPPP1PPP/RNBQKBNR");
    let after = board("rnbqkbnr/ppp1pppp/8/3P4/8/8/PPPP1PPP/RNBQKBNR");
    let king = sq("e1");
    let src = Align([-321i16; WIDTH]);
    let mut there = Align([0i16; WIDTH]);
    let mut back = Align([0i16; WIDTH]);
    let forth = updates(&before, &after);
    let undo = updates(&after, &before);
    vector_update_aux(&RelativeFeatures, &src, &mut there, &weights, &forth, king, Colour::White);
    vector_update_aux(&RelativeFeatures, &there, &mut back, &weights, &undo, king, Colour::White);
    assert_ne!(there.0, src.0);
    assert_eq!(back.0, src.0);
}

#[test]
fn update_without_changes_copies() {
    let pawns = [set_of(&["a2", "b2"]), set_of(&["h7"])];
    let nothing = AuxUpdateBuffer { add: vec![], sub: vec![], afore: pawns, after: pawns };
    let weights = vec![1i8; AUX_FEATURES as usize * 300];
    let mut lanes = [0i16; 300];
    for j in 0..300 {
        lanes[j] = j as i16;
    }
    let src = Align(lanes);
    let mut dst = Align([7i16; 300]);
    vector_update_aux(
        &RelativeFeatures,
        &src,
        &mut dst,
        &weights,
        &nothing,
        sq("e1"),
        Colour::White,
    );
    assert_eq!(dst.0, src.0);
}

#[test]
fn update_leaves_lanes_behind_the_last_tile() {
    let weights = vec![1i8; AUX_FEATURES as usize * 300];
    let changes = AuxUpdateBuffer {
        add: vec![],
        sub: vec![],
        afore: [set_of(&[]), set_of(&[])],
        after: [set_of(&["a2", "b2"]), set_of(&["b7"])],
    };
    let src = Align([5i16; 300]);
    let mut dst = Align([7i16; 300]);
    vector_update_aux(
        &RelativeFeatures,
        &src,
        &mut dst,
        &weights,
        &changes,
        sq("e1"),
        Colour::White,
    );
    // Three fresh pawns on neighbouring files: three pairs, each once.
    assert_eq!(dst.0[0], 8);
    assert_eq!(dst.0[255], 8);
    assert_eq!(dst.0[256], 7);
    assert_eq!(dst.0[299], 7);
}

#[test]
fn threats_out_of_use_are_skipped() {
    let weights = ones();
    let knight = piece('N');
    let rook = piece('r');
    let pair = |attacker, victim, from: &str, to: &str| ThreatFeature {
        attacker,
        victim,
        from: sq(from),
        to: sq(to),
    };
    let changes = AuxUpdateBuffer {
        add: vec![
            pair(knight, rook, "b1", "c3"),
            pair(piece('K'), rook, "e1", "e2"),
            pair(knight, piece('n'), "b1", "c3"),
            pair(piece('n'), knight, "c3", "b1"),
        ],
        sub: vec![pair(rook, knight, "a1", "a2"), pair(rook, piece('k'), "a1", "a8")],
        afore: [set_of(&[]), set_of(&[])],
        after: [set_of(&[]), set_of(&[])],
    };
    let src = Align([40i16; WIDTH]);
    let mut dst = Align([0i16; WIDTH]);
    vector_update_aux(
        &RelativeFeatures,
        &src,
        &mut dst,
        &weights,
        &changes,
        sq("d1"),
        Colour::White,
    );
    // Two threats come into use, one goes.
    assert_eq!(dst.0, [41i16; WIDTH]);
}

#[test]
fn pawn_changes_add_and_remove_each_pair_once() {
    let weights = ones();
    let changes = AuxUpdateBuffer {
        add: vec![],
        sub: vec![],
        // a2-b2 is a pair; a2 and b2 go. c4 stays, and pairs with b2 (gone) and with d4, d5, c7.
        afore: [set_of(&["a2", "b2", "c4"]), set_of(&[])],
        after: [set_of(&["c4", "d4"]), set_of(&["d5", "c7"])],
    };
    let src = Align([0i16; WIDTH]);
    let mut dst = Align([0i16; WIDTH]);
    vector_update_aux(
        &RelativeFeatures,
        &src,
        &mut dst,
        &weights,
        &changes,
        sq("g1"),
        Colour::Black,
    );
    // Gone: a2-b2, b2-c4. Come: c4-d4, c4-d5, c4-c7, d4-d5, d4-c7, d5-c7.
    assert_eq!(dst.0, [4i16; WIDTH]);
}

#[test]
fn lanes_of_sums_wrap() {
    let weights = vec![-128i8; AUX_FEATURES as usize * WIDTH];
    let changes = AuxUpdateBuffer {
        add: vec![],
        sub: vec![],
        afore: [set_of(&[]), set_of(&[])],
        after: [set_of(&["a2", "b2"]), set_of(&[])],
    };
    let src = Align([i16::MIN + 100; WIDTH]);
    let mut dst = Align([0i16; WIDTH]);
    vector_update_aux(
        &RelativeFeatures,
        &src,
        &mut dst,
        &weights,
        &changes,
        sq("g1"),
        Colour::White,
    );
    assert_eq!(dst.0, [i16::MAX - 27; WIDTH]);
}

#[test]
fn refresh_forgets_what_was_there() {
    let position = board("rnbqkbnr/ppp1pppp/8/3p4/4P3/8/PPPP1PPP/RNBQKBNR");
    let weights = scattered();
    let mut one = Align([0i16; WIDTH]);
    let mut two = Align([-7i16; WIDTH]);
    refresh_aux(&RelativeFeatures, &weights, &mut one, &position, Colour::White);
    refresh_aux(&RelativeFeatures, &weights, &mut two, &position, Colour::White);
    assert_eq!(one.0, two.0);
}

#[test]
fn refresh_leaves_lanes_behind_the_last_tile() {
    let position = board("4k3/8/8/8/8/8/PP6/4K3");
    let weights = vec![1i8; AUX_FEATURES as usize * 300];
    let mut acc = Align([6i16; 300]);
    refresh_aux(&RelativeFeatures, &weights, &mut acc, &position, Colour::White);
    assert_eq!(acc.0[255], 1);
    assert_eq!(acc.0[256], 6);
}

#[test]
fn many_queens_fit() {
    // Nine queens a side, each side's missing pawns promoted: the buffers hold every threat.
    let position = board("4k3/8/qqqqqqqq/q6Q/1Q4Q1/Q1Q2Q2/Q1Q1Q3/4K3");
    let weights = ones();
    let mut expected = 0i16;
    for threat in threats(&position) {
        let (used, _) = threat.index(&RelativeFeatures, Colour::White, sq("e1"));
        if used {
            expected += 1;
        }
    }
    assert!(expected > 20);
    assert_eq!(refreshed(&weights, &position, Colour::White).0, [expected; WIDTH]);
}

const OPENING: &str = "rnbqkbnr/ppp1pppp/8/3p4/4P3/8/PPPP1PPP/RNBQKBNR";

fn updated(
    src: &Align<[i16; WIDTH]>,
    weights: &[i8],
    changes: &AuxUpdateBuffer,
    king: Square,
    colour: Colour,
) -> Align<[i16; WIDTH]> {
    let mut dst = Align([55i16; WIDTH]);
    vector_update_aux(&RelativeFeatures, src, &mut dst, weights, changes, king, colour);
    dst
}

#[test]
fn refresh_is_additive_in_the_weights() {
    let position = board(OPENING);
    let w3 = scattered();
    let w1: Vec<i8> = w3.iter().map(|w| w / 3).collect();
    let w2: Vec<i8> = w3.iter().zip(&w1).map(|(w, part)| w - part).collect();
    for colour in [Colour::White, Colour::Black] {
        let one = refreshed(&w1, &position, colour);
        let two = refreshed(&w2, &position, colour);
        let sum = refreshed(&w3, &position, colour);
        for j in 0..WIDTH {
            assert_eq!(sum.0[j], one.0[j].wrapping_add(two.0[j]));
        }
    }
}

#[test]
fn refresh_with_zero_weights_is_zero() {
    let weights = vec![0i8; AUX_FEATURES as usize * WIDTH];
    assert_eq!(refreshed(&weights, &board(OPENING), Colour::White).0, [0i16; WIDTH]);
}

#[test]
fn refresh_is_an_update_of_the_zero_accumulator() {
    let position = board(OPENING);
    let weights = scattered();
    let all = AuxUpdateBuffer {
        add: threats(&position),
        sub: vec![],
        afore: [set_of(&[]), set_of(&[])],
        after: pawns(&position),
    };
    for colour in [Colour::White, Colour::Black] {
        let king = position.bbs.king_sq(colour);
        let built = updated(&Align([0i16; WIDTH]), &weights, &all, king, colour);
        assert_eq!(built.0, refreshed(&weights, &position, colour).0);
    }
}

#[test]
fn two_updates_are_one_joined_update() {
    let weights = scattered();
    let first = board("rnbqkbnr/pppppppp/8/8/4P3/8/PPPP1PPP/RNBQKBNR");
    let second = board(OPENING);
    let third = board("rnbqkbnr/ppp1pppp/8/3P4/8/8/PPPP1PPP/RNBQKBNR");
    let (u1, u2) = (updates(&first, &second), updates(&second, &third));
    let mut add = u1.add.to_vec();
    add.extend_from_slice(&u2.add);
    let mut sub = u1.sub.to_vec();
    sub.extend_from_slice(&u2.sub);
    let joined = AuxUpdateBuffer { add, sub, afore: u1.afore, after: u2.after };
    let src = Align([1000i16; WIDTH]);
    let (king, colour) = (sq("e8"), Colour::Black);
    let halfway = updated(&src, &weights, &u1, king, colour);
    let twice = updated(&halfway, &weights, &u2, king, colour);
    assert_eq!(twice.0, updated(&src, &weights, &joined, king, colour).0);
}

#[test]
fn threats_may_come_in_any_order() {
    let weights = scattered();
    let (before, after) = (board(OPENING), board("rnbqkbnr/ppp1pppp/8/3P4/8/8/PPPP1PPP/RNBQKBNR"));
    let changes = updates(&before, &after);
    let mut turned = updates(&before, &after);
    turned.add.reverse();
    turned.sub.reverse();
    let src = Align([3i16; WIDTH]);
    assert_eq!(
        updated(&src, &weights, &changes, sq("e1"), Colour::White).0,
        updated(&src, &weights, &turned, sq("e1"), Colour::White).0,
    );
}

#[test]
fn a_threat_added_and_removed_cancels() {
    let weights = scattered();
    let (before, after) = (board(OPENING), board("rnbqkbnr/ppp1pppp/8/3P4/8/8/PPPP1PPP/RNBQKBNR"));
    let changes = updates(&before, &after);
    let mut more = updates(&before, &after);
    let threat = ThreatFeature {
        attacker: piece('Q'),
        victim: piece('r'),
        from: sq("a1"),
        to: sq("h8"),
    };
    more.add.push(threat);
    more.sub.push(threat);
    let src = Align([3i16; WIDTH]);
    assert_eq!(
        updated(&src, &weights, &changes, sq("e1"), Colour::White).0,
        updated(&src, &weights, &more, sq("e1"), Colour::White).0,
    );
}

#[test]
fn sixteen_fresh_pawns_form_each_pair_once() {
    let position = board("4k3/pppppppp/8/8/8/8/PPPPPPPP/4K3");
    let changes = AuxUpdateBuffer {
        add: vec![],
        sub: vec![],
        afore: [set_of(&[]), set_of(&[])],
        after: pawns(&position),
    };
    let acc = updated(&Align([0i16; WIDTH]), &ones(), &changes, sq("e1"), Colour::White);
    // Seven pairs of neighbouring files for each side, and 8 + 14 across.
    assert_eq!(acc.0, [36i16; WIDTH]);
}
