use nnue_accumulator::accumulator::{
    vector_add2_sub2_psqt, vector_add_sub2_psqt, vector_add_sub_psqt, vector_update_inplace_psqt,
    Accumulator, Align,
};
use nnue_accumulator::features::PsqtFeatureIndex;

const FEATURES: usize = 40;

fn feature(number: u16) -> PsqtFeatureIndex {
    PsqtFeatureIndex { number }
}

/// Weight of `feature` in `lane`.
fn weight(feature: usize, lane: usize) -> i16 {
    (feature * 1000 + lane) as i16
}

fn bucket(width: usize) -> Vec<i16> {
    let mut weights = Vec::new();
    for f in 0..FEATURES {
        for lane in 0..width {
            weights.push(weight(f, lane));
        }
    }
    weights
}

fn start<const N: usize>() -> Align<[i16; N]> {
    let mut lanes = [0i16; N];
    for j in 0..N {
        lanes[j] = 5 * j as i16 - 100;
    }
    Align(lanes)
}

#[test]
fn moves_a_feature() {
    let input = start::<512>();
    let mut output = Align([77i16; 512]);
    vector_add_sub_psqt(&input, &mut output, &bucket(512), feature(3), feature(1));
    for j in 0..512 {
        assert_eq!(output.0[j], 5 * j as i16 - 100 + 2000);
    }
    assert_eq!(input.0[0], -100);
}

#[test]
fn captures_with_one_add_and_two_subs() {
    let input = start::<256>();
    let mut output = Align([0i16; 256]);
    vector_add_sub2_psqt(&input, &mut output, &bucket(256), feature(9), feature(2), feature(4));
    for j in 0..256 {
        let exact = 5 * j as i32 - 100 + (9000 + j as i32) - (2000 + j as i32) - (4000 + j as i32);
        assert_eq!(output.0[j], exact as i16);
    }
    assert_eq!(output.0[0], 2900);
    assert_eq!(output.0[255], 2900 + 4 * 255);
}

#[test]
fn castles_with_two_adds_and_two_subs() {
    let input = start::<256>();
    let mut output = Align([0i16; 256]);
    vector_add2_sub2_psqt(
        &input,
        &mut output,
        &bucket(256),
        feature(5),
        feature(6),
        feature(7),
        feature(8),
    );
    for j in 0..256 {
        assert_eq!(output.0[j], 5 * j as i16 - 100 - 4000);
    }
}

#[test]
fn updates_in_place() {
    let mut acc = start::<512>();
    let adds = [feature(1), feature(2), feature(2)];
    let subs = [feature(6)];
    vector_update_inplace_psqt(&mut acc, &bucket(512), &adds, &subs);
    for j in 0..512i32 {
        assert_eq!(acc.0[j as usize] as i32, 5 * j - 100 + 5000 + 3 * j - 6000 - j);
    }
}

#[test]
fn empty_lists_leave_the_accumulator() {
    let mut acc = start::<256>();
    vector_update_inplace_psqt(&mut acc, &bucket(256), &[], &[]);
    assert_eq!(acc.0, start::<256>().0);
}

#[test]
fn full_lists_are_accepted() {
    let mut acc = Align([0i16; 256]);
    let adds: Vec<PsqtFeatureIndex> = (0..32).map(feature).collect();
    let subs: Vec<PsqtFeatureIndex> = (8..40).map(feature).collect();
    vector_update_inplace_psqt(&mut acc, &bucket(256), &adds, &subs);
    // 32 pairs, each 8 features apart: 32 * 8 * 1000 in all, reduced to 16 bits.
    assert_eq!(acc.0, [(-256_000i32) as i16; 256]);
}

#[test]
fn lanes_wrap() {
    let input = Align([i16::MAX; 256]);
    let mut output = Align([0i16; 256]);
    let mut weights = vec![0i16; 512];
    weights[0] = 1;
    weights[1] = i16::MAX;
    weights[256 + 2] = 1;
    weights[256 + 3] = i16::MIN;
    vector_add_sub_psqt(&input, &mut output, &weights, feature(0), feature(1));
    assert_eq!(output.0[0], i16::MIN);
    assert_eq!(output.0[1], -2);
    assert_eq!(output.0[2], i16::MAX - 1);
    assert_eq!(output.0[3], -1);
    assert_eq!(output.0[4], i16::MAX);
}

#[test]
fn lanes_behind_the_last_tile_stay() {
    let input = Align([10i16; 300]);
    let mut output = Align([20i16; 300]);
    vector_add_sub_psqt(&input, &mut output, &bucket(300), feature(1), feature(0));
    assert_eq!(output.0[255], 1010);
    assert_eq!(output.0[256], 20);
    assert_eq!(output.0[299], 20);
    let mut acc = Align([10i16; 300]);
    vector_update_inplace_psqt(&mut acc, &bucket(300), &[feature(1)], &[feature(0)]);
    assert_eq!(acc.0[255], 1010);
    assert_eq!(acc.0[256], 10);
}

#[test]
fn opposite_updates_cancel() {
    let weights = bucket(512);
    let adds = [feature(3), feature(30)];
    let subs = [feature(17), feature(0), feature(39)];
    let mut acc = start::<512>();
    vector_update_inplace_psqt(&mut acc, &weights, &adds, &subs);
    assert_ne!(acc.0, start::<512>().0);
    vector_update_inplace_psqt(&mut acc, &weights, &subs, &adds);
    assert_eq!(acc.0, start::<512>().0);
}

#[test]
fn two_moves_are_one_double_move() {
    let weights = bucket(256);
    let input = start::<256>();
    let mut halfway = Align([0i16; 256]);
    let mut twice = Align([0i16; 256]);
    vector_add_sub_psqt(&input, &mut halfway, &weights, feature(11), feature(12));
    vector_add_sub_psqt(&halfway, &mut twice, &weights, feature(21), feature(32));
    let mut once = Align([0i16; 256]);
    vector_add2_sub2_psqt(
        &input,
        &mut once,
        &weights,
        feature(11),
        feature(21),
        feature(12),
        feature(32),
    );
    assert_eq!(once.0, twice.0);
}

#[test]
fn order_does_not_matter() {
    let weights = bucket(256);
    let (a, b, c) = (feature(4), feature(14), feature(24));
    let mut one = start::<256>();
    let mut two = start::<256>();
    vector_update_inplace_psqt(&mut one, &weights, &[a, b, c], &[b, a]);
    vector_update_inplace_psqt(&mut two, &weights, &[c, a, b], &[a, b]);
    assert_eq!(one.0, two.0);
}

#[test]
fn a_feature_added_and_removed_cancels() {
    let weights = bucket(256);
    let mut one = start::<256>();
    let mut two = start::<256>();
    vector_update_inplace_psqt(&mut one, &weights, &[feature(4), feature(9)], &[feature(9)]);
    vector_update_inplace_psqt(&mut two, &weights, &[feature(4)], &[]);
    assert_eq!(one.0, two.0);
}

#[test]
fn an_accumulator_has_two_halves() {
    let mut acc = Accumulator { halves: [Align([1i16; 256]), Align([2i16; 256])] };
    let weights = bucket(256);
    vector_update_inplace_psqt(&mut acc.halves[1], &weights, &[feature(2)], &[]);
    assert_eq!(acc.halves[0].0[7], 1);
    assert_eq!(acc.halves[1].0[7], 2009);
}

#[test]
fn in_place_agrees_with_out_of_place() {
    let weights = bucket(512);
    let input = start::<512>();
    let mut output = Align([9i16; 512]);
    vector_add_sub2_psqt(&input, &mut output, &weights, feature(8), feature(18), feature(28));
    let mut acc = start::<512>();
    vector_update_inplace_psqt(&mut acc, &weights, &[feature(8)], &[feature(18), feature(28)]);
    assert_eq!(acc.0, output.0);
}

#[test]
fn the_same_features_added_and_removed_copy() {
    let weights = bucket(256);
    let input = start::<256>();
    let mut output = Align([0i16; 256]);
    vector_add_sub_psqt(&input, &mut output, &weights, feature(13), feature(13));
    assert_eq!(output.0, input.0);
    let mut output = Align([0i16; 256]);
    let (a, b) = (feature(31), feature(7));
    vector_add2_sub2_psqt(&input, &mut output, &weights, a, b, b, a);
    assert_eq!(output.0, input.0);
}

#[test]
fn blocks_may_come_in_any_order() {
    let weights = bucket(256);
    let input = start::<256>();
    let mut one = Align([0i16; 256]);
    let mut two = Align([1i16; 256]);
    let (a, b, c, d) = (feature(3), feature(23), feature(33), feature(39));
    vector_add2_sub2_psqt(&input, &mut one, &weights, a, b, c, d);
    vector_add2_sub2_psqt(&input, &mut two, &weights, b, a, d, c);
    assert_eq!(one.0, two.0);
}
