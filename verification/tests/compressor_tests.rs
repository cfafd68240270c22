use arithmatic_compressor::compressor::{compress, update_block, update_distribution_block, EncodedData};
use arithmatic_compressor::encoder::{code_value_selection, encoder_renormalization, propagate_carry, HALF};

#[test]
fn compressor_propagate_carry_works() {
    let mut d = vec![128, 14];
    let t = 1;

    propagate_carry(t, &mut d);

    assert_eq!(vec![128, 16], d);

    let mut d = vec![128, 192];
    let t = 6;

    propagate_carry(t, &mut d);

    assert_eq!(vec![129, 0], d);
}

#[test]
fn compressor_encoder_renormalization_works() {
    let mut b = 0b0111_1111_1111_1111_1111_1111_1111_1111;
    let mut l = 0b0011_1111_1111_1111_1111_1111_1111_1111;

    let mut d = vec![128];
    let mut t = 1;

    encoder_renormalization(&mut b, &mut l, &mut t, &mut d);

    assert_eq!(0b11_1111_1111_1111_1111_1111_1111_1111_00, b);
    assert_eq!(0b11_1111_1111_1111_1111_1111_1111_1111_00, l);
    assert_eq!(vec![128, 128], d);
}

#[test]
fn compressor_code_value_selection_works() {
    let b = HALF;
    let mut d = vec![129];
    let mut t = 0;

    code_value_selection(b, &mut t, &mut d);

    assert_eq!(vec![130, 0], d);
}

#[test]
fn compressor_adaptive_encode_works() {
    let data = [2, 1, 0, 0, 1, 3];

    let EncodedData { data, len } = compress(&data, 4);

    assert_eq!(111, data[0]);
    assert_eq!(24, data[1]);
    assert_eq!(15, len);
}

#[test]
fn compressor_adaptive_encode_256_signs_works() {
    let data = [2, 1, 0, 0, 1, 3];

    let EncodedData { data, len } = compress(&data, 256);

    assert_eq!(1, data[0]);
    assert_eq!(254, data[1]);
    assert_eq!(47, len);
}

#[test]
fn update_block_counts_and_wraps_index() {
    let mut occurences = vec![1u32; 256];
    let mut idx = 0;
    update_block(&mut occurences, &mut idx, 7);
    assert_eq!(2, occurences[7]);
    assert_eq!(1, occurences[8]);
    assert_eq!(1, idx);
    let mut idx = 127;
    update_block(&mut occurences, &mut idx, 7);
    assert_eq!(3, occurences[7]);
    assert_eq!(0, idx);
}

#[test]
fn update_distribution_block_builds_prefix_sums() {
    let mut occurences = vec![1u32; 256];
    occurences[0] = 3;
    occurences[2] = 2;
    let mut cumulative = vec![0u32; 257];
    update_distribution_block(&occurences, &mut cumulative);
    assert_eq!(0, cumulative[0]);
    assert_eq!(3, cumulative[1]);
    assert_eq!(4, cumulative[2]);
    assert_eq!(6, cumulative[3]);
    assert_eq!(7, cumulative[4]);
    assert_eq!(259, cumulative[256]);
}

#[test]
fn compress_matches_adaptive_encode() {
    let data: Vec<u8> = (0..200u16).map(|i| (i % 64) as u8).collect();
    let r1 = compress(&data, 64);
    let mut c: Vec<u32> = (0..=64).collect();
    let r2 = arithmatic_compressor::encoder::adaptive_encode(&data, &mut c, 64);
    assert_eq!(r1.data, r2.data);
    assert_eq!(r1.len, r2.len);
}
