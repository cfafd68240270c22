use arithmatic_compressor::encoder::{
    adaptive_encode, code_value_selection, encoder_renormalization, propagate_carry,
    update_distribution, EncodedData, HALF,
};

#[test]
fn encoder_propagate_carry_works() {
    let mut d = vec![128, 14];
    let t = 1;

    propagate_carry(t, &mut d);

    assert_eq!(vec![128, 16], d);

    let mut d = vec![128, 192];
    let t = 6;

    propagate_carry(t, &mut d);

    assert_eq!(vec![129, 0], d);
}

#[test]
fn encoder_encoder_renormalization_works() {
    let mut b = 0b0111_1111_1111_1111_1111_1111_1111_1111;
    let mut l = 0b0011_1111_1111_1111_1111_1111_1111_1111;

    let mut d = vec![128];
    let mut t = 1;

    encoder_renormalization(&mut b, &mut l, &mut t, &mut d);

    assert_eq!(0b11_1111_1111_1111_1111_1111_1111_1111_00, b);
    assert_eq!(0b11_1111_1111_1111_1111_1111_1111_1111_00, l);
    assert_eq!(vec![128, 128], d);
}

#[test]
fn encoder_code_value_selection_works() {
    let b = HALF;
    let mut d = vec![129];
    let mut t = 0;

    code_value_selection(b, &mut t, &mut d);

    assert_eq!(vec![130, 0], d);
}

#[test]
fn update_distribution_works() {
    let mut cumulative = vec![1u32; 257];
    let symbol = 1;

    update_distribution(symbol, &mut cumulative, 256);

    assert_eq!(vec![2u32; 255], cumulative[2..].to_vec());
}

#[test]
fn encoder_adaptive_encode_works() {
    let zero = 1;
    let one = 1;
    let two = 1;
    let three = 1;

    let mut cumulative = vec![
        0,
        zero,
        zero + one,
        zero + one + two,
        zero + one + two + three,
    ];

    let data = [2, 1, 0, 0, 1, 3];

    let EncodedData { data, len } = adaptive_encode(&data, &mut cumulative, 4);

    assert_eq!(111, data[0]);
    assert_eq!(24, data[1]);
    assert_eq!(15, len);
}

#[test]
fn encoder_adaptive_encode_256_signs_works() {
    let mut cumulative = vec![0u32; 257];

    for i in 0..257 {
        cumulative[i] = i as u32;
    }

    let data = [2, 1, 0, 0, 1, 3];

    let EncodedData { data, len } = adaptive_encode(&data, &mut cumulative, 256);

    assert_eq!(1, data[0]);
    assert_eq!(254, data[1]);
    assert_eq!(47, len);
}

#[test]
fn adaptive_encode_empty_input_emits_one_bit() {
    let mut cumulative = vec![0, 1, 2];
    let EncodedData { data, len } = adaptive_encode(&[], &mut cumulative, 2);
    assert_eq!(1, len);
    assert!(len <= 8);
    assert_eq!(vec![128], data);
}

#[test]
fn adaptive_encode_is_deterministic() {
    let data = [3u8, 1, 4, 1, 5, 9, 2, 6, 5, 3, 5];
    let mut c1: Vec<u32> = (0..=16).collect();
    let mut c2: Vec<u32> = (0..=16).collect();
    let r1 = adaptive_encode(&data, &mut c1, 16);
    let r2 = adaptive_encode(&data, &mut c2, 16);
    assert_eq!(r1.data, r2.data);
    assert_eq!(r1.len, r2.len);
}
