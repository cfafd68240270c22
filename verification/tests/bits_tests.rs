use arithmatic_compressor::bits::propagate_carry;

#[test]
fn propagate_carry_working() {
    let mut byte = 96;
    let t = 5;

    let carry = propagate_carry(&mut byte, t);

    assert_eq!(128, byte);
    assert!(!carry);

    let mut byte = 14;
    let t = 1;

    let carry = propagate_carry(&mut byte, t);

    assert!(!carry);
}

#[test]
fn propagate_carry_with_carry_working() {
    let mut byte = 192;
    let t = 6;

    let carry = propagate_carry(&mut byte, t);

    assert_eq!(0, byte);
    assert!(carry);
}

#[test]
fn shifting() {
    let mut byte = 128u8;

    byte <<= 1;

    assert_eq!(0, byte);
}

#[test]
fn push_bit_into_byte_sets_single_bit() {
    let mut byte = 0u8;
    arithmatic_compressor::bits::push_bit_into_byte(&mut byte, 7);
    assert_eq!(128, byte);
    arithmatic_compressor::bits::push_bit_into_byte(&mut byte, 0);
    assert_eq!(129, byte);
}

#[test]
fn push_bit_into_compressed_writes_last_byte() {
    let mut curr_bit = 3;
    let mut compressed = vec![5u8, 0u8];
    arithmatic_compressor::bits::push_bit_into_compressed(
        &mut curr_bit,
        arithmatic_compressor::bits::BIT::ONE,
        &mut compressed,
    );
    assert_eq!(vec![5u8, 8u8], compressed);
    arithmatic_compressor::bits::push_bit_into_compressed(
        &mut curr_bit,
        arithmatic_compressor::bits::BIT::ZERO,
        &mut compressed,
    );
    assert_eq!(vec![5u8, 8u8], compressed);
    assert_eq!(3, curr_bit);
}

#[test]
fn check_last_byte_full_appends_on_zero_cursor() {
    let mut curr_bit = 0;
    let mut compressed = vec![7u8];
    arithmatic_compressor::bits::check_last_byte_full(&mut curr_bit, &mut compressed);
    assert_eq!(8, curr_bit);
    assert_eq!(vec![7u8, 0u8], compressed);
    let mut curr_bit = 5;
    arithmatic_compressor::bits::check_last_byte_full(&mut curr_bit, &mut compressed);
    assert_eq!(5, curr_bit);
    assert_eq!(vec![7u8, 0u8], compressed);
}
