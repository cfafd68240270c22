use arithmatic_compressor::helpers;

#[test]
fn cast_u64_to_bytes_is_big_endian() {
    let bytes = arithmatic_compressor::cast_u64_to_bytes(0x0102030405060708);
    assert_eq!(vec![1, 2, 3, 4, 5, 6, 7, 8], bytes);
    let bytes = helpers::cast_u64_to_bytes(0xfe);
    assert_eq!(vec![0, 0, 0, 0, 0, 0, 0, 0xfe], bytes);
}

#[test]
fn cast_bytes_to_u64_is_big_endian() {
    let number = arithmatic_compressor::cast_bytes_to_u64(&[1, 2, 3, 4, 5, 6, 7, 8]);
    assert_eq!(0x0102030405060708, number);
    let number = helpers::cast_bytes_to_u64(&[0, 0, 0, 0, 0, 0, 0, 9]);
    assert_eq!(9, number);
}

#[test]
fn u64_byte_order_round_trips() {
    for number in [0u64, 1, 0xff, 0x1234_5678_9abc_def0, u64::MAX] {
        let bytes = arithmatic_compressor::cast_u64_to_bytes(number);
        assert_eq!(number, arithmatic_compressor::cast_bytes_to_u64(&bytes));
    }
}

#[test]
fn gen_cumulative_is_uniform() {
    let cumulative = arithmatic_compressor::gen_cumulative(4);
    assert_eq!(vec![0, 1, 2, 3, 4], cumulative);
    let full = helpers::gen_cumulative();
    assert_eq!(257, full.len());
    assert_eq!(0, full[0]);
    assert_eq!(256, full[256]);
    assert_eq!(100, full[100]);
}

#[test]
fn get_first_data_chunk_zero_pads_short_input() {
    assert_eq!(0, helpers::get_first_data_chunk(&[]));
    assert_eq!(0xab00_0000, helpers::get_first_data_chunk(&[0xab]));
    assert_eq!(0x0102_0304, helpers::get_first_data_chunk(&[1, 2, 3, 4, 5]));
}
