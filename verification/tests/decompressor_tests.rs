use arithmatic_compressor::decompressor::decompress;

#[test]
fn decompressor_adaptive_decode_works() {
    let d = [111, 24];
    let symbols_count = 6;
    let len = 15;

    let text = decompress(len, symbols_count, &d, 4).unwrap();

    assert_eq!([2, 1, 0, 0, 1, 3], &text[..]);
}

#[test]
fn decompressor_adaptive_decode_256_signs_works() {
    let d = [1, 254, 255, 3, 246, 200];
    let symbols_count = 6;
    let len = 47;

    let text = decompress(len, symbols_count, &d, 256).unwrap();

    assert_eq!([2, 1, 0, 0, 1, 3], &text[..]);
}
