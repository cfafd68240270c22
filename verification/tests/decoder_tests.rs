use arithmatic_compressor::decoder::{adaptive_decode, decode, interval_selection};

#[test]
fn interval_selection_works() {
    let w = u32::MAX / 4;
    let x = w;
    let y = w;
    let z = u32::MAX - w - x - y;

    let cumulative = vec![0, w, w + x, w + x + y, w + x + y + z];
    let mut b = 0;
    let mut l = u32::MAX;
    let v = w + 10;

    let s = interval_selection(v, &mut b, &mut l, &cumulative, 4).unwrap();

    assert_eq!(1, s);
    assert_eq!(w, b + 1);
    assert_eq!(x, b + 1);
}

#[test]
fn decoder_renormalization_works() {}

#[test]
fn decode_works() {
    let zero = u32::MAX / 5;
    let one = u32::MAX / 2;
    let two = zero;

    let cumulative = vec![0, zero, zero + one, zero + one + two, u32::MAX];
    let d = [0b10111110, 0b00100000];
    let symbols_count = 6;
    let len = 13;

    let text = decode(len, symbols_count, &d, &cumulative, 4).unwrap();

    assert_eq!([2, 1, 0, 0, 1, 3], &text[..]);
}

#[test]
fn decoder_adaptive_decode_works() {
    let zero = 1;
    let one = 1;
    let two = 1;
    let three = 1;

    let mut cumulative = vec![
        0,
        zero,
        zero + one,
        zero + one + two,
        zero + one + two + three,
    ];
    let d = [111, 24];
    let symbols_count = 6;
    let len = 15;

    let text = adaptive_decode(len, symbols_count, &d, &mut cumulative, 4).unwrap();

    assert_eq!([2, 1, 0, 0, 1, 3], &text[..]);
}

#[test]
fn decoder_adaptive_decode_256_signs_works() {
    let mut cumulative = vec![0u32; 257];

    for i in 0..257 {
        cumulative[i] = i as u32;
    }

    let d = [1, 254, 255, 3, 246, 200];
    let symbols_count = 6;
    let len = 47;

    let text = adaptive_decode(len, symbols_count, &d, &mut cumulative, 256).unwrap();

    assert_eq!([2, 1, 0, 0, 1, 3], &text[..]);
}

#[test]
fn decode_reports_corrupt_stream() {
    // An unsorted table can leave the search with no acceptable symbol; the
    // decoder signals the corrupt stream instead of committing an interval.
    let cumulative = vec![3549212109, 3198677561, 4077313025, 1102552373, 3650460258];
    let d = [7, 141];
    assert!(decode(4, 2, &d, &cumulative, 4).is_none());
}

#[test]
fn interval_selection_handles_wrapped_intervals() {
    // The interval [0xF0000000, 0x10000000) wraps the 32-bit boundary:
    // symbol 0 owns [0xF0000000, 0), symbol 1 owns [0, 0x10000000).
    let cumulative = vec![0, 0x8000_0000, u32::MAX];

    let mut b = 0xF000_0000;
    let mut l = 0x2000_0000;
    let s = interval_selection(0xF800_0000, &mut b, &mut l, &cumulative, 2).unwrap();
    assert_eq!(0, s);
    assert_eq!(0xF000_0000, b);
    assert_eq!(0x1000_0000, l);

    let mut b = 0xF000_0000;
    let mut l = 0x2000_0000;
    let s = interval_selection(0x0000_0001, &mut b, &mut l, &cumulative, 2).unwrap();
    assert_eq!(1, s);
    assert_eq!(0, b);
    assert_eq!(0x1000_0000, l);
}
