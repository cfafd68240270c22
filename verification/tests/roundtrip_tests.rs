use arithmatic_compressor::compressor::compress;
use arithmatic_compressor::decoder::adaptive_decode;
use arithmatic_compressor::decompressor::decompress;
use arithmatic_compressor::encoder::{adaptive_encode, EncodedData};

fn uniform(m: usize) -> Vec<u32> {
    (0..=m as u32).collect()
}

fn round_trip(data: &[u8], m: usize) -> bool {
    let mut enc_table = uniform(m);
    let EncodedData { len, data: payload } = adaptive_encode(data, &mut enc_table, m);
    let mut dec_table = uniform(m);
    match adaptive_decode(len, data.len(), &payload, &mut dec_table, m) {
        Some(text) => text == data,
        None => false,
    }
}

/// A small deterministic pseudo-random byte stream.
fn pseudo_random_bytes(n: usize, seed: u64) -> Vec<u8> {
    let mut state = seed;
    let mut out = Vec::with_capacity(n);
    for _ in 0..n {
        state = state.wrapping_mul(6364136223846793005).wrapping_add(1442695040888963407);
        out.push((state >> 33) as u8);
    }
    out
}

#[test]
fn ten_thousand_random_bytes_round_trip() {
    let data = pseudo_random_bytes(10_000, 42);
    assert!(round_trip(&data, 256));
}

#[test]
fn all_equal_input_compresses_small_and_round_trips() {
    let data = vec![0u8; 1000];
    let mut table = uniform(256);
    let EncodedData { len, data: payload } = adaptive_encode(&data, &mut table, 256);
    assert_eq!(912, len);
    assert!(len < 1000);
    assert!(round_trip(&data, 256));
}

#[test]
fn carry_forcing_input_round_trips() {
    let mut data = vec![255u8; 500];
    data.extend_from_slice(&[0; 5]);
    data.extend_from_slice(&[255; 500]);
    assert!(round_trip(&data, 256));
}

#[test]
fn empty_input_round_trips_for_any_alphabet() {
    for m in [2usize, 3, 17, 256] {
        let mut table = uniform(m);
        let EncodedData { len, data: _payload } = adaptive_encode(&[], &mut table, m);
        assert_eq!(1, len);
        assert!(len <= 8);
        assert!(round_trip(&[], m));
    }
}

#[test]
fn single_symbol_inputs_round_trip() {
    for m in [2usize, 3, 4, 17, 256] {
        for s in 0..m {
            assert!(round_trip(&[s as u8], m));
        }
    }
}

#[test]
fn short_inputs_round_trip_over_many_alphabets() {
    for m in 2..64usize {
        let data: Vec<u8> = (0..40).map(|i| (i * 7 % m) as u8).collect();
        assert!(round_trip(&data, m));
    }
}

#[test]
fn compress_decompress_round_trips() {
    let data = pseudo_random_bytes(2_000, 7);
    let EncodedData { len, data: payload } = compress(&data, 256);
    let text = decompress(len, data.len(), &payload, 256).unwrap();
    assert_eq!(data, text);
}

#[test]
fn bit_length_stays_under_the_proved_bound() {
    let data = pseudo_random_bytes(500, 3);
    let mut table = uniform(256);
    let EncodedData { len, data: _payload } = adaptive_encode(&data, &mut table, 256);
    assert!(len <= 31 * data.len() + 1);
}
