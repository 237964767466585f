use deno_panic::vlq::{base64_lut, base64_symbol, decode_offsets, encode_offsets, vlq_decode, vlq_encode, VlqError};

const ALPHABET: &[u8; 64] = b"ABCDEFGHIJKLMNOPQRSTUVWXYZabcdefghijklmnopqrstuvwxyz0123456789-_";

fn enc(v: i32) -> Vec<u8> {
    let mut out = Vec::new();
    vlq_encode(v, &mut out);
    out
}

fn dec(bytes: &[u8]) -> (Result<i32, VlqError>, usize) {
    let mut pos = 0usize;
    let r = vlq_decode(bytes, &mut pos);
    (r, pos)
}

#[test]
fn encode_zero_is_single_a() {
    assert_eq!(enc(0), b"A".to_vec());
}

#[test]
fn encode_small_values() {
    assert_eq!(enc(1), b"C".to_vec());
    assert_eq!(enc(-1), b"D".to_vec());
    assert_eq!(enc(15), b"e".to_vec());
    assert_eq!(enc(16), b"gB".to_vec());
    assert_eq!(enc(-16), b"hB".to_vec());
}

#[test]
fn encode_appends_to_existing_buffer() {
    let mut out = b"xy".to_vec();
    vlq_encode(1, &mut out);
    assert_eq!(out, b"xyC".to_vec());
}

#[test]
fn encode_plus_and_minus_one_differ_in_parity_bit() {
    let a = enc(1);
    let b = enc(-1);
    assert_eq!(a.len(), b.len());
    assert_eq!(base64_lut(a[0]) ^ base64_lut(b[0]), 1);
    let c = enc(123456);
    let d = enc(-123456);
    assert_eq!(c.len(), d.len());
    assert_eq!(c[1..], d[1..]);
    assert_eq!(base64_lut(c[0]) + 1, base64_lut(d[0]));
}

#[test]
fn encode_extremes_fit_seven_symbols() {
    assert_eq!(enc(i32::MAX).len(), 7);
    assert_eq!(enc(-i32::MAX).len(), 7);
    assert!(enc(i32::MIN).len() <= 7);
}

#[test]
fn encoded_symbols_are_in_alphabet() {
    for v in [0, 1, -1, 31, 32, -33, 1 << 20, i32::MAX, i32::MIN, -i32::MAX, 987654321] {
        for b in enc(v) {
            assert!(ALPHABET.contains(&b), "symbol {} of {}", b, v);
        }
    }
}

#[test]
fn round_trip_values() {
    for v in [0, 1, -1, 15, 16, -16, 1000, -1000, 1 << 29, 1 << 30, -(1 << 30), i32::MAX, -i32::MAX] {
        let bytes = enc(v);
        let (r, pos) = dec(&bytes);
        assert_eq!(r, Ok(v));
        assert_eq!(pos, bytes.len());
    }
}

#[test]
fn decode_empty_input_is_eof() {
    let (r, pos) = dec(b"");
    assert_eq!(r, Err(VlqError::UnexpectedEof));
    assert_eq!(pos, 0);
}

#[test]
fn decode_truncated_codeword_is_eof() {
    let (r, pos) = dec(b"gg");
    assert_eq!(r, Err(VlqError::UnexpectedEof));
    assert_eq!(pos, 2);
}

#[test]
fn decode_from_middle() {
    let mut pos = 1usize;
    assert_eq!(vlq_decode(b"AgBC", &mut pos), Ok(16));
    assert_eq!(pos, 3);
    assert_eq!(vlq_decode(b"AgBC", &mut pos), Ok(1));
    assert_eq!(pos, 4);
    assert_eq!(vlq_decode(b"AgBC", &mut pos), Err(VlqError::UnexpectedEof));
}

#[test]
fn decode_symbol_outside_alphabet_reads_as_zero() {
    let (r, pos) = dec(b"!C");
    assert_eq!(r, Ok(0));
    assert_eq!(pos, 1);
}

#[test]
fn decode_stops_after_seven_symbols() {
    let (r, pos) = dec(b"gggggggC");
    assert_eq!(r, Ok(0));
    assert_eq!(pos, 7);
}

#[test]
fn concatenated_codewords_decode_in_order() {
    let values = vec![0, 1, -1, 12345, -99999, i32::MAX, 7, -(1 << 30)];
    let bytes = encode_offsets(&values);
    let mut expected = Vec::new();
    for v in &values {
        vlq_encode(*v, &mut expected);
    }
    assert_eq!(bytes, expected);
    assert_eq!(decode_offsets(&bytes), values);
}

#[test]
fn decode_offsets_of_empty_trace_is_empty() {
    assert_eq!(decode_offsets(b""), Vec::<i32>::new());
    assert_eq!(encode_offsets(&[]), Vec::<u8>::new());
}

#[test]
fn decode_offsets_drops_truncated_tail() {
    assert_eq!(decode_offsets(b"CDg"), vec![1, -1]);
}

#[test]
fn lut_maps_alphabet_to_digits() {
    for (i, b) in ALPHABET.iter().enumerate() {
        assert_eq!(base64_lut(*b) as usize, i);
        assert_eq!(base64_symbol(i as u8), *b);
    }
    assert_eq!(base64_lut(b'+'), 0);
    assert_eq!(base64_lut(b'/'), 0);
    assert_eq!(base64_lut(b'='), 0);
}
