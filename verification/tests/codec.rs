use ae_rs::{decode_all, encode_all, Decoder, Encoder};

fn next_random(state: &mut u32) -> u8 {
    *state = state.wrapping_mul(1664525).wrapping_add(1013904223);
    (*state >> 24) as u8
}

#[test]
fn encode_all_of_nothing() {
    assert_eq!(encode_all(&[]), Ok(vec![0xFF, 0x40]));
}

#[test]
fn encode_all_of_single_zero() {
    assert_eq!(encode_all(&[0x00]), Ok(vec![0x00, 0xFE, 0x80]));
}

#[test]
fn decode_all_of_known_bytes() {
    assert_eq!(decode_all(&[0xFF, 0x40]), Ok(vec![]));
    assert_eq!(decode_all(&[0x00, 0xFE, 0x80]), Ok(vec![0x00]));
}

#[test]
fn decode_all_of_empty_source_is_empty() {
    assert_eq!(decode_all(&[]), Ok(vec![]));
}

#[test]
fn encode_all_agrees_with_step_by_step_encoding() {
    let input = b"abracadabra";
    let mut encoder = Encoder::new(Vec::new());
    for s in input {
        encoder.encode_next(*s as usize).unwrap();
    }
    encoder.encode_end().unwrap();
    assert_eq!(encode_all(input), Ok(encoder.into_inner()));
}

#[test]
fn decode_all_agrees_with_step_by_step_decoding() {
    let input = b"abracadabra";
    let encoded = encode_all(input).unwrap();
    let mut decoder = Decoder::new(&encoded);
    for s in input {
        assert_eq!(decoder.decode_next(), Ok(*s as usize));
    }
    assert_eq!(decoder.decode_next(), Ok(256));
    assert_eq!(decode_all(&encoded), Ok(input.to_vec()));
}

#[test]
fn decode_all_inverts_encode_all() {
    let mut state: u32 = 2024;
    for n in [0usize, 1, 2, 3, 7, 8, 9, 255, 256, 257, 1000, 5000] {
        let input: Vec<u8> = (0..n).map(|_| next_random(&mut state)).collect();
        let encoded = encode_all(&input).unwrap();
        assert_eq!(decode_all(&encoded), Ok(input));
    }
}

#[test]
fn decode_all_inverts_encode_all_on_skewed_input() {
    let mut state: u32 = 5;
    let input: Vec<u8> = (0..20000).map(|_| next_random(&mut state) & 0x03).collect();
    let encoded = encode_all(&input).unwrap();
    assert!(encoded.len() < input.len() / 3);
    assert_eq!(decode_all(&encoded), Ok(input));
}

#[test]
fn decode_all_stops_at_the_first_marker() {
    let mut encoded = encode_all(b"stop here").unwrap();
    encoded.extend_from_slice(&[0x12, 0x34, 0x56, 0x78]);
    assert_eq!(decode_all(&encoded), Ok(b"stop here".to_vec()));
}
