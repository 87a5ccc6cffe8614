use ae_rs::symbols::SYMBOL_EOF;
use ae_rs::symbols::MAX_TOTAL;
use ae_rs::{CoderError, Decoder, Encoder};

fn encode_each(input: &[u8]) -> Vec<u8> {
    let mut encoder = Encoder::new(Vec::new());
    for s in input {
        encoder.encode_next(*s as usize).unwrap();
    }
    encoder.encode_end().unwrap();
    encoder.into_inner()
}

fn decode_each(encoded: &[u8]) -> Vec<u8> {
    let mut output = Vec::new();
    let mut decoder = Decoder::new(encoded);
    loop {
        let s = decoder.decode_next().unwrap();
        if s == SYMBOL_EOF {
            break;
        }
        output.push(s as u8);
    }
    output
}

fn next_random(state: &mut u64) -> u8 {
    *state ^= *state << 13;
    *state ^= *state >> 7;
    *state ^= *state << 17;
    (*state >> 24) as u8
}

#[test]
fn can_read_and_write_same_bytes() {
    let inputs: Vec<Vec<u8>> = vec![
        vec![],
        vec![0],
        vec![255],
        vec![1, 2, 3],
        b"hello, world".to_vec(),
        vec![0; 100],
        vec![255; 100],
        (0..=255u8).rev().collect(),
    ];
    for input in inputs {
        assert_eq!(decode_each(&encode_each(&input)), input);
    }
}

#[test]
fn empty_input_round_trips() {
    let encoded = encode_each(&[]);
    assert!(!encoded.is_empty());
    let mut decoder = Decoder::new(&encoded);
    assert_eq!(decoder.decode_next(), Ok(256));
}

#[test]
fn empty_input_encodes_to_known_bytes() {
    // The marker, 256..257 of 257, narrows [0, 0xFFFFFFFF] to
    // [0xFF00FF00, 0xFFFFFFFF]: eight one bits leave [0x00FF0000, 0xFFFFFFFF].
    // Closing bits 0 and 1 follow, then six bits of padding.
    assert_eq!(encode_each(&[]), [0xFF, 0x40]);
}

#[test]
fn single_zero_round_trips() {
    let encoded = encode_each(&[0x00]);
    let mut decoder = Decoder::new(&encoded);
    assert_eq!(decoder.decode_next(), Ok(0));
    assert_eq!(decoder.decode_next(), Ok(256));
}

#[test]
fn repeating_symbol_round_trips() {
    let input = vec![0x41u8; 1024];
    let encoded = encode_each(&input);
    let mut decoder = Decoder::new(&encoded);
    for _ in 0..1024 {
        assert_eq!(decoder.decode_next(), Ok(0x41));
    }
    assert_eq!(decoder.decode_next(), Ok(256));
}

#[test]
fn repeating_symbol_compresses() {
    let encoded = encode_each(&vec![0x41u8; 1024]);
    assert!(encoded.len() < 160);
}

#[test]
fn all_bytes_once_round_trips() {
    let input: Vec<u8> = (0..=255u8).collect();
    let encoded = encode_each(&input);
    let mut decoder = Decoder::new(&encoded);
    for s in 0..256usize {
        assert_eq!(decoder.decode_next(), Ok(s));
    }
    assert_eq!(decoder.decode_next(), Ok(256));
}

#[test]
fn pseudo_random_input_round_trips() {
    let mut state: u64 = 0x2545_F491_4F6C_DD1D;
    let mut encoder = Encoder::new(Vec::new());
    for _ in 0..80000 {
        encoder.encode_next(next_random(&mut state) as usize).unwrap();
    }
    encoder.encode_end().unwrap();
    let encoded = encoder.into_inner();

    let mut oracle: u64 = 0x2545_F491_4F6C_DD1D;
    let mut decoder = Decoder::new(&encoded);
    for _ in 0..80000 {
        assert_eq!(decoder.decode_next(), Ok(next_random(&mut oracle) as usize));
    }
    assert_eq!(decoder.decode_next(), Ok(256));
}

fn triples_round_trip(first: std::ops::Range<usize>) {
    for a in first {
        for b in 0..256usize {
            for c in 0..256usize {
                let mut encoder = Encoder::new(Vec::new());
                encoder.encode_next(a).unwrap();
                encoder.encode_next(b).unwrap();
                encoder.encode_next(c).unwrap();
                encoder.encode_end().unwrap();
                let encoded = encoder.into_inner();
                let mut decoder = Decoder::new(&encoded);
                assert_eq!(decoder.decode_next(), Ok(a));
                assert_eq!(decoder.decode_next(), Ok(b));
                assert_eq!(decoder.decode_next(), Ok(c));
                assert_eq!(decoder.decode_next(), Ok(256));
            }
        }
    }
}

#[test]
fn byte_triples_round_trip_first_byte_00_to_1f() {
    triples_round_trip(0x00..0x20);
}

#[test]
fn byte_triples_round_trip_first_byte_20_to_3f() {
    triples_round_trip(0x20..0x40);
}

#[test]
fn byte_triples_round_trip_first_byte_40_to_5f() {
    triples_round_trip(0x40..0x60);
}

#[test]
fn byte_triples_round_trip_first_byte_60_to_7f() {
    triples_round_trip(0x60..0x80);
}

#[test]
fn byte_triples_round_trip_first_byte_80_to_9f() {
    triples_round_trip(0x80..0xA0);
}

#[test]
fn byte_triples_round_trip_first_byte_a0_to_bf() {
    triples_round_trip(0xA0..0xC0);
}

#[test]
fn byte_triples_round_trip_first_byte_c0_to_df() {
    triples_round_trip(0xC0..0xE0);
}

#[test]
fn byte_triples_round_trip_first_byte_e0_to_ff() {
    triples_round_trip(0xE0..0x100);
}

#[test]
fn encoder_appends_to_what_the_buffer_holds() {
    let mut encoder = Encoder::new(vec![0xAA, 0xBB]);
    encoder.encode_next(7).unwrap();
    encoder.encode_end().unwrap();
    let bytes = encoder.into_inner();
    assert_eq!(&bytes[..2], [0xAA, 0xBB]);
    assert_eq!(&bytes[2..], encode_each(&[7]).as_slice());
}

#[test]
fn unfinished_stream_holds_only_whole_bytes() {
    let mut encoder = Encoder::new(Vec::new());
    encoder.encode_next(0).unwrap();
    let bytes = encoder.into_inner();
    assert_eq!(bytes, [0x00]);
}

#[test]
fn decoder_over_empty_source_sees_ones() {
    let source: Vec<u8> = Vec::new();
    let mut decoder = Decoder::new(&source);
    assert_eq!(decoder.decode_next(), Ok(256));
}

#[test]
fn decoder_over_zeros_sees_symbol_zero() {
    let source = vec![0u8; 8];
    let mut decoder = Decoder::new(&source);
    assert_eq!(decoder.decode_next(), Ok(0));
    assert_eq!(decoder.decode_next(), Ok(0));
}

#[test]
fn output_length_stays_close_to_input_length() {
    let mut state: u64 = 99;
    let input: Vec<u8> = (0..4096).map(|_| next_random(&mut state)).collect();
    let encoded = encode_each(&input);
    assert!(encoded.len() <= input.len() + input.len() / 8 + 8);
    assert_eq!(decode_each(&encoded), input);
}

#[test]
fn all_bytes_once_costs_more_than_eight_bits_a_symbol() {
    // Symbol k is coded with probability 1 / (257 + k), the marker with
    // 1 / 513: log2(513! / 256!) is a little over 2200 bits, 276 bytes.
    let input: Vec<u8> = (0..=255u8).collect();
    let encoded = encode_each(&input);
    assert!(encoded.len() >= 276);
    assert!(encoded.len() <= 277);
}

#[test]
fn output_stays_within_thirty_one_bits_a_symbol() {
    let mut state: u64 = 7;
    for n in [0usize, 1, 2, 3, 10, 100, 1000] {
        let input: Vec<u8> = (0..n).map(|_| next_random(&mut state)).collect();
        assert!(encode_each(&input).len() <= (31 * (n + 1) + 9) / 8);
    }
}

#[test]
fn encoder_refuses_when_the_table_is_saturated() {
    let mut encoder = Encoder::new(Vec::new());
    let room = MAX_TOTAL - 257;
    for _ in 0..room {
        assert_eq!(encoder.encode_next(SYMBOL_EOF), Ok(()));
    }
    assert_eq!(encoder.encode_next(SYMBOL_EOF), Err(CoderError::ModelSaturated));
    assert_eq!(encoder.encode_next(0), Err(CoderError::ModelSaturated));
    assert_eq!(encoder.encode_end(), Err(CoderError::ModelSaturated));
}

#[test]
fn decoder_refuses_when_the_table_is_saturated() {
    let source: Vec<u8> = Vec::new();
    let mut decoder = Decoder::new(&source);
    let room = MAX_TOTAL - 257;
    for _ in 0..room {
        assert_eq!(decoder.decode_next(), Ok(SYMBOL_EOF));
    }
    assert_eq!(decoder.decode_next(), Err(CoderError::ModelSaturated));
    assert_eq!(decoder.decode_next(), Err(CoderError::ModelSaturated));
}

#[test]
fn single_zero_encodes_to_known_bytes() {
    // Symbol 0 narrows [0, 0xFFFFFFFF] to [0, 0x00FF00FE]: eight zero bits
    // leave [0, 0xFF00FEFF]. The marker, 257..258 of 258, narrows that to
    // [0xFE03F80E, 0xFF00FEFF]: seven one bits leave [0x01FC0700, 0x807F7FFF].
    // Closing bits 0 and 1 follow, then seven bits of padding.
    assert_eq!(encode_each(&[0x00]), [0x00, 0xFE, 0x80]);
}

#[test]
fn symbol_after_end_of_stream_marker_in_mid_stream() {
    let mut encoder = Encoder::new(Vec::new());
    encoder.encode_next(5).unwrap();
    encoder.encode_next(SYMBOL_EOF).unwrap();
    encoder.encode_next(6).unwrap();
    encoder.encode_end().unwrap();
    let encoded = encoder.into_inner();
    let mut decoder = Decoder::new(&encoded);
    assert_eq!(decoder.decode_next(), Ok(5));
    assert_eq!(decoder.decode_next(), Ok(256));
    assert_eq!(decoder.decode_next(), Ok(6));
    assert_eq!(decoder.decode_next(), Ok(256));
}
