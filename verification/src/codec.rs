//! Coding whole byte strings: `encode_all` runs an encoder over a byte string
//! and finishes it, `decode_all` runs a decoder up to the end-of-stream
//! marker. What `decode_all` makes of the output of `encode_all` is the input.

use crate::ae::{lemma_decode_step, lemma_encode_step, CoderError, Decoder, Encoder};
use crate::bitio::{bits_of, bytes_of, lemma_bits_of_concat};
use crate::roundtrip::{
    decoded, decoder_after, emitted, encoded, encoder_after, holds_at, lemma_encoded,
    lemma_round_trip, lemma_self_delimiting,
};
use crate::symbols::{table_total, MAX_SYMBOLS, MAX_TOTAL, SYMBOL_EOF};
use vstd::prelude::*;

verus! {

/// The bytes of `bytes` as symbols.
pub open spec fn symbols_of(bytes: Seq<u8>) -> Seq<int> {
    Seq::new(bytes.len(), |i: int| bytes[i] as int)
}

/// Whether `input` leaves room in the symbol table for the end-of-stream
/// marker.
pub open spec fn encodable(input: Seq<u8>) -> bool {
    MAX_SYMBOLS + input.len() < MAX_TOTAL
}

/// The bytes that encoding `input` and finishing produces.
pub open spec fn encoded_bytes(input: Seq<u8>) -> Seq<u8> {
    bytes_of(encoded(symbols_of(input)))
}

/// Whether a decoder over `encoded` reads the bytes of `output` and then, for
/// the first time, the end-of-stream marker.
pub open spec fn decodes_to(encoded: Seq<u8>, output: Seq<u8>) -> bool {
    decoded(bits_of(encoded), output.len() + 1) == symbols_of(output).push(SYMBOL_EOF as int)
}

/// Whether a decoder over `encoded` reads no end-of-stream marker for as long
/// as its symbol table has room.
pub open spec fn endless(encoded: Seq<u8>) -> bool {
    forall|k: nat|
        MAX_SYMBOLS + k < MAX_TOTAL ==> (#[trigger] decoder_after(bits_of(encoded), k)).symbol()
            != SYMBOL_EOF
}

/// A byte string decodes to at most one output, and if that output is
/// encodable the byte string is not endless.
pub proof fn lemma_decodes_to_one(encoded: Seq<u8>, first: Seq<u8>, second: Seq<u8>)
    requires
        decodes_to(encoded, first),
    ensures
        decodes_to(encoded, second) ==> first == second,
        encodable(first) ==> !endless(encoded),
{
    let stream = bits_of(encoded);
    let one = decoded(stream, first.len() + 1);
    let ends_one = symbols_of(first).push(SYMBOL_EOF as int);
    assert(decoder_after(stream, first.len()).symbol() == SYMBOL_EOF) by {
        assert(one[first.len() as int] == ends_one[first.len() as int]);
    }
    if decodes_to(encoded, second) {
        let two = decoded(stream, second.len() + 1);
        let ends_two = symbols_of(second).push(SYMBOL_EOF as int);
        assert(decoder_after(stream, second.len()).symbol() == SYMBOL_EOF) by {
            assert(two[second.len() as int] == ends_two[second.len() as int]);
        }
        assert(first.len() == second.len()) by {
            if first.len() < second.len() {
                assert(two[first.len() as int] == ends_two[first.len() as int]);
            }
            if second.len() < first.len() {
                assert(one[second.len() as int] == ends_one[second.len() as int]);
            }
        }
        assert forall|i: int| 0 <= i < first.len() implies first[i] == second[i] by {
            assert(one[i] == ends_one[i]);
            assert(two[i] == ends_two[i]);
        }
        assert(first =~= second);
    }
}

/// Every encodable byte string is what its encoding decodes to, whatever
/// bytes follow the encoding.
pub proof fn lemma_decodes_to_input(input: Seq<u8>, rest: Seq<u8>)
    requires
        encodable(input),
    ensures
        decodes_to(encoded_bytes(input), input),
        decodes_to(encoded_bytes(input) + rest, input),
        !endless(encoded_bytes(input)),
        !endless(encoded_bytes(input) + rest),
{
    let symbols = symbols_of(input);
    let all = symbols.push(SYMBOL_EOF as int);
    let longer = bits_of(encoded_bytes(input) + rest);
    lemma_round_trip(symbols);
    lemma_encoded(symbols);
    lemma_bits_of_concat(encoded_bytes(input), rest);
    assert(holds_at(longer, 0, emitted(symbols))) by {
        assert forall|i: int| 0 <= i < emitted(symbols).len() implies longer[0 + i]
            == #[trigger] emitted(symbols)[i] by {
            assert(encoded(symbols)[0 + i] == emitted(symbols)[i]);
        }
    }
    let read = decoded(longer, input.len() + 1);
    assert forall|k: int| 0 <= k < read.len() implies read[k] == all[k] by {
        lemma_self_delimiting(symbols, longer, k as nat);
    }
    assert(read =~= all);
    lemma_decodes_to_one(encoded_bytes(input), input, input);
    lemma_decodes_to_one(encoded_bytes(input) + rest, input, input);
}

/// Encodes `input` and finishes the stream. Fails if `input` leaves no room
/// in the symbol table for the end-of-stream marker.
pub fn encode_all(input: &[u8]) -> (result: Result<Vec<u8>, CoderError>)
    ensures
        encodable(input@) ==> result is Ok && result->Ok_0@ == encoded_bytes(input@),
        !encodable(input@) ==> result == Err::<Vec<u8>, CoderError>(CoderError::ModelSaturated),
{
    let ghost symbols = symbols_of(input@);
    let mut encoder = Encoder::new(Vec::new());
    let mut i: usize = 0;
    proof {
        assert(symbols.take(0) =~= Seq::<int>::empty());
    }
    while i < input.len()
        invariant
            i <= input.len(),
            symbols == symbols_of(input@),
            encoder.wf(),
            encoder@ == encoder_after(symbols.take(i as int)),
            table_total(encoder@.table) == MAX_SYMBOLS + i,
        decreases input.len() - i,
    {
        let ghost before = encoder@;
        match encoder.encode_next(input[i] as usize) {
            Ok(()) => {},
            Err(error) => {
                return Err(error);
            },
        }
        proof {
            lemma_encode_step(before, symbols[i as int]);
            assert(symbols.take(i + 1).drop_last() =~= symbols.take(i as int));
        }
        i += 1;
    }
    proof {
        assert(symbols.take(i as int) =~= symbols);
    }
    match encoder.encode_end() {
        Ok(()) => {},
        Err(error) => {
            return Err(error);
        },
    }
    Ok(encoder.into_inner())
}

/// Decodes `encoded` up to the end-of-stream marker. Fails if the symbol
/// table is saturated before the marker is read. By `lemma_decodes_to_one`
/// the two outcomes exclude each other and the output is the only one that
/// `encoded` decodes to.
pub fn decode_all(encoded: &[u8]) -> (result: Result<Vec<u8>, CoderError>)
    ensures
        result is Ok ==> decodes_to(encoded@, result->Ok_0@) && encodable(result->Ok_0@),
        result is Err ==> result == Err::<Vec<u8>, CoderError>(CoderError::ModelSaturated)
            && endless(encoded@),
{
    let ghost stream = bits_of(encoded@);
    let mut decoder = Decoder::new(encoded);
    let mut output: Vec<u8> = Vec::new();
    loop
        invariant
            decoder.wf(),
            stream == bits_of(encoded@),
            decoder.stream() == stream,
            decoder@ == decoder_after(stream, output@.len()),
            table_total(decoder@.table) == MAX_SYMBOLS + output@.len(),
            forall|k: int|
                0 <= k < output@.len() ==> (#[trigger] decoder_after(stream, k as nat)).symbol()
                    == output@[k],
        decreases MAX_TOTAL - table_total(decoder@.table),
    {
        let ghost before = decoder@;
        let ghost n = output@.len();
        proof {
            if !before.saturated() {
                lemma_decode_step(before, stream);
            }
        }
        match decoder.decode_next() {
            Err(error) => {
                proof {
                    assert(before.saturated());
                    assert forall|k: nat| MAX_SYMBOLS + k < MAX_TOTAL implies (
                    #[trigger] decoder_after(stream, k)).symbol() != SYMBOL_EOF by {
                        let at = k as int;
                        assert(0 <= at < n);
                        assert(decoder_after(stream, at as nat).symbol() == output@[at]);
                    }
                }
                return Err(error);
            },
            Ok(symbol) => {
                if symbol == SYMBOL_EOF {
                    proof {
                        assert(decoded(stream, n + 1) =~= symbols_of(output@).push(
                            SYMBOL_EOF as int,
                        ));
                    }
                    return Ok(output);
                }
                output.push(symbol as u8);
            },
        }
    }
}

} // verus!
