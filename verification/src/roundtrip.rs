//! The round trip: what the decoder reads out of an encoded stream is what
//! the encoder was given, followed by the end-of-stream marker.
//!
//! The proof runs the two state machines side by side. After `k` symbols the
//! decoder holds the encoder's interval and table, and its code value is the
//! window of the stream that starts where the encoder's output ends
//! ([`code_at`]). That this window lies in the share of the next symbol is
//! shown from the end of the stream backwards: the closing bits put it into
//! the last interval, and each renormalization step, undone, keeps it in the
//! interval before.

use crate::ae::{lemma_encode_step, DecoderState, EncoderState};
use crate::bitio::{bits_of, bytes_of, lemma_bits_of_bytes_of, pad_to_byte};
use crate::interval::{
    bit_value, follow, lemma_renormalize_length, lemma_scaled_value, lemma_shift_agreeing,
    lemma_shift_straddling, prefill, renormalize, scaled_value, settle_bits, shift_in,
    stream_advance, stream_bit, Followed, Interval, FULL, HALF, QUARTER,
};
use crate::symbols::{
    lemma_table_after, lemma_table_find, lemma_table_monotonic, symbol_weight, table_after,
    table_holds, table_total, MAX_SYMBOLS, MAX_TOTAL, SYMBOL_EOF,
};
use vstd::arithmetic::power2::{lemma2_to64, lemma_pow2_unfold, pow2};
use vstd::prelude::*;

verus! {

/// The state of a fresh encoder with an empty sink after `symbols` have been
/// encoded, in order.
pub open spec fn encoder_after(symbols: Seq<int>) -> EncoderState
    decreases symbols.len(),
{
    if symbols.len() == 0 {
        EncoderState::initial(Seq::empty())
    } else {
        encoder_after(symbols.drop_last()).encode(symbols.last())
    }
}

/// The bit stream that encoding `symbols` and finishing produces.
pub open spec fn encoded(symbols: Seq<int>) -> Seq<bool> {
    encoder_after(symbols).finish().bits
}

/// The bits that encoding `symbols` and finishing emits before the last byte
/// is padded: those of the symbols and of the end-of-stream marker, then the
/// closing bits.
pub open spec fn emitted(symbols: Seq<int>) -> Seq<bool> {
    let last = encoder_after(symbols.push(SYMBOL_EOF as int));
    last.bits + last.closing_bits()
}

/// The state of a fresh decoder over `stream` after `n` symbols have been
/// decoded.
pub open spec fn decoder_after(stream: Seq<bool>, n: nat) -> DecoderState
    decreases n,
{
    if n == 0 {
        DecoderState::initial(stream)
    } else {
        decoder_after(stream, (n - 1) as nat).decode(stream)
    }
}

/// The first `n` symbols that a fresh decoder reads out of `stream`.
pub open spec fn decoded(stream: Seq<bool>, n: nat) -> Seq<int> {
    Seq::new(n, |i: int| decoder_after(stream, i as nat).symbol())
}

/// Whether every element of `symbols` is a symbol of the alphabet.
pub open spec fn all_symbols(symbols: Seq<int>) -> bool {
    forall|i: int| 0 <= i < symbols.len() ==> 0 <= #[trigger] symbols[i] < MAX_SYMBOLS
}

/// The number that the `n` bits of `stream` from `start` on spell out, the
/// first of them most significant; bits past the end count as ones.
pub open spec fn window(stream: Seq<bool>, start: int, n: nat) -> int
    decreases n,
{
    if n == 0 {
        0
    } else {
        2 * window(stream, start, (n - 1) as nat) + bit_value(stream_bit(stream, start + n - 1))
    }
}

/// The code value that belongs to an encoder whose output ends at `start`
/// and which counts `underflow` underflows: the 32-bit window at `start`,
/// moved on once per underflow as the decoder moves its code value when the
/// interval straddles the midpoint.
pub open spec fn code_at(stream: Seq<bool>, start: int, underflow: nat) -> int
    decreases underflow,
{
    if underflow == 0 {
        window(stream, start, 32)
    } else {
        2 * (code_at(stream, start, (underflow - 1) as nat) - QUARTER) + bit_value(
            stream_bit(stream, start + 32 + underflow - 1),
        )
    }
}

/// The position that the decoder has reached when its code value is
/// `code_at(stream, start, underflow)`.
pub open spec fn position_at(stream: Seq<bool>, start: int, underflow: nat) -> nat {
    if start + 32 + underflow <= stream.len() {
        (start + 32 + underflow) as nat
    } else {
        stream.len()
    }
}

/// Whether `stream` holds `bits` from position `start` on.
pub open spec fn holds_at(stream: Seq<bool>, start: int, bits: Seq<bool>) -> bool {
    &&& 0 <= start
    &&& start + bits.len() <= stream.len()
    &&& forall|i: int| 0 <= i < bits.len() ==> stream[start + i] == #[trigger] bits[i]
}

proof fn lemma_holds_at_split(stream: Seq<bool>, start: int, first: Seq<bool>, second: Seq<bool>)
    requires
        holds_at(stream, start, first + second),
    ensures
        holds_at(stream, start, first),
        holds_at(stream, start + first.len(), second),
{
    let both = first + second;
    assert forall|i: int| 0 <= i < first.len() implies stream[start + i] == #[trigger] first[i] by {
        assert(both[i] == first[i]);
    }
    assert forall|i: int| 0 <= i < second.len() implies stream[start + first.len() + i]
        == #[trigger] second[i] by {
        assert(both[first.len() + i] == second[i]);
    }
}

proof fn lemma_window_bound(stream: Seq<bool>, start: int, n: nat)
    ensures
        0 <= window(stream, start, n) < pow2(n),
    decreases n,
{
    if n == 0 {
        lemma2_to64();
    } else {
        lemma_window_bound(stream, start, (n - 1) as nat);
        lemma_pow2_unfold(n);
    }
}

proof fn lemma_window_split(stream: Seq<bool>, start: int, n: nat)
    ensures
        window(stream, start, n + 1) == (if stream_bit(stream, start) {
            pow2(n) as int
        } else {
            0
        }) + window(stream, start + 1, n),
    decreases n,
{
    if n == 0 {
        lemma2_to64();
        assert(window(stream, start, 0) == 0);
        assert(window(stream, start + 1, 0) == 0);
        assert(window(stream, start, 1) == 2 * window(stream, start, 0) + bit_value(
            stream_bit(stream, start + 1 - 1),
        ));
    } else {
        lemma_window_split(stream, start, (n - 1) as nat);
        lemma_pow2_unfold(n);
        assert(window(stream, start, n + 1) == 2 * window(stream, start, n) + bit_value(
            stream_bit(stream, start + (n + 1) - 1),
        ));
        assert(window(stream, start + 1, n) == 2 * window(stream, start + 1, (n - 1) as nat)
            + bit_value(stream_bit(stream, start + 1 + n - 1)));
    }
}

/// Shifting the first 32 bits of a stream into an empty code value leaves
/// the 32-bit window at the start of the stream.
proof fn lemma_prefill_window(stream: Seq<bool>, n: nat)
    requires
        n <= 32,
    ensures
        prefill(stream, n) == window(stream, 0, n),
    decreases n,
{
    if n > 0 {
        lemma_prefill_window(stream, (n - 1) as nat);
        lemma_window_bound(stream, 0, (n - 1) as nat);
        lemma_pow2_le_half((n - 1) as nat);
    }
}

proof fn lemma_pow2_le_half(n: nat)
    requires
        n <= 31,
    ensures
        pow2(n) <= HALF,
    decreases 31 - n,
{
    lemma2_to64();
    if n < 31 {
        lemma_pow2_le_half(n + 1);
        lemma_pow2_unfold(n + 1);
    }
}

/// Where the stream settles a top bit after `underflow` underflows, the code
/// value has that top bit, and below it the 31 bits that follow the settling
/// bits.
proof fn lemma_code_after_settle(stream: Seq<bool>, start: int, bit: bool, underflow: nat)
    requires
        holds_at(stream, start, settle_bits(bit, underflow)),
    ensures
        code_at(stream, start, underflow) == bit_value(bit) * HALF + window(
            stream,
            start + underflow + 1,
            31,
        ),
    decreases underflow,
{
    lemma2_to64();
    let settle = settle_bits(bit, underflow);
    assert(settle[0] == bit);
    assert(stream[start + 0] == settle[0]);
    if underflow == 0 {
        lemma_window_split(stream, start, 31);
    } else {
        let fewer = settle_bits(bit, (underflow - 1) as nat);
        assert(settle =~= fewer + seq![!bit]);
        lemma_holds_at_split(stream, start, fewer, seq![!bit]);
        lemma_code_after_settle(stream, start, bit, (underflow - 1) as nat);
        assert(seq![!bit][0] == !bit);
        assert(stream[start + underflow + 0] == seq![!bit][0]);
        lemma_window_split(stream, start + underflow, 30);
        assert(window(stream, start + underflow + 1, 31) == 2 * window(
            stream,
            start + underflow + 1,
            30,
        ) + bit_value(stream_bit(stream, start + underflow + 1 + 31 - 1)));
    }
}

/// Undoing the shift of an agreed top bit: a code value below that top bit
/// that the shifted interval holds after the shift was in the interval
/// before it, and the shift takes the one to the other.
proof fn lemma_agreeing_step(interval: Interval, rest: int, next: bool)
    requires
        interval.valid(),
        interval.agrees(),
        0 <= rest < HALF,
        interval.shift_agreeing().contains(2 * rest + bit_value(next)),
    ensures
        interval.contains(bit_value(interval.low >= HALF) * HALF + rest),
        shift_in(bit_value(interval.low >= HALF) * HALF + rest, next) == 2 * rest + bit_value(next),
{
    let half = HALF as int;
    if interval.low >= HALF {
        assert(interval.low % half == interval.low - half);
        assert(interval.high % half == interval.high - half);
        assert((half + rest) % half == rest);
    } else {
        assert(interval.low % half == interval.low);
        assert(interval.high % half == interval.high);
        assert(rest % half == rest);
    }
}

/// Undoing the shift of a straddling interval: a code value that the shifted
/// interval holds after the shift was in the interval before it, and the
/// shift takes the one to the other.
proof fn lemma_straddling_step(interval: Interval, code: int, next: bool)
    requires
        interval.valid(),
        interval.straddles(),
        interval.shift_straddling().contains(2 * (code - QUARTER) + bit_value(next)),
    ensures
        interval.contains(code),
        shift_in(code - QUARTER, next) == 2 * (code - QUARTER) + bit_value(next),
{
    let half = HALF as int;
    assert(0 <= code - QUARTER < half);
    assert((code - QUARTER) % half == code - QUARTER);
}

/// One renormalization, seen from both sides. If the stream holds the bits
/// that the encoder emits while it renormalizes `interval`, and the code
/// value that belongs to the end of the renormalization lies in the interval
/// reached there, then the code value that belongs to its start lies in
/// `interval`, and the decoder's renormalization ends where the encoder's
/// does, with the code value that belongs there.
#[verifier::rlimit(50)]
proof fn lemma_renormalize_sync(interval: Interval, underflow: nat, stream: Seq<bool>, start: int)
    requires
        interval.valid(),
        holds_at(stream, start, renormalize(interval, underflow).bits),
        renormalize(interval, underflow).interval.contains(
            code_at(
                stream,
                start + renormalize(interval, underflow).bits.len(),
                renormalize(interval, underflow).underflow,
            ),
        ),
    ensures
        interval.contains(code_at(stream, start, underflow)),
        follow(
            interval,
            code_at(stream, start, underflow),
            stream,
            position_at(stream, start, underflow),
        ) == (Followed {
            interval: renormalize(interval, underflow).interval,
            code: code_at(
                stream,
                start + renormalize(interval, underflow).bits.len(),
                renormalize(interval, underflow).underflow,
            ),
            position: position_at(
                stream,
                start + renormalize(interval, underflow).bits.len(),
                renormalize(interval, underflow).underflow,
            ),
        }),
    decreases FULL - interval.range(),
{
    let end = renormalize(interval, underflow);
    let code = code_at(stream, start, underflow);
    let position = position_at(stream, start, underflow);
    let next_bit = stream_bit(stream, start + 32 + underflow);
    assert(stream_bit(stream, position as int) == next_bit);
    if interval.agrees() {
        let bit = interval.low >= HALF;
        let settle = settle_bits(bit, underflow);
        let shifted = interval.shift_agreeing();
        let rest = renormalize(shifted, 0);
        let next = start + underflow + 1;
        let below = window(stream, next, 31);
        assert(end.bits == settle + rest.bits);
        assert(end.interval == rest.interval);
        assert(end.underflow == rest.underflow);
        assert(settle.len() == underflow + 1);
        lemma_shift_agreeing(interval);
        lemma_holds_at_split(stream, start, settle, rest.bits);
        lemma_renormalize_sync(shifted, 0, stream, next);
        lemma_code_after_settle(stream, start, bit, underflow);
        lemma_window_bound(stream, next, 31);
        lemma2_to64();
        assert(code_at(stream, next, 0) == window(stream, next, 32));
        assert(window(stream, next, 32) == 2 * below + bit_value(
            stream_bit(stream, next + 32 - 1),
        ));
        lemma_agreeing_step(interval, below, next_bit);
        assert(stream_advance(stream, position) == position_at(stream, next, 0));
        assert(follow(interval, code, stream, position) == follow(
            shifted,
            shift_in(code, next_bit),
            stream,
            stream_advance(stream, position),
        ));
    } else if interval.straddles() {
        let shifted = interval.shift_straddling();
        assert(end == renormalize(shifted, underflow + 1));
        lemma_shift_straddling(interval);
        lemma_renormalize_sync(shifted, underflow + 1, stream, start);
        assert(code_at(stream, start, underflow + 1) == 2 * (code - QUARTER) + bit_value(
            stream_bit(stream, start + 32 + (underflow + 1) - 1),
        ));
        lemma_straddling_step(interval, code, next_bit);
        assert(stream_advance(stream, position) == position_at(stream, start, underflow + 1));
        assert(follow(interval, code, stream, position) == follow(
            shifted,
            shift_in(code - QUARTER, next_bit),
            stream,
            stream_advance(stream, position),
        ));
    } else {
        assert(end.bits.len() == 0);
        assert(end.interval == interval);
        assert(end.underflow == underflow);
    }
}

/// The closing bits put the code value into the last interval.
proof fn lemma_closing(state: EncoderState, stream: Seq<bool>, start: int)
    requires
        state.interval.settled(),
        holds_at(stream, start, state.closing_bits()),
    ensures
        state.interval.contains(code_at(stream, start, state.underflow)),
{
    lemma2_to64();
    let bit = (state.interval.low / (QUARTER as int)) % 2 == 1;
    let underflow = state.underflow;
    let closing = settle_bits(bit, underflow + 1);
    let fewer = settle_bits(bit, underflow);
    assert(closing =~= fewer + seq![!bit]);
    lemma_holds_at_split(stream, start, fewer, seq![!bit]);
    lemma_code_after_settle(stream, start, bit, underflow);
    assert(seq![!bit][0] == !bit);
    assert(stream[start + underflow + 1 + 0] == seq![!bit][0]);
    lemma_window_split(stream, start + underflow + 1, 30);
    lemma_window_bound(stream, start + underflow + 2, 30);
}

/// While the table has room, encoding keeps the encoder's state well formed,
/// and its table is the table after the symbols encoded.
pub proof fn lemma_encoder_after(symbols: Seq<int>)
    requires
        all_symbols(symbols),
        MAX_SYMBOLS + symbols.len() <= MAX_TOTAL,
    ensures
        encoder_after(symbols).wf(),
        encoder_after(symbols).table == table_after(symbols),
        table_total(encoder_after(symbols).table) == MAX_SYMBOLS + symbols.len(),
    decreases symbols.len(),
{
    if symbols.len() == 0 {
        lemma_table_after(symbols);
    } else {
        let before = encoder_after(symbols.drop_last());
        let symbol = symbols.last();
        lemma_encoder_after(symbols.drop_last());
        lemma_encode_step(before, symbol);
    }
}

/// Looking ahead from the encoder's state after `k` of the symbols `all`:
/// in a stream that holds everything the encoder emits for `all`, closing
/// bits included, the code value that belongs to this state lies in the
/// share of the next symbol, or in the interval itself at the end.
#[verifier::rlimit(50)]
proof fn lemma_ahead(all: Seq<int>, stream: Seq<bool>, k: int)
    requires
        all_symbols(all),
        MAX_SYMBOLS + all.len() <= MAX_TOTAL,
        0 <= k <= all.len(),
        holds_at(stream, 0, encoder_after(all).bits + encoder_after(all).closing_bits()),
    ensures
        encoder_after(all.take(k)).wf(),
        table_total(encoder_after(all.take(k)).table) == MAX_SYMBOLS + k,
        holds_at(stream, 0, encoder_after(all.take(k)).bits),
        encoder_after(all.take(k)).interval.contains(
            code_at(
                stream,
                encoder_after(all.take(k)).bits.len() as int,
                encoder_after(all.take(k)).underflow,
            ),
        ),
        k < all.len() ==> {
            let state = encoder_after(all.take(k));
            let end = renormalize(state.narrowed(all[k]), state.underflow);
            &&& state.narrowed(all[k]).valid()
            &&& state.narrowed(all[k]).contains(
                code_at(stream, state.bits.len() as int, state.underflow),
            )
            &&& holds_at(stream, state.bits.len() as int, end.bits)
            &&& encoder_after(all.take(k + 1)) == state.encode(all[k])
        },
    decreases all.len() - k,
{
    let state = encoder_after(all.take(k));
    lemma_encoder_after(all.take(k));
    if k == all.len() {
        assert(all.take(k) =~= all);
        lemma_holds_at_split(stream, 0, state.bits, state.closing_bits());
        lemma_closing(state, stream, state.bits.len() as int);
    } else {
        let symbol = all[k];
        let next = encoder_after(all.take(k + 1));
        let end = renormalize(state.narrowed(symbol), state.underflow);
        assert(all.take(k + 1).drop_last() =~= all.take(k));
        assert(all.take(k + 1).last() == symbol);
        assert(next == state.encode(symbol));
        lemma_ahead(all, stream, k + 1);
        lemma_encode_step(state, symbol);
        lemma_holds_at_split(stream, 0, state.bits, end.bits);
        lemma_renormalize_sync(
            state.narrowed(symbol),
            state.underflow,
            stream,
            state.bits.len() as int,
        );
    }
}

/// Encoder and decoder in step: after `k` symbols the decoder over a stream
/// that holds everything the encoder emits for `all` has the encoder's
/// interval and table and the code value that belongs to the encoder's
/// state, and the symbol it reads next is the one the encoder was given.
#[verifier::rlimit(50)]
proof fn lemma_in_step(all: Seq<int>, stream: Seq<bool>, k: nat)
    requires
        all_symbols(all),
        MAX_SYMBOLS + all.len() <= MAX_TOTAL,
        k <= all.len(),
        holds_at(stream, 0, encoder_after(all).bits + encoder_after(all).closing_bits()),
    ensures
        decoder_after(stream, k).interval == encoder_after(all.take(k as int)).interval,
        decoder_after(stream, k).table == encoder_after(all.take(k as int)).table,
        decoder_after(stream, k).code == code_at(
            stream,
            encoder_after(all.take(k as int)).bits.len() as int,
            encoder_after(all.take(k as int)).underflow,
        ),
        decoder_after(stream, k).position == position_at(
            stream,
            encoder_after(all.take(k as int)).bits.len() as int,
            encoder_after(all.take(k as int)).underflow,
        ),
        decoder_after(stream, k).wf(stream),
        k < all.len() ==> decoder_after(stream, k).symbol() == all[k as int],
    decreases k,
{
    let state = encoder_after(all.take(k as int));
    let decoder = decoder_after(stream, k);
    lemma_ahead(all, stream, k as int);
    if k == 0 {
        assert(all.take(0) =~= Seq::<int>::empty());
        lemma_prefill_window(stream, 32);
    } else {
        let j = (k - 1) as nat;
        let before = encoder_after(all.take(j as int));
        let symbol = all[j as int];
        lemma_in_step(all, stream, j);
        lemma_ahead(all, stream, j as int);
        lemma_renormalize_sync(
            before.narrowed(symbol),
            before.underflow,
            stream,
            before.bits.len() as int,
        );
        assert(decoder == decoder_after(stream, j).decode(stream));
    }
    if k < all.len() {
        let symbol = all[k as int];
        let total = table_total(state.table);
        let value = scaled_value(state.interval, decoder.code, total);
        assert(symbol_weight(state.table, symbol) >= 1);
        lemma_table_monotonic(state.table, symbol + 1, MAX_SYMBOLS as int);
        lemma_table_monotonic(state.table, 0, symbol);
        lemma_scaled_value(
            state.interval,
            decoder.code,
            state.table[symbol],
            state.table[symbol + 1],
            total,
        );
        assert(table_holds(state.table, symbol, value));
        lemma_table_find(state.table, value);
    }
}

/// The stream that encoding `symbols` produces is what the encoder emits,
/// padded to whole bytes; it is not empty.
pub proof fn lemma_encoded(symbols: Seq<int>)
    ensures
        encoded(symbols) == pad_to_byte(emitted(symbols)),
        holds_at(encoded(symbols), 0, emitted(symbols)),
        encoded(symbols).len() % 8 == 0,
        encoded(symbols).len() >= 8,
{
    let all = symbols.push(SYMBOL_EOF as int);
    assert(all.drop_last() =~= symbols);
    let last = encoder_after(all);
    assert(last == encoder_after(symbols).encode(SYMBOL_EOF as int));
    assert(last.closing_bits().len() == last.underflow + 2);
}

/// The encoder emits at most 31 bits per symbol, pending underflows
/// included.
pub proof fn lemma_encoder_output(symbols: Seq<int>)
    requires
        all_symbols(symbols),
        MAX_SYMBOLS + symbols.len() <= MAX_TOTAL,
    ensures
        encoder_after(symbols).bits.len() + encoder_after(symbols).underflow <= 31
            * symbols.len(),
    decreases symbols.len(),
{
    if symbols.len() > 0 {
        let before = encoder_after(symbols.drop_last());
        let symbol = symbols.last();
        lemma_encoder_output(symbols.drop_last());
        lemma_encoder_after(symbols.drop_last());
        lemma_encode_step(before, symbol);
        lemma_renormalize_length(before.narrowed(symbol), before.underflow);
    }
}

/// The encoded stream is at most 31 bits per symbol long, the end-of-stream
/// marker counted as a symbol, plus two closing bits and the padding of the
/// last byte.
pub proof fn lemma_encoded_length(symbols: Seq<int>)
    requires
        all_symbols(symbols),
        MAX_SYMBOLS + symbols.len() < MAX_TOTAL,
    ensures
        encoded(symbols).len() <= 31 * (symbols.len() + 1) + 9,
        bytes_of(encoded(symbols)).len() <= (31 * (symbols.len() + 1) + 9) / 8,
{
    let all = symbols.push(SYMBOL_EOF as int);
    let last = encoder_after(all);
    lemma_encoder_output(all);
    lemma_encoded(symbols);
    assert(last.closing_bits().len() == last.underflow + 2);
}

/// The encoded stream delimits itself. A decoder over any stream that starts
/// with the bits emitted for `symbols`, whatever follows them, reads symbol
/// `k` of the input as its symbol `k`, and the end-of-stream marker once the
/// input is used up; its state before that symbol is well formed and has
/// room in the table.
pub proof fn lemma_self_delimiting(symbols: Seq<int>, stream: Seq<bool>, k: nat)
    requires
        all_symbols(symbols),
        MAX_SYMBOLS + symbols.len() < MAX_TOTAL,
        k <= symbols.len(),
        holds_at(stream, 0, emitted(symbols)),
    ensures
        decoder_after(stream, k).wf(stream),
        !decoder_after(stream, k).saturated(),
        decoder_after(stream, k).symbol() == symbols.push(SYMBOL_EOF as int)[k as int],
{
    let all = symbols.push(SYMBOL_EOF as int);
    lemma_in_step(all, stream, k);
    lemma_encoder_after(all.take(k as int));
}

/// The round trip, step by step. While the decoder reads what encoding
/// `symbols` produced, its state before symbol `k` is well formed and has
/// room in the table, and the symbol it reads is symbol `k` of the input, or
/// the end-of-stream marker once the input is used up. The encoder's state
/// before symbol `k` is well formed and has room in the table too.
pub proof fn lemma_round_trip_at(symbols: Seq<int>, k: nat)
    requires
        all_symbols(symbols),
        MAX_SYMBOLS + symbols.len() < MAX_TOTAL,
        k <= symbols.len(),
    ensures
        decoder_after(encoded(symbols), k).wf(encoded(symbols)),
        !decoder_after(encoded(symbols), k).saturated(),
        decoder_after(encoded(symbols), k).symbol() == symbols.push(SYMBOL_EOF as int)[k as int],
        encoder_after(symbols.take(k as int)).wf(),
        !encoder_after(symbols.take(k as int)).saturated(),
{
    lemma_encoded(symbols);
    lemma_self_delimiting(symbols, encoded(symbols), k);
    lemma_encoder_after(symbols.take(k as int));
}

/// Decoding what encoding produced gives the input back, followed by the
/// end-of-stream marker: for every sequence of symbols that leaves room in
/// the table for the marker, the decoder over the encoded stream reads the
/// symbols of the sequence, in order, then the marker. The encoded stream is
/// made of whole bytes, so the bytes it is packed into spell it out again.
pub proof fn lemma_round_trip(symbols: Seq<int>)
    requires
        all_symbols(symbols),
        MAX_SYMBOLS + symbols.len() < MAX_TOTAL,
    ensures
        decoded(encoded(symbols), symbols.len() + 1) == symbols.push(SYMBOL_EOF as int),
        bits_of(bytes_of(encoded(symbols))) == encoded(symbols),
{
    let all = symbols.push(SYMBOL_EOF as int);
    let stream = encoded(symbols);
    lemma_encoded(symbols);
    lemma_bits_of_bytes_of(stream);
    let read = decoded(stream, symbols.len() + 1);
    assert forall|k: int| 0 <= k < read.len() implies read[k] == all[k] by {
        lemma_round_trip_at(symbols, k as nat);
    }
    assert(read =~= all);
}

/// Encoding nothing still produces a byte, and the first symbol that the
/// decoder reads out of it is the end-of-stream marker.
pub proof fn lemma_round_trip_of_nothing()
    ensures
        bytes_of(encoded(Seq::empty())).len() >= 1,
        decoder_after(bits_of(bytes_of(encoded(Seq::empty()))), 0).symbol() == SYMBOL_EOF,
{
    let symbols = Seq::<int>::empty();
    lemma_round_trip(symbols);
    lemma_round_trip_at(symbols, 0);
    lemma_encoded(symbols);
}

/// Three bytes, whatever they are, come back from the round trip followed by
/// the end-of-stream marker.
pub proof fn lemma_round_trip_of_three(a: u8, b: u8, c: u8)
    ensures
        decoded(encoded(seq![a as int, b as int, c as int]), 4) == seq![
            a as int,
            b as int,
            c as int,
            SYMBOL_EOF as int,
        ],
{
    let symbols = seq![a as int, b as int, c as int];
    let all = seq![a as int, b as int, c as int, SYMBOL_EOF as int];
    assert(symbols.len() == 3);
    assert(all_symbols(symbols)) by {
        assert(symbols[0] == a && symbols[1] == b && symbols[2] == c);
    }
    lemma_round_trip(symbols);
    assert(symbols.push(SYMBOL_EOF as int) =~= all);
}

} // verus!
