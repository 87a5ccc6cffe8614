//! The adaptive arithmetic coder: an encoder that turns symbols into a bit
//! stream and a decoder that turns the bit stream back into symbols.
//!
//! Each of the two is a state machine over a 32-bit interval and the adaptive
//! symbol table. Their models, `EncoderState` and `DecoderState`, say what one
//! step does; the executable methods are proved to take exactly those steps.

use crate::bitio::{
    bits_of, bytes_of, pad_to_byte, repeat_bit, BitReader, BitWriter, ReadResult,
};
use crate::interval::{
    follow, lemma_follow, lemma_narrow_nested, lemma_renormalize, lemma_scaled_value,
    lemma_shift_agreeing, lemma_shift_straddling, prefill, prefill_position, renormalize,
    scaled_value, settle_bits, stream_advance, stream_bit, Interval, FULL, QUARTER,
};
use crate::symbols::{
    initial_table, lemma_table_find, lemma_table_increment, lemma_table_monotonic,
    symbol_weight, table_find, table_holds, table_increment, table_total, table_wf, SymbolTable,
    MAX_SYMBOLS, MAX_TOTAL, SYMBOL_EOF,
};
use vstd::prelude::*;

verus! {

/// The upper bound of the interval domain.
pub const MAX_PROBABILITY: u32 = 0xFFFF_FFFF;

/// Why a coder refuses a step: going on could break its interval invariant.
#[derive(Debug, Clone, Copy, PartialEq, Eq, Structural)]
pub enum CoderError {
    /// The symbol table has reached `MAX_TOTAL`: with one more symbol counted,
    /// a symbol's share of the interval could shrink to nothing.
    ModelSaturated,
}

/// The state of an encoder.
pub struct EncoderState {
    /// The current interval.
    pub interval: Interval,
    /// The number of underflow bits that wait for the next settled bit.
    pub underflow: nat,
    /// The cumulative counts of the model.
    pub table: Seq<int>,
    /// Every bit emitted so far, after the bits that the sink held at the
    /// start.
    pub bits: Seq<bool>,
}

impl EncoderState {
    /// The state of a fresh encoder whose sink holds `bits`.
    pub open spec fn initial(bits: Seq<bool>) -> EncoderState {
        EncoderState { interval: Interval::full(), underflow: 0, table: initial_table(), bits }
    }

    /// The interval is settled and the table is a cumulative table within
    /// `MAX_TOTAL`.
    pub open spec fn wf(self) -> bool {
        &&& self.interval.settled()
        &&& table_wf(self.table)
        &&& table_total(self.table) <= MAX_TOTAL
    }

    /// Whether the table has no room for another symbol.
    pub open spec fn saturated(self) -> bool {
        table_total(self.table) >= MAX_TOTAL
    }

    /// The share of the current interval that belongs to `symbol`.
    pub open spec fn narrowed(self, symbol: int) -> Interval {
        self.interval.narrow(self.table[symbol], self.table[symbol + 1], table_total(self.table))
    }

    /// The state after `symbol` has been encoded: the interval is narrowed to
    /// the symbol's share and renormalized, the bits that this emits are
    /// appended, and the symbol is counted.
    pub open spec fn encode(self, symbol: int) -> EncoderState {
        let end = renormalize(self.narrowed(symbol), self.underflow);
        EncoderState {
            interval: end.interval,
            underflow: end.underflow,
            table: table_increment(self.table, symbol),
            bits: self.bits + end.bits,
        }
    }

    /// The bits that close the stream in this state: bit 30 of `low`, then
    /// its complement once more than underflows are pending.
    pub open spec fn closing_bits(self) -> Seq<bool> {
        settle_bits((self.interval.low / (QUARTER as int)) % 2 == 1, self.underflow + 1)
    }

    /// The state after the stream has been finished: the end-of-stream
    /// marker is encoded, the closing bits follow, and the last byte is
    /// completed with zero bits.
    pub open spec fn finish(self) -> EncoderState {
        let last = self.encode(SYMBOL_EOF as int);
        EncoderState {
            interval: last.interval,
            underflow: 0,
            table: last.table,
            bits: pad_to_byte(last.bits + last.closing_bits()),
        }
    }
}

/// The state of a decoder.
pub struct DecoderState {
    /// The current interval.
    pub interval: Interval,
    /// The window of the encoded value that is compared with the interval.
    pub code: int,
    /// The cumulative counts of the model.
    pub table: Seq<int>,
    /// The number of bits taken from the stream.
    pub position: nat,
}

impl DecoderState {
    /// The state of a fresh decoder over `stream`: the first 32 bits are
    /// shifted into the code value, ones where the stream is shorter.
    pub open spec fn initial(stream: Seq<bool>) -> DecoderState {
        DecoderState {
            interval: Interval::full(),
            code: prefill(stream, 32),
            table: initial_table(),
            position: prefill_position(stream, 32),
        }
    }

    /// The interval is settled and holds the code value, the table is a
    /// cumulative table within `MAX_TOTAL`, and the position lies within
    /// `stream`.
    pub open spec fn wf(self, stream: Seq<bool>) -> bool {
        &&& self.interval.settled()
        &&& self.interval.contains(self.code)
        &&& table_wf(self.table)
        &&& table_total(self.table) <= MAX_TOTAL
        &&& self.position <= stream.len()
    }

    /// Whether the table has no room for another symbol.
    pub open spec fn saturated(self) -> bool {
        table_total(self.table) >= MAX_TOTAL
    }

    /// The symbol that the code value points at.
    pub open spec fn symbol(self) -> int {
        table_find(self.table, scaled_value(self.interval, self.code, table_total(self.table)))
    }

    /// The share of the current interval that belongs to the symbol that the
    /// code value points at.
    pub open spec fn narrowed(self) -> Interval {
        self.interval.narrow(
            self.table[self.symbol()],
            self.table[self.symbol() + 1],
            table_total(self.table),
        )
    }

    /// The state after the next symbol has been decoded from `stream`: the
    /// interval is narrowed to that symbol's share and renormalized, the
    /// code value follows it, and the symbol is counted.
    pub open spec fn decode(self, stream: Seq<bool>) -> DecoderState {
        let symbol = self.symbol();
        let end = follow(self.narrowed(), self.code, stream, self.position);
        DecoderState {
            interval: end.interval,
            code: end.code,
            table: table_increment(self.table, symbol),
            position: end.position,
        }
    }
}

/// One step of the encoder from a well-formed state with room in the table:
/// the symbol's share of the interval is a valid interval inside the current
/// one, and the state after the step is well formed.
pub proof fn lemma_encode_step(state: EncoderState, symbol: int)
    requires
        state.wf(),
        !state.saturated(),
        0 <= symbol < MAX_SYMBOLS,
    ensures
        state.narrowed(symbol).valid(),
        state.interval.low <= state.narrowed(symbol).low,
        state.narrowed(symbol).high <= state.interval.high,
        state.encode(symbol).wf(),
        table_total(state.encode(symbol).table) == table_total(state.table) + 1,
{
    assert(symbol_weight(state.table, symbol) >= 1);
    lemma_table_monotonic(state.table, symbol + 1, MAX_SYMBOLS as int);
    lemma_table_monotonic(state.table, 0, symbol);
    lemma_narrow_nested(
        state.interval,
        state.table[symbol],
        state.table[symbol + 1],
        table_total(state.table),
    );
    lemma_renormalize(state.narrowed(symbol), state.underflow);
    lemma_table_increment(state.table, symbol);
}

/// One step of the decoder from a well-formed state with room in the table:
/// the code value points at a symbol of the alphabet, that symbol's share of
/// the interval is a valid interval inside the current one and holds the code
/// value, and the state after the step is well formed.
pub proof fn lemma_decode_step(state: DecoderState, stream: Seq<bool>)
    requires
        state.wf(stream),
        !state.saturated(),
    ensures
        0 <= state.symbol() < MAX_SYMBOLS,
        table_holds(
            state.table,
            state.symbol(),
            scaled_value(state.interval, state.code, table_total(state.table)),
        ),
        state.narrowed().valid(),
        state.narrowed().contains(state.code),
        state.interval.low <= state.narrowed().low,
        state.narrowed().high <= state.interval.high,
        state.decode(stream).wf(stream),
        table_total(state.decode(stream).table) == table_total(state.table) + 1,
{
    let total = table_total(state.table);
    let value = scaled_value(state.interval, state.code, total);
    lemma_table_monotonic(state.table, 0, MAX_SYMBOLS as int);
    lemma_scaled_value(state.interval, state.code, 0, 0, total);
    lemma_table_find(state.table, value);
    let symbol = state.symbol();
    assert(symbol_weight(state.table, symbol) >= 1);
    lemma_table_monotonic(state.table, symbol + 1, MAX_SYMBOLS as int);
    lemma_table_monotonic(state.table, 0, symbol);
    lemma_narrow_nested(state.interval, state.table[symbol], state.table[symbol + 1], total);
    lemma_scaled_value(
        state.interval,
        state.code,
        state.table[symbol],
        state.table[symbol + 1],
        total,
    );
    lemma_follow(state.narrowed(), state.code, stream, state.position);
    lemma_table_increment(state.table, symbol);
}

proof fn lemma_top_bits(x: u32)
    by (bit_vector)
    ensures
        x & 0x80000000 == 0 || x & 0x80000000 == 0x80000000,
        (x & 0x80000000 == 0x80000000) == (x >= 0x80000000),
        (x & 0xC0000000 == 0x80000000) == (0x80000000 <= x && x < 0xC0000000),
        x < 0x80000000 ==> ((x & 0x40000000 == 0x40000000) == (x >= 0x40000000)),
        (x & 0x40000000 == 0x40000000) == ((x / 0x40000000) % 2 == 1),
        0x40000000 <= x && x < 0x80000000 ==> x & 0x3FFFFFFF == x - 0x40000000,
        0x80000000 <= x && x < 0xC0000000 ==> x | 0x40000000 == x + 0x40000000,
{
}

proof fn lemma_shift_left(x: u32)
    by (bit_vector)
    ensures
        x << 1 == 2 * (x % 0x80000000),
        (x << 1) | 1 == 2 * (x % 0x80000000) + 1,
        (x << 1) | 0 == 2 * (x % 0x80000000),
{
}

/// Encodes symbols into the byte buffer it owns.
#[derive(Debug)]
pub struct Encoder {
    high: u32,
    low: u32,
    underflow: u64,
    symbols: SymbolTable,
    bit_writer: BitWriter,
}

impl View for Encoder {
    type V = EncoderState;

    closed spec fn view(&self) -> EncoderState {
        EncoderState {
            interval: Interval { low: self.low as int, high: self.high as int },
            underflow: self.underflow as nat,
            table: self.symbols@,
            bits: self.bit_writer@,
        }
    }
}

impl Encoder {
    /// The parts of the encoder are well formed, and the underflow counter is
    /// bounded by the number of symbols encoded: each adds less than `FULL`.
    pub closed spec fn consistent(&self) -> bool {
        &&& self.symbols.wf()
        &&& self.bit_writer.wf()
        &&& self.underflow <= (table_total(self.symbols@) - MAX_SYMBOLS) * FULL
    }

    /// The encoder is consistent and its state is well formed.
    pub open spec fn wf(&self) -> bool {
        self.consistent() && self@.wf()
    }

    /// An encoder that appends to `writer`.
    pub fn new(writer: Vec<u8>) -> (encoder: Encoder)
        ensures
            encoder.wf(),
            encoder@ == EncoderState::initial(bits_of(writer@)),
            writer@.len() == 0 ==> encoder@ == EncoderState::initial(Seq::empty()),
    {
        let encoder = Encoder {
            high: MAX_PROBABILITY,
            low: 0,
            underflow: 0,
            symbols: SymbolTable::new(),
            bit_writer: BitWriter::new(writer),
        };
        proof {
            encoder.symbols.lemma_wf();
            if writer@.len() == 0 {
                assert(bits_of(writer@) =~= Seq::<bool>::empty());
            }
        }
        encoder
    }

    /// Encodes `symbol`, unless the table is saturated; then nothing changes.
    #[verifier::rlimit(50)]
    pub fn encode_next(&mut self, symbol: usize) -> (result: Result<(), CoderError>)
        requires
            old(self).wf(),
            symbol < MAX_SYMBOLS,
        ensures
            final(self).wf(),
            result == (if old(self)@.saturated() {
                Err::<(), CoderError>(CoderError::ModelSaturated)
            } else {
                Ok(())
            }),
            result is Ok ==> final(self)@ == old(self)@.encode(symbol as int),
            result is Err ==> final(self)@ == old(self)@,
    {
        let total = self.symbols.total();
        if total >= MAX_TOTAL {
            return Err(CoderError::ModelSaturated);
        }
        let ghost before = self@;
        let ghost symbols = self.symbols;
        let range: u64 = (self.high - self.low) as u64 + 1;
        let (symbol_low, symbol_high) = self.symbols.get_symbol(symbol);
        proof {
            assert(symbol_weight(before.table, symbol as int) >= 1);
            lemma_table_monotonic(before.table, symbol + 1, MAX_SYMBOLS as int);
            lemma_table_monotonic(before.table, 0, symbol as int);
            lemma_narrow_nested(
                before.interval,
                symbol_low as int,
                symbol_high as int,
                total as int,
            );
            assert(symbol_high * range <= 0x2000_0000 * 0x1_0000_0000) by (nonlinear_arith)
                requires
                    0 <= symbol_high <= 0x2000_0000,
                    0 <= range <= 0x1_0000_0000,
            ;
            assert(symbol_low * range <= 0x2000_0000 * 0x1_0000_0000) by (nonlinear_arith)
                requires
                    0 <= symbol_low <= 0x2000_0000,
                    0 <= range <= 0x1_0000_0000,
            ;
        }
        self.high = (self.low as u64 + (symbol_high * range) / total - 1) as u32;
        self.low = (self.low as u64 + (symbol_low * range) / total) as u32;
        let ghost narrowed = Interval { low: self.low as int, high: self.high as int };
        let ghost end = renormalize(narrowed, before.underflow);
        proof {
            assert(narrowed == before.narrowed(symbol as int));
            lemma_renormalize(narrowed, before.underflow);
        }
        loop
            invariant
                self.symbols == symbols,
                self.bit_writer.wf(),
                self@.interval.valid(),
                narrowed.valid(),
                renormalize(self@.interval, self@.underflow).interval == end.interval,
                renormalize(self@.interval, self@.underflow).underflow == end.underflow,
                self@.bits + renormalize(self@.interval, self@.underflow).bits == before.bits
                    + end.bits,
                self.underflow + narrowed.range() <= before.underflow + self@.interval.range(),
                before.underflow <= (total - MAX_SYMBOLS) * FULL,
                total < MAX_TOTAL,
            ensures
                self.symbols == symbols,
                self.bit_writer.wf(),
                self@.interval == end.interval,
                self@.underflow == end.underflow,
                self@.bits == before.bits + end.bits,
                self.underflow <= (total + 1 - MAX_SYMBOLS) * FULL,
            decreases FULL - self@.interval.range(),
        {
            let ghost current = self@;
            proof {
                lemma_top_bits(self.low);
                lemma_top_bits(self.high);
            }
            if (self.high & 0x80000000) == (self.low & 0x80000000) {
                let bit = self.low & 0x80000000 == 0x80000000;
                self.bit_writer.write(bit);
                while self.underflow != 0
                    invariant
                        self.symbols == symbols,
                        self.bit_writer.wf(),
                        self.underflow <= current.underflow,
                        self@.interval == current.interval,
                        self@.bits == current.bits.push(bit) + repeat_bit(
                            !bit,
                            (current.underflow - self.underflow) as nat,
                        ),
                    decreases self.underflow,
                {
                    let ghost written = self@.bits;
                    self.bit_writer.write(!bit);
                    self.underflow -= 1;
                    proof {
                        assert(written.push(!bit) =~= current.bits.push(bit) + repeat_bit(
                            !bit,
                            (current.underflow - self.underflow) as nat,
                        ));
                    }
                }
                proof {
                    assert(self@.bits =~= current.bits + settle_bits(bit, current.underflow));
                    lemma_shift_agreeing(current.interval);
                    let rest = renormalize(current.interval.shift_agreeing(), 0);
                    assert(current.bits + (settle_bits(bit, current.underflow) + rest.bits)
                        =~= (current.bits + settle_bits(bit, current.underflow)) + rest.bits);
                }
            } else if (self.high & 0xC0000000) == 0x80000000 && (self.low & 0x40000000)
                == 0x40000000 {
                self.underflow += 1;
                self.low &= 0x3FFFFFFF;
                self.high |= 0x40000000;
                proof {
                    lemma_shift_straddling(current.interval);
                }
            } else {
                break ;
            }
            proof {
                lemma_shift_left(self.low);
                lemma_shift_left(self.high);
            }
            self.high = self.high << 1;
            self.low = self.low << 1;
            self.high = self.high | 1;
        }
        proof {
            symbols.lemma_wf();
            assert(self@.bits == before.bits + end.bits);
        }
        self.symbols.increment_symbol(symbol);
        proof {
            self.symbols.lemma_wf();
        }
        Ok(())
    }

    /// Finishes the stream, unless the table is saturated; then nothing
    /// changes.
    #[verifier::rlimit(50)]
    pub fn encode_end(&mut self) -> (result: Result<(), CoderError>)
        requires
            old(self).wf(),
        ensures
            final(self).wf(),
            result == (if old(self)@.saturated() {
                Err::<(), CoderError>(CoderError::ModelSaturated)
            } else {
                Ok(())
            }),
            result is Ok ==> final(self)@ == old(self)@.finish(),
            result is Err ==> final(self)@ == old(self)@,
    {
        self.encode_next(SYMBOL_EOF)?;
        let ghost last = self@;
        let ghost symbols = self.symbols;
        proof {
            lemma_top_bits(self.low);
        }
        let bit = self.low & 0x40000000 == 0x40000000;
        self.underflow += 1;
        self.bit_writer.write(bit);
        while self.underflow > 0
            invariant
                self.symbols == symbols,
                self.bit_writer.wf(),
                self.underflow <= last.underflow + 1,
                self@.interval == last.interval,
                self@.bits == last.bits.push(bit) + repeat_bit(
                    !bit,
                    (last.underflow + 1 - self.underflow) as nat,
                ),
            decreases self.underflow,
        {
            let ghost written = self@.bits;
            self.underflow -= 1;
            self.bit_writer.write(!bit);
            proof {
                assert(written.push(!bit) =~= last.bits.push(bit) + repeat_bit(
                    !bit,
                    (last.underflow + 1 - self.underflow) as nat,
                ));
            }
        }
        proof {
            assert(self@.bits =~= last.bits + last.closing_bits());
        }
        self.bit_writer.flush();
        Ok(())
    }

    /// Gives the byte buffer back: the bits emitted, packed into bytes. Bits
    /// of a byte in progress are not part of it; once the stream has been
    /// finished there are none.
    pub fn into_inner(self) -> (bytes: Vec<u8>)
        requires
            self.wf(),
        ensures
            bytes@ == bytes_of(self@.bits),
    {
        self.bit_writer.into_inner()
    }
}

/// Decodes symbols from a byte string.
#[derive(Debug)]
pub struct Decoder<'a> {
    high: u32,
    low: u32,
    code: u32,
    symbols: SymbolTable,
    bit_reader: BitReader<'a>,
}

impl<'a> View for Decoder<'a> {
    type V = DecoderState;

    closed spec fn view(&self) -> DecoderState {
        DecoderState {
            interval: Interval { low: self.low as int, high: self.high as int },
            code: self.code as int,
            table: self.symbols@,
            position: self.bit_reader.position(),
        }
    }
}

impl<'a> Decoder<'a> {
    /// The bit stream that is decoded.
    pub closed spec fn stream(&self) -> Seq<bool> {
        self.bit_reader.stream()
    }

    /// The parts of the decoder are well formed.
    pub closed spec fn consistent(&self) -> bool {
        &&& self.symbols.wf()
        &&& self.bit_reader.wf()
    }

    /// The decoder is consistent and its state is well formed.
    pub open spec fn wf(&self) -> bool {
        self.consistent() && self@.wf(self.stream())
    }

    /// Reads the next bit of the stream, a one where the stream has ended.
    fn next_bit(&mut self) -> (bit: u32)
        requires
            old(self).bit_reader.wf(),
        ensures
            final(self).bit_reader.wf(),
            final(self).bit_reader.stream() == old(self).bit_reader.stream(),
            final(self).bit_reader.position() == stream_advance(
                old(self).bit_reader.stream(),
                old(self).bit_reader.position(),
            ),
            bit == (if stream_bit(
                old(self).bit_reader.stream(),
                old(self).bit_reader.position() as int,
            ) {
                1u32
            } else {
                0u32
            }),
            final(self).high == old(self).high,
            final(self).low == old(self).low,
            final(self).code == old(self).code,
            final(self).symbols == old(self).symbols,
    {
        match self.bit_reader.read() {
            ReadResult::EOF => 1,
            ReadResult::Bit(r) => if r {
                1
            } else {
                0
            },
        }
    }

    /// A decoder at the start of `reader`.
    pub fn new(reader: &'a [u8]) -> (decoder: Decoder<'a>)
        ensures
            decoder.wf(),
            decoder.stream() == bits_of(reader@),
            decoder@ == DecoderState::initial(bits_of(reader@)),
    {
        let mut decoder = Decoder {
            high: 0xFFFFFFFF,
            low: 0,
            symbols: SymbolTable::new(),
            bit_reader: BitReader::new(reader),
            code: 0,
        };
        let ghost stream = bits_of(reader@);
        let ghost symbols = decoder.symbols;
        let mut i: usize = 0;
        while i < 32
            invariant
                i <= 32,
                decoder.high == 0xFFFFFFFF,
                decoder.low == 0,
                decoder.symbols == symbols,
                decoder.bit_reader.wf(),
                decoder.bit_reader.stream() == stream,
                decoder.bit_reader.position() == prefill_position(stream, i as nat),
                decoder.code == prefill(stream, i as nat),
            decreases 32 - i,
        {
            proof {
                lemma_shift_left(decoder.code);
            }
            decoder.code = decoder.code << 1;
            let bit = decoder.next_bit();
            decoder.code = decoder.code | bit;
            i += 1;
        }
        proof {
            decoder.symbols.lemma_wf();
        }
        decoder
    }

    /// Decodes the next symbol, unless the table is saturated; then nothing
    /// changes.
    #[verifier::rlimit(50)]
    pub fn decode_next(&mut self) -> (result: Result<usize, CoderError>)
        requires
            old(self).wf(),
        ensures
            final(self).wf(),
            final(self).stream() == old(self).stream(),
            result == (if old(self)@.saturated() {
                Err::<usize, CoderError>(CoderError::ModelSaturated)
            } else {
                Ok(old(self)@.symbol() as usize)
            }),
            result is Ok ==> 0 <= old(self)@.symbol() < MAX_SYMBOLS,
            result is Ok ==> final(self)@ == old(self)@.decode(old(self).stream()),
            result is Err ==> final(self)@ == old(self)@,
    {
        let total = self.symbols.total();
        if total >= MAX_TOTAL {
            return Err(CoderError::ModelSaturated);
        }
        let ghost before = self@;
        let ghost stream = self.stream();
        let ghost symbols = self.symbols;
        let range: u64 = (self.high - self.low) as u64 + 1;
        let offset: u64 = (self.code - self.low) as u64 + 1;
        proof {
            symbols.lemma_wf();
            lemma_table_monotonic(before.table, 0, MAX_SYMBOLS as int);
            lemma_scaled_value(before.interval, before.code, 0, 0, total as int);
            assert(offset * total <= 0x1_0000_0000 * 0x2000_0000) by (nonlinear_arith)
                requires
                    0 <= total <= 0x2000_0000,
                    0 <= offset <= 0x1_0000_0000,
            ;
            assert(offset * total >= 1) by (nonlinear_arith)
                requires
                    1 <= total,
                    1 <= offset,
            ;
        }
        let cumulative_value: u64 = (offset * total - 1) / range;
        let (symbol, symbol_low, symbol_high) = self.symbols.find_symbol(cumulative_value);
        proof {
            assert(symbol == before.symbol());
            assert(symbol_weight(before.table, symbol as int) >= 1);
            lemma_table_monotonic(before.table, symbol + 1, MAX_SYMBOLS as int);
            lemma_table_monotonic(before.table, 0, symbol as int);
            lemma_narrow_nested(
                before.interval,
                symbol_low as int,
                symbol_high as int,
                total as int,
            );
            lemma_scaled_value(
                before.interval,
                before.code,
                symbol_low as int,
                symbol_high as int,
                total as int,
            );
            assert(symbol_high * range <= 0x2000_0000 * 0x1_0000_0000) by (nonlinear_arith)
                requires
                    0 <= symbol_high <= 0x2000_0000,
                    0 <= range <= 0x1_0000_0000,
            ;
            assert(symbol_low * range <= 0x2000_0000 * 0x1_0000_0000) by (nonlinear_arith)
                requires
                    0 <= symbol_low <= 0x2000_0000,
                    0 <= range <= 0x1_0000_0000,
            ;
        }
        self.high = (self.low as u64 + (symbol_high * range) / total - 1) as u32;
        self.low = (self.low as u64 + (symbol_low * range) / total) as u32;
        let ghost narrowed = Interval { low: self.low as int, high: self.high as int };
        let ghost end = follow(narrowed, before.code, stream, before.position);
        proof {
            lemma_follow(narrowed, before.code, stream, before.position);
        }
        loop
            invariant
                self.symbols == symbols,
                self.bit_reader.wf(),
                self.bit_reader.stream() == stream,
                self@.interval.valid(),
                self@.interval.contains(self@.code),
                follow(self@.interval, self@.code, stream, self@.position) == end,
            ensures
                self.symbols == symbols,
                self.bit_reader.wf(),
                self.bit_reader.stream() == stream,
                self@.interval == end.interval,
                self@.code == end.code,
                self@.position == end.position,
            decreases FULL - self@.interval.range(),
        {
            let ghost current = self@;
            proof {
                lemma_top_bits(self.low);
                lemma_top_bits(self.high);
            }
            if (self.high & 0x80000000) == (self.low & 0x80000000) {
                proof {
                    lemma_shift_agreeing(current.interval);
                }
            } else if (self.high & 0xC0000000) == 0x80000000 && (self.low & 0x40000000)
                == 0x40000000 {
                self.high = self.high | 0x40000000;
                self.low = self.low & 0x3FFFFFFF;
                self.code -= 0x40000000;
                proof {
                    lemma_shift_straddling(current.interval);
                }
            } else {
                break ;
            }
            proof {
                lemma_shift_left(self.low);
                lemma_shift_left(self.high);
                lemma_shift_left(self.code);
            }
            self.high = self.high << 1;
            self.low = self.low << 1;
            self.code = self.code << 1;
            self.high = self.high | 1;
            let bit = self.next_bit();
            self.code |= bit;
        }
        self.symbols.increment_symbol(symbol);
        proof {
            self.symbols.lemma_wf();
        }
        Ok(symbol)
    }
}

} // verus!
