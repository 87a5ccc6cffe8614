//! Bit-level framing: a writer that packs bits into bytes and a reader that
//! hands the bits of a byte string back one at a time, both most significant
//! bit first.
//!
//! Both ends are described over one model, the sequence of bits that a byte
//! string spells out ([`bits_of`]): bit `k` of the stream is bit `7 - k % 8`
//! of byte `k / 8`.

use vstd::prelude::*;

verus! {

/// Whether bit `k` of `byte` is set, where `k == 0` names the most
/// significant bit and `k == 7` the least significant one.
pub open spec fn byte_bit(byte: u8, k: int) -> bool {
    byte & (1u8 << ((7 - k) as u8)) != 0
}

/// The eight bits of `byte`, most significant first.
pub open spec fn byte_bits(byte: u8) -> Seq<bool> {
    Seq::new(8, |k: int| byte_bit(byte, k))
}

/// The bit stream that `bytes` spells out: eight bits per byte, in order,
/// each byte most significant bit first.
pub open spec fn bits_of(bytes: Seq<u8>) -> Seq<bool> {
    Seq::new(8 * bytes.len(), |i: int| byte_bit(bytes[i / 8], i % 8))
}

/// `n` copies of `bit`.
pub open spec fn repeat_bit(bit: bool, n: nat) -> Seq<bool> {
    Seq::new(n, |i: int| bit)
}

/// `bits` followed by as few zero bits as bring its length to a multiple of
/// eight.
pub open spec fn pad_to_byte(bits: Seq<bool>) -> Seq<bool> {
    bits + repeat_bit(false, ((8 - bits.len() % 8) % 8) as nat)
}

/// `mask` if `bit` is set, zero if it is not.
pub open spec fn bit_mask(bit: bool, mask: u8) -> u8 {
    if bit {
        mask
    } else {
        0
    }
}

/// The byte whose bits, most significant first, are the eight bits of `bits`
/// from position `at` on.
pub open spec fn byte_at(bits: Seq<bool>, at: int) -> u8 {
    bit_mask(bits[at], 0x80) | bit_mask(bits[at + 1], 0x40) | bit_mask(bits[at + 2], 0x20)
        | bit_mask(bits[at + 3], 0x10) | bit_mask(bits[at + 4], 0x08) | bit_mask(
        bits[at + 5],
        0x04,
    ) | bit_mask(bits[at + 6], 0x02) | bit_mask(bits[at + 7], 0x01)
}

/// The bytes into which `bits` is packed, eight bits per byte, the first bit
/// of each group most significant. Bits after the last full group of eight
/// belong to no byte.
pub open spec fn bytes_of(bits: Seq<bool>) -> Seq<u8> {
    Seq::new(bits.len() / 8, |i: int| byte_at(bits, 8 * i))
}

proof fn lemma_packed_bit(
    b0: bool,
    b1: bool,
    b2: bool,
    b3: bool,
    b4: bool,
    b5: bool,
    b6: bool,
    b7: bool,
    k: u8,
)
    by (bit_vector)
    requires
        k < 8,
    ensures
        ((bit_mask(b0, 0x80) | bit_mask(b1, 0x40) | bit_mask(b2, 0x20) | bit_mask(b3, 0x10)
            | bit_mask(b4, 0x08) | bit_mask(b5, 0x04) | bit_mask(b6, 0x02) | bit_mask(b7, 0x01))
            & (1u8 << ((7 - k) as u8)) != 0) == (if k == 0 {
            b0
        } else if k == 1 {
            b1
        } else if k == 2 {
            b2
        } else if k == 3 {
            b3
        } else if k == 4 {
            b4
        } else if k == 5 {
            b5
        } else if k == 6 {
            b6
        } else {
            b7
        }),
{
}

proof fn lemma_or_bit(buffer: u8, n: u8, x: bool, k: u8)
    by (bit_vector)
    requires
        n < 8,
        k < 8,
        buffer & (1u8 << ((7 - n) as u8)) == 0,
    ensures
        ((buffer | (bit_mask(x, 1) << ((7 - n) as u8))) & (1u8 << ((7 - k) as u8)) != 0) == (if k
            == n {
            x
        } else {
            buffer & (1u8 << ((7 - k) as u8)) != 0
        }),
{
}

proof fn lemma_zero_bit(k: u8)
    by (bit_vector)
    requires
        k < 8,
    ensures
        0u8 & (1u8 << ((7 - k) as u8)) == 0,
{
}

proof fn lemma_same_bits_same_byte(a: u8, b: u8)
    by (bit_vector)
    requires
        a & 0x80 == b & 0x80,
        a & 0x40 == b & 0x40,
        a & 0x20 == b & 0x20,
        a & 0x10 == b & 0x10,
        a & 0x08 == b & 0x08,
        a & 0x04 == b & 0x04,
        a & 0x02 == b & 0x02,
        a & 0x01 == b & 0x01,
    ensures
        a == b,
{
}

proof fn lemma_bit_masks(a: u8)
    by (bit_vector)
    ensures
        a & (1u8 << 7u8) == a & 0x80,
        a & (1u8 << 6u8) == a & 0x40,
        a & (1u8 << 5u8) == a & 0x20,
        a & (1u8 << 4u8) == a & 0x10,
        a & (1u8 << 3u8) == a & 0x08,
        a & (1u8 << 2u8) == a & 0x04,
        a & (1u8 << 1u8) == a & 0x02,
        a & (1u8 << 0u8) == a & 0x01,
        a & 0x80 == 0 || a & 0x80 == 0x80,
        a & 0x40 == 0 || a & 0x40 == 0x40,
        a & 0x20 == 0 || a & 0x20 == 0x20,
        a & 0x10 == 0 || a & 0x10 == 0x10,
        a & 0x08 == 0 || a & 0x08 == 0x08,
        a & 0x04 == 0 || a & 0x04 == 0x04,
        a & 0x02 == 0 || a & 0x02 == 0x02,
        a & 0x01 == 0 || a & 0x01 == 0x01,
{
}

/// A byte is determined by its eight bits.
pub proof fn lemma_byte_bits_injective(a: u8, b: u8)
    requires
        byte_bits(a) == byte_bits(b),
    ensures
        a == b,
{
    lemma_bit_masks(a);
    lemma_bit_masks(b);
    assert forall|k: int| 0 <= k < 8 implies byte_bit(a, k) == byte_bit(b, k) by {
        assert(byte_bits(a)[k] == byte_bit(a, k));
        assert(byte_bits(b)[k] == byte_bit(b, k));
    }
    assert(byte_bit(a, 0) == byte_bit(b, 0));
    assert(byte_bit(a, 1) == byte_bit(b, 1));
    assert(byte_bit(a, 2) == byte_bit(b, 2));
    assert(byte_bit(a, 3) == byte_bit(b, 3));
    assert(byte_bit(a, 4) == byte_bit(b, 4));
    assert(byte_bit(a, 5) == byte_bit(b, 5));
    assert(byte_bit(a, 6) == byte_bit(b, 6));
    assert(byte_bit(a, 7) == byte_bit(b, 7));
    lemma_same_bits_same_byte(a, b);
}

/// A byte string is determined by the bit stream it spells out: no two byte
/// strings share one.
pub proof fn lemma_bits_of_injective(a: Seq<u8>, b: Seq<u8>)
    requires
        bits_of(a) == bits_of(b),
    ensures
        a == b,
{
    assert(bits_of(a).len() == 8 * a.len());
    assert(bits_of(b).len() == 8 * b.len());
    assert(a.len() == b.len());
    assert forall|i: int| 0 <= i < a.len() implies a[i] == b[i] by {
        assert forall|k: int| 0 <= k < 8 implies byte_bit(a[i], k) == byte_bit(b[i], k) by {
            assert(bits_of(a)[8 * i + k] == byte_bit(a[(8 * i + k) / 8], (8 * i + k) % 8));
            assert(bits_of(b)[8 * i + k] == byte_bit(b[(8 * i + k) / 8], (8 * i + k) % 8));
        }
        assert(byte_bits(a[i]) =~= byte_bits(b[i]));
        lemma_byte_bits_injective(a[i], b[i]);
    }
    assert(a =~= b);
}

/// Appending a byte appends its eight bits.
pub proof fn lemma_bits_of_push(bytes: Seq<u8>, byte: u8)
    ensures
        bits_of(bytes.push(byte)) == bits_of(bytes) + byte_bits(byte),
{
    let left = bits_of(bytes.push(byte));
    let right = bits_of(bytes) + byte_bits(byte);
    assert(left.len() == right.len());
    assert forall|i: int| 0 <= i < left.len() implies left[i] == right[i] by {
        if i < 8 * bytes.len() {
            assert(bytes.push(byte)[i / 8] == bytes[i / 8]);
        } else {
            assert(i / 8 == bytes.len());
            assert(i % 8 == i - 8 * bytes.len());
        }
    }
    assert(left =~= right);
}

/// Appending byte strings appends their bit streams.
pub proof fn lemma_bits_of_concat(first: Seq<u8>, second: Seq<u8>)
    ensures
        bits_of(first + second) == bits_of(first) + bits_of(second),
{
    let left = bits_of(first + second);
    let right = bits_of(first) + bits_of(second);
    assert(left.len() == right.len());
    assert forall|i: int| 0 <= i < left.len() implies left[i] == right[i] by {
        if i < 8 * first.len() {
            assert((first + second)[i / 8] == first[i / 8]);
        } else {
            let j = i - 8 * first.len();
            assert(i / 8 == first.len() + j / 8);
            assert(i % 8 == j % 8);
            assert((first + second)[i / 8] == second[j / 8]);
        }
    }
    assert(left =~= right);
}

/// Bit `k` of a packed byte is bit `k` of the group it was packed from.
pub proof fn lemma_byte_at(bits: Seq<bool>, at: int, k: int)
    requires
        0 <= k < 8,
    ensures
        byte_bit(byte_at(bits, at), k) == bits[at + k],
{
    lemma_packed_bit(
        bits[at],
        bits[at + 1],
        bits[at + 2],
        bits[at + 3],
        bits[at + 4],
        bits[at + 5],
        bits[at + 6],
        bits[at + 7],
        k as u8,
    );
}

/// Packing bits into bytes and spelling the bytes out again gives the bits
/// back, up to the last byte boundary.
pub proof fn lemma_bits_of_bytes_of(bits: Seq<bool>)
    ensures
        bits_of(bytes_of(bits)) == bits.take(bits.len() - bits.len() % 8),
        bits.len() % 8 == 0 ==> bits_of(bytes_of(bits)) == bits,
{
    let back = bits_of(bytes_of(bits));
    let whole = bits.take(bits.len() - bits.len() % 8);
    assert(back.len() == whole.len());
    assert forall|i: int| 0 <= i < back.len() implies back[i] == whole[i] by {
        lemma_byte_at(bits, 8 * (i / 8), i % 8);
    }
    assert(back =~= whole);
    if bits.len() % 8 == 0 {
        assert(whole =~= bits);
    }
}

/// Spelling bytes out as bits and packing the bits again gives the bytes
/// back.
pub proof fn lemma_bytes_of_bits_of(bytes: Seq<u8>)
    ensures
        bytes_of(bits_of(bytes)) == bytes,
{
    lemma_bits_of_bytes_of(bits_of(bytes));
    lemma_bits_of_injective(bytes_of(bits_of(bytes)), bytes);
}

/// Padding what is padded adds nothing: a second flush leaves the stream as
/// the first one left it.
pub proof fn lemma_pad_to_byte_idempotent(bits: Seq<bool>)
    ensures
        pad_to_byte(pad_to_byte(bits)) == pad_to_byte(bits),
{
    assert(pad_to_byte(bits).len() % 8 == 0);
    assert(pad_to_byte(pad_to_byte(bits)) =~= pad_to_byte(bits));
}

/// What a writer that is fed `bits` and then flushed leaves in an empty
/// buffer, and what a reader gets out of it: one byte for every eight bits,
/// rounded up; bit `k` of the input at position `7 - k % 8` of byte `k / 8`;
/// zeros in what is left of the last byte; and as the bit stream of those
/// bytes the input followed by that padding.
pub proof fn lemma_packing(bits: Seq<bool>)
    ensures
        bytes_of(pad_to_byte(bits)).len() == (bits.len() + 7) / 8,
        bits_of(bytes_of(pad_to_byte(bits))) == pad_to_byte(bits),
        forall|k: int|
            0 <= k < bits.len() ==> byte_bit(bytes_of(pad_to_byte(bits))[k / 8], k % 8)
                == #[trigger] bits[k],
        forall|k: int|
            bits.len() <= k < 8 * bytes_of(pad_to_byte(bits)).len() ==> !#[trigger] byte_bit(
                bytes_of(pad_to_byte(bits))[k / 8],
                k % 8,
            ),
{
    let padded = pad_to_byte(bits);
    let bytes = bytes_of(padded);
    assert(padded.len() % 8 == 0);
    lemma_bits_of_bytes_of(padded);
    assert forall|k: int| 0 <= k < padded.len() implies byte_bit(bytes[k / 8], k % 8)
        == padded[k] by {
        assert(bits_of(bytes)[k] == byte_bit(bytes[k / 8], k % 8));
    }
    assert forall|k: int| 0 <= k < bits.len() implies byte_bit(bytes[k / 8], k % 8)
        == #[trigger] bits[k] by {
        assert(padded[k] == bits[k]);
    }
    assert forall|k: int| bits.len() <= k < 8 * bytes.len() implies !#[trigger] byte_bit(
        bytes[k / 8],
        k % 8,
    ) by {
        assert(padded[k] == false);
    }
}

/// What a read of one bit yields: a bit, or the end of the source.
#[derive(Debug, PartialEq, Eq, Structural)]
pub enum ReadResult {
    EOF,
    Bit(bool),
}

/// Packs bits into bytes, most significant bit first, and appends each
/// completed byte to the byte buffer it owns.
#[derive(Debug)]
pub struct BitWriter {
    writer: Vec<u8>,
    buffer_length: usize,
    buffer: u8,
}

impl View for BitWriter {
    type V = Seq<bool>;

    /// Every bit that the sink holds: those of its complete bytes, then the
    /// ones still buffered.
    closed spec fn view(&self) -> Seq<bool> {
        bits_of(self.writer@) + byte_bits(self.buffer).take(self.buffer_length as int)
    }
}

impl BitWriter {
    /// Fewer than eight bits are buffered, and the unused low bits of the
    /// buffer are zero.
    pub closed spec fn wf(&self) -> bool {
        &&& self.buffer_length < 8
        &&& forall|k: int| self.buffer_length <= k < 8 ==> !byte_bit(self.buffer, k)
    }

    /// A writer that appends to `writer`.
    pub fn new(writer: Vec<u8>) -> (w: BitWriter)
        ensures
            w.wf(),
            w@ == bits_of(writer@),
    {
        let w = BitWriter { writer, buffer_length: 0, buffer: 0 };
        proof {
            assert forall|k: int| 0 <= k < 8 implies !byte_bit(0u8, k) by {
                lemma_zero_bit(k as u8);
            }
            assert(w@ =~= bits_of(writer@));
        }
        w
    }

    /// Appends one bit.
    pub fn write(&mut self, x: bool)
        requires
            old(self).wf(),
        ensures
            final(self).wf(),
            final(self)@ == old(self)@.push(x),
    {
        let ghost before = *self;
        let shift: u8 = (7 - self.buffer_length) as u8;
        let bit: u8 = if x {
            1
        } else {
            0
        };
        let filled: u8 = self.buffer | (bit << shift);
        proof {
            let n = self.buffer_length as int;
            assert(!byte_bit(self.buffer, n));
            assert forall|k: int| 0 <= k < 8 implies byte_bit(filled, k) == (if k == n {
                x
            } else {
                byte_bit(self.buffer, k)
            }) by {
                lemma_or_bit(self.buffer, n as u8, x, k as u8);
            }
            assert(byte_bits(filled).take(n + 1) =~= byte_bits(self.buffer).take(n).push(x));
        }
        self.buffer = filled;
        self.buffer_length += 1;
        if self.buffer_length == 8 {
            self.writer.push(self.buffer);
            self.buffer_length = 0;
            self.buffer = 0;
            proof {
                lemma_bits_of_push(before.writer@, filled);
                assert(byte_bits(filled).take(8) =~= byte_bits(filled));
                assert forall|k: int| 0 <= k < 8 implies !byte_bit(0u8, k) by {
                    lemma_zero_bit(k as u8);
                }
                assert(self@ =~= before@.push(x));
            }
        } else {
            proof {
                assert(self@ =~= before@.push(x));
            }
        }
    }

    /// Completes the byte in progress, if there is one, with zero bits.
    pub fn flush(&mut self)
        requires
            old(self).wf(),
        ensures
            final(self).wf(),
            final(self)@ == pad_to_byte(old(self)@),
    {
        let ghost before = *self;
        if self.buffer_length > 0 {
            self.writer.push(self.buffer);
            self.buffer_length = 0;
            self.buffer = 0;
            proof {
                lemma_bits_of_push(before.writer@, before.buffer);
                assert forall|k: int| 0 <= k < 8 implies !byte_bit(0u8, k) by {
                    lemma_zero_bit(k as u8);
                }
                assert(before@.len() % 8 == before.buffer_length);
                assert(self@ =~= pad_to_byte(before@));
            }
        } else {
            proof {
                assert(before@.len() % 8 == 0);
                assert(self@ =~= pad_to_byte(before@));
            }
        }
    }

    /// Gives the byte buffer back: the bits written, packed into bytes. A
    /// byte in progress is not part of it.
    pub fn into_inner(self) -> (bytes: Vec<u8>)
        requires
            self.wf(),
        ensures
            bytes@ == bytes_of(self@),
    {
        proof {
            assert(self@.len() % 8 == self.buffer_length);
            assert(bits_of(self.writer@) =~= self@.take(self@.len() - self@.len() % 8));
            lemma_bits_of_bytes_of(self@);
            lemma_bits_of_injective(self.writer@, bytes_of(self@));
        }
        self.writer
    }
}

/// Hands out the bits of a byte string one at a time, most significant bit
/// first.
#[derive(Debug)]
pub struct BitReader<'a> {
    reader: &'a [u8],
    offset: usize,
    buffer_length: usize,
    buffer: u8,
}

impl<'a> BitReader<'a> {
    /// The buffered byte, if any of its bits are left, is the last byte taken
    /// from the source.
    pub closed spec fn wf(&self) -> bool {
        &&& self.offset <= self.reader@.len()
        &&& self.buffer_length <= 8
        &&& self.buffer_length > 0 ==> self.offset > 0 && self.buffer == self.reader@[self.offset
            - 1]
    }

    /// The bits of the source, all of them, read or not.
    pub closed spec fn stream(&self) -> Seq<bool> {
        bits_of(self.reader@)
    }

    /// How many bits of the stream have been read.
    pub closed spec fn position(&self) -> nat {
        (8 * self.offset - self.buffer_length) as nat
    }

    /// A reader at the start of `reader`.
    pub fn new(reader: &'a [u8]) -> (r: BitReader<'a>)
        ensures
            r.wf(),
            r.stream() == bits_of(reader@),
            r.position() == 0,
    {
        BitReader { reader, offset: 0, buffer_length: 0, buffer: 0 }
    }

    /// Reads the next bit of the stream, or reports that none is left.
    pub fn read(&mut self) -> (r: ReadResult)
        requires
            old(self).wf(),
        ensures
            final(self).wf(),
            final(self).stream() == old(self).stream(),
            old(self).position() <= old(self).stream().len(),
            old(self).position() < old(self).stream().len() ==> r == ReadResult::Bit(
                old(self).stream()[old(self).position() as int],
            ) && final(self).position() == old(self).position() + 1,
            old(self).position() == old(self).stream().len() ==> r == ReadResult::EOF
                && final(self).position() == old(self).position(),
    {
        if self.buffer_length == 0 {
            if self.offset < self.reader.len() {
                self.buffer = self.reader[self.offset];
                self.offset += 1;
                self.buffer_length = 8;
            } else {
                return ReadResult::EOF;
            }
        }
        let ghost at = self.position() as int;
        proof {
            assert(at / 8 == self.offset - 1);
            assert(at % 8 == 8 - self.buffer_length);
            assert(7 - at % 8 == self.buffer_length - 1);
        }
        let ret = self.buffer & (1u8 << ((self.buffer_length - 1) as u8)) != 0;
        self.buffer_length -= 1;
        ReadResult::Bit(ret)
    }
}

} // verus!
