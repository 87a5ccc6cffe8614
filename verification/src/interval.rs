//! The 32-bit interval arithmetic that encoder and decoder share: narrowing
//! an interval to a symbol's share of it, and shifting out the leading bits
//! on which its two bounds agree.
//!
//! Everything here is specification over mathematical integers, with the
//! lemmas that the coder's proofs rest on.

use crate::bitio::repeat_bit;
use vstd::arithmetic::power2::{lemma2_to64, lemma_pow2_unfold, pow2};
use vstd::prelude::*;

verus! {

/// Number of values of the interval domain, `2^32`.
pub const FULL: u64 = 0x1_0000_0000;

/// The midpoint of the interval domain, `2^31`.
pub const HALF: u64 = 0x8000_0000;

/// A quarter of the interval domain, `2^30`.
pub const QUARTER: u64 = 0x4000_0000;

/// The closed interval `[low, high]`.
pub struct Interval {
    pub low: int,
    pub high: int,
}

impl Interval {
    /// The whole 32-bit domain.
    pub open spec fn full() -> Interval {
        Interval { low: 0, high: FULL - 1 }
    }

    /// Both bounds are 32-bit values and `low` lies below `high`.
    pub open spec fn valid(self) -> bool {
        0 <= self.low < self.high < FULL
    }

    /// The number of values in the interval.
    pub open spec fn range(self) -> int {
        self.high - self.low + 1
    }

    /// Whether `v` lies in the interval.
    pub open spec fn contains(self, v: int) -> bool {
        self.low <= v <= self.high
    }

    /// Whether the two bounds have the same most significant bit.
    pub open spec fn agrees(self) -> bool {
        (self.low >= HALF) == (self.high >= HALF)
    }

    /// Whether the interval straddles the midpoint within the two middle
    /// quarters: `low` in the second quarter, `high` in the third.
    pub open spec fn straddles(self) -> bool {
        QUARTER <= self.low < HALF <= self.high < HALF + QUARTER
    }

    /// Renormalized: neither do the bounds agree on their top bit nor does the
    /// interval straddle the midpoint, so it holds more than a quarter of the
    /// domain.
    pub open spec fn settled(self) -> bool {
        self.valid() && !self.agrees() && !self.straddles()
    }

    /// The share of the interval that belongs to the cumulative range
    /// `lo .. hi` out of `total`.
    pub open spec fn narrow(self, lo: int, hi: int, total: int) -> Interval {
        Interval {
            low: self.low + (lo * self.range()) / total,
            high: self.low + (hi * self.range()) / total - 1,
        }
    }

    /// The interval after the common top bit of its bounds has been shifted
    /// out: a zero enters `low` from the right, a one enters `high`.
    pub open spec fn shift_agreeing(self) -> Interval {
        Interval { low: 2 * (self.low % (HALF as int)), high: 2 * (self.high % (HALF as int)) + 1 }
    }

    /// The interval after its second most significant bits have been dropped
    /// and the rest shifted as in `shift_agreeing`.
    pub open spec fn shift_straddling(self) -> Interval {
        Interval { low: 2 * (self.low - QUARTER), high: 2 * (self.high - QUARTER) + 1 }
    }
}

/// The scaled cumulative value at which `code` lies within `interval`, out of
/// `total`.
pub open spec fn scaled_value(interval: Interval, code: int, total: int) -> int {
    ((code - interval.low + 1) * total - 1) / interval.range()
}

/// The bits by which a top bit is settled: the bit itself, then one
/// complementary bit for each underflow that was counted before it.
pub open spec fn settle_bits(bit: bool, underflow: nat) -> Seq<bool> {
    seq![bit] + repeat_bit(!bit, underflow)
}

/// Where the encoder's renormalization ends: the settled interval, the
/// underflow count, and the bits that were emitted on the way.
pub struct Renormalized {
    pub interval: Interval,
    pub underflow: nat,
    pub bits: Seq<bool>,
}

/// Renormalizes `interval` on the encoder's side. While the bounds agree on
/// their top bit, that bit is emitted, followed by the pending underflow
/// bits, and shifted out; while the interval straddles the midpoint, an
/// underflow is counted and the second bits are dropped.
pub open spec fn renormalize(interval: Interval, underflow: nat) -> Renormalized
    decreases FULL - interval.range(),
{
    if !interval.valid() {
        Renormalized { interval, underflow, bits: Seq::empty() }
    } else if interval.agrees() {
        let rest = renormalize(interval.shift_agreeing(), 0);
        Renormalized {
            interval: rest.interval,
            underflow: rest.underflow,
            bits: settle_bits(interval.low >= HALF, underflow) + rest.bits,
        }
    } else if interval.straddles() {
        renormalize(interval.shift_straddling(), underflow + 1)
    } else {
        Renormalized { interval, underflow, bits: Seq::empty() }
    }
}

/// The bit at `position` of `stream` as the decoder sees it: past the end
/// every bit is a one.
pub open spec fn stream_bit(stream: Seq<bool>, position: int) -> bool {
    if 0 <= position < stream.len() {
        stream[position]
    } else {
        true
    }
}

/// The position after the bit at `position` has been taken: it does not move
/// past the end of the stream.
pub open spec fn stream_advance(stream: Seq<bool>, position: nat) -> nat {
    if position < stream.len() {
        position + 1
    } else {
        position
    }
}

/// A bit as a number.
pub open spec fn bit_value(bit: bool) -> int {
    if bit {
        1
    } else {
        0
    }
}

/// Where the decoder's renormalization ends: the settled interval, the code
/// value, and the position reached in the stream.
pub struct Followed {
    pub interval: Interval,
    pub code: int,
    pub position: nat,
}

/// The code value after its top bit has been shifted out and `bit` has been
/// taken in from the right.
pub open spec fn shift_in(code: int, bit: bool) -> int {
    2 * (code % (HALF as int)) + bit_value(bit)
}

/// The code value after the first `n` bits of `stream` have been shifted in.
pub open spec fn prefill(stream: Seq<bool>, n: nat) -> int
    decreases n,
{
    if n == 0 {
        0
    } else {
        shift_in(prefill(stream, (n - 1) as nat), stream_bit(stream, n - 1))
    }
}

/// The position after the first `n` bits of `stream` have been taken.
pub open spec fn prefill_position(stream: Seq<bool>, n: nat) -> nat {
    if n <= stream.len() {
        n
    } else {
        stream.len()
    }
}

/// Renormalizes `interval` on the decoder's side. The interval is shifted as
/// on the encoder's side; with each shift the code value loses the same bit
/// and takes the next bit of the stream in from the right.
pub open spec fn follow(interval: Interval, code: int, stream: Seq<bool>, position: nat) -> Followed
    decreases FULL - interval.range(),
{
    let next = stream_bit(stream, position as int);
    if !interval.valid() {
        Followed { interval, code, position }
    } else if interval.agrees() {
        follow(
            interval.shift_agreeing(),
            shift_in(code, next),
            stream,
            stream_advance(stream, position),
        )
    } else if interval.straddles() {
        follow(
            interval.shift_straddling(),
            shift_in(code - QUARTER, next),
            stream,
            stream_advance(stream, position),
        )
    } else {
        Followed { interval, code, position }
    }
}

/// A quotient is at least `c` exactly when the dividend is at least `c`
/// times the divisor.
pub proof fn lemma_div_at_least(x: int, d: int, c: int)
    by (nonlinear_arith)
    requires
        d > 0,
    ensures
        (x / d >= c) <==> (x >= c * d),
{
    assert(x == d * (x / d) + x % d && 0 <= x % d < d) by {
        vstd::arithmetic::div_mod::lemma_fundamental_div_mod(x, d);
        vstd::arithmetic::div_mod::lemma_mod_bound(x, d);
    }
    let q = x / d;
    if q >= c {
        assert(q * d >= c * d);
    } else {
        assert((q + 1) * d <= c * d);
        assert((q + 1) * d == q * d + d);
    }
}

/// Narrowing to a non-empty cumulative range keeps the interval inside the
/// one it came from and leaves it at least two values, provided the range is
/// at least twice the total, as it is for a settled interval and a total of
/// at most `2^29`.
pub proof fn lemma_narrow_nested(interval: Interval, lo: int, hi: int, total: int)
    requires
        interval.valid(),
        0 <= lo < hi <= total,
        2 * total <= interval.range(),
    ensures
        interval.low <= interval.narrow(lo, hi, total).low,
        interval.narrow(lo, hi, total).low < interval.narrow(lo, hi, total).high,
        interval.narrow(lo, hi, total).high <= interval.high,
        interval.narrow(lo, hi, total).valid(),
{
    let r = interval.range();
    let a = (lo * r) / total;
    let b = (hi * r) / total;
    lemma_div_at_least(lo * r, total, 0);
    assert(lo * r >= 0) by (nonlinear_arith)
        requires
            lo >= 0,
            r >= 0,
    ;
    assert(a >= 0);
    lemma_div_at_least(hi * r, total, r + 1);
    assert(hi * r < (r + 1) * total) by (nonlinear_arith)
        requires
            0 < hi <= total,
            r > 0,
    ;
    assert(b <= r);
    lemma_div_at_least(lo * r, total, a);
    lemma_div_at_least(hi * r, total, a + 2);
    assert(hi * r >= (a + 2) * total) by (nonlinear_arith)
        requires
            lo * r >= a * total,
            hi >= lo + 1,
            r >= 2 * total,
            total > 0,
    ;
    assert(b >= a + 2);
}

/// The decoder's scaled value lies below the total, and it falls into the
/// cumulative range `lo .. hi` exactly when the code value lies in the share
/// of the interval that belongs to that range.
pub proof fn lemma_scaled_value(interval: Interval, code: int, lo: int, hi: int, total: int)
    requires
        interval.valid(),
        interval.contains(code),
        0 <= lo <= hi <= total,
        0 < total,
    ensures
        0 <= scaled_value(interval, code, total) < total,
        (lo <= scaled_value(interval, code, total) < hi) <==> interval.narrow(
            lo,
            hi,
            total,
        ).contains(code),
{
    let r = interval.range();
    let d = code - interval.low;
    let v = scaled_value(interval, code, total);
    let x = (d + 1) * total - 1;
    assert(x >= 0 && x < total * r) by (nonlinear_arith)
        requires
            x == (d + 1) * total - 1,
            0 <= d < r,
            total > 0,
    ;
    lemma_div_at_least(x, r, 0);
    lemma_div_at_least(x, r, total);
    lemma_div_at_least(x, r, lo);
    lemma_div_at_least(x, r, hi);
    lemma_div_at_least(lo * r, total, d + 1);
    lemma_div_at_least(hi * r, total, d + 1);
}

/// Shifting out an agreed top bit keeps the interval valid and doubles its
/// range.
pub proof fn lemma_shift_agreeing(interval: Interval)
    requires
        interval.valid(),
        interval.agrees(),
    ensures
        interval.shift_agreeing().valid(),
        interval.shift_agreeing().range() == 2 * interval.range(),
{
}

/// Dropping the second bits of a straddling interval keeps it valid and
/// doubles its range.
pub proof fn lemma_shift_straddling(interval: Interval)
    requires
        interval.valid(),
        interval.straddles(),
    ensures
        interval.shift_straddling().valid(),
        interval.shift_straddling().range() == 2 * interval.range(),
{
}

/// Renormalization ends in a settled interval. The underflow count grows by
/// less than the interval does, so it stays within `FULL` of where it was.
pub proof fn lemma_renormalize(interval: Interval, underflow: nat)
    requires
        interval.valid(),
    ensures
        renormalize(interval, underflow).interval.settled(),
        renormalize(interval, underflow).underflow + interval.range() <= underflow + renormalize(
            interval,
            underflow,
        ).interval.range(),
    decreases FULL - interval.range(),
{
    if interval.agrees() {
        lemma_shift_agreeing(interval);
        lemma_renormalize(interval.shift_agreeing(), 0);
    } else if interval.straddles() {
        lemma_shift_straddling(interval);
        lemma_renormalize(interval.shift_straddling(), underflow + 1);
    }
}

proof fn lemma_renormalize_steps(interval: Interval, underflow: nat, room: nat)
    requires
        interval.valid(),
        room <= 32,
        interval.range() >= pow2((32 - room) as nat),
    ensures
        renormalize(interval, underflow).bits.len() + renormalize(interval, underflow).underflow
            <= underflow + room,
    decreases room,
{
    lemma2_to64();
    if interval.agrees() || interval.straddles() {
        assert(interval.range() <= HALF);
        assert(room > 0);
        lemma_pow2_unfold((32 - (room - 1)) as nat);
        if interval.agrees() {
            lemma_shift_agreeing(interval);
            lemma_renormalize_steps(interval.shift_agreeing(), 0, (room - 1) as nat);
            assert(settle_bits(interval.low >= HALF, underflow).len() == underflow + 1);
        } else {
            lemma_shift_straddling(interval);
            lemma_renormalize_steps(interval.shift_straddling(), underflow + 1, (room - 1) as nat);
        }
    }
}

/// Renormalization takes at most 31 steps, and each adds one bit to the
/// output or one to the underflow count: the bits emitted and the underflows
/// pending at the end are at most 31 more than the underflows pending at the
/// start.
pub proof fn lemma_renormalize_length(interval: Interval, underflow: nat)
    requires
        interval.valid(),
    ensures
        renormalize(interval, underflow).bits.len() + renormalize(interval, underflow).underflow
            <= underflow + 31,
{
    lemma2_to64();
    lemma_renormalize_steps(interval, underflow, 31);
}

/// The decoder's renormalization shifts the interval exactly as the
/// encoder's does, and keeps the code value inside it.
pub proof fn lemma_follow(interval: Interval, code: int, stream: Seq<bool>, position: nat)
    requires
        interval.valid(),
        interval.contains(code),
    ensures
        follow(interval, code, stream, position).interval == renormalize(interval, 0).interval,
        follow(interval, code, stream, position).interval.settled(),
        follow(interval, code, stream, position).interval.contains(
            follow(interval, code, stream, position).code,
        ),
        position <= follow(interval, code, stream, position).position,
        position <= stream.len() ==> follow(interval, code, stream, position).position
            <= stream.len(),
    decreases FULL - interval.range(),
{
    let next = stream_bit(stream, position as int);
    if interval.agrees() {
        lemma_shift_agreeing(interval);
        lemma_follow(
            interval.shift_agreeing(),
            shift_in(code, next),
            stream,
            stream_advance(stream, position),
        );
    } else if interval.straddles() {
        lemma_shift_straddling(interval);
        lemma_renormalize_interval(interval.shift_straddling(), 1, 0);
        lemma_follow(
            interval.shift_straddling(),
            shift_in(code - QUARTER, next),
            stream,
            stream_advance(stream, position),
        );
    }
}

/// The interval in which renormalization ends does not depend on the
/// underflow count it starts from.
pub proof fn lemma_renormalize_interval(interval: Interval, underflow: nat, other: nat)
    ensures
        renormalize(interval, underflow).interval == renormalize(interval, other).interval,
    decreases FULL - interval.range(),
{
    if !interval.valid() {
    } else if interval.agrees() {
    } else if interval.straddles() {
        lemma_shift_straddling(interval);
        lemma_renormalize_interval(interval.shift_straddling(), underflow + 1, other + 1);
    }
}

} // verus!
