//! Elapsed time, and the rates that follow from it.
use vstd::arithmetic::power2::*;
use vstd::prelude::*;

use crate::binary64;
use crate::binary64::Binary64;
use crate::rounding;

verus! {

/// A span of time: whole seconds, and nanoseconds below one second.
#[derive(Debug, Clone, Copy, PartialEq, Eq, Structural)]
pub struct Elapsed {
    pub secs: u64,
    pub nanos: u32,
}

impl Elapsed {
    /// The nanoseconds are less than a second.
    pub open spec fn valid(self) -> bool {
        self.nanos < 1_000_000_000
    }

    /// The span in seconds, in double precision: the whole seconds plus the rest as a fraction.
    pub open spec fn seconds(self) -> (nat, int) {
        binary64::sum(
            binary64::double(self.secs as nat, 1),
            binary64::quotient(
                binary64::double(self.nanos as nat, 1),
                binary64::double(1_000_000_000, 1),
            ),
        )
    }

    /// The span is longer than nothing.
    pub open spec fn positive(self) -> bool {
        self.secs > 0 || self.nanos > 0
    }

    /// The span in milliseconds, in double precision.
    pub open spec fn milliseconds(self) -> (nat, int) {
        binary64::product(self.seconds(), binary64::double(1000, 1))
    }

    /// Bits per second, in double precision, when `bytes` are transferred in the span.
    pub open spec fn bit_rate(self, bytes: u64) -> (nat, int) {
        binary64::quotient(
            binary64::product(binary64::double(bytes as nat, 1), binary64::double(8, 1)),
            self.seconds(),
        )
    }

    /// Kilobits per second: the integer part, or the largest `u64` where that is less.
    pub open spec fn kilobit_rate(self, bytes: u64) -> nat {
        let rate = binary64::quotient(self.bit_rate(bytes), binary64::double(1000, 1));
        let whole = binary64::num(rate) / binary64::den(rate);
        if whole <= u64::MAX {
            whole
        } else {
            u64::MAX as nat
        }
    }

    /// Megabits per second, in double precision; 0 for a span of nothing.
    pub open spec fn megabit_rate(self, bytes: u64) -> (nat, int) {
        if self.positive() {
            binary64::quotient(self.bit_rate(bytes), binary64::double(1_000_000, 1))
        } else {
            binary64::double(0, 1)
        }
    }

    /// Whole microseconds, as far as 64 bits hold them.
    pub open spec fn microseconds(self) -> nat {
        ((self.secs * 1_000_000 + self.nanos / 1000) % 0x1_0000_0000_0000_0000) as nat
    }

    proof fn lemma_seconds(self)
        requires
            self.valid(),
        ensures
            binary64::below(self.seconds(), 65),
            binary64::finite(self.seconds()),
            self.positive() ==> binary64::above(self.seconds(), -30),
            self.seconds().0 > 0 <==> self.positive(),
            binary64::finite(
                binary64::quotient(
                    binary64::double(self.nanos as nat, 1),
                    binary64::double(1_000_000_000, 1),
                ),
            ),
    {
        lemma2_to64();
        lemma2_to64_rest();
        let whole = binary64::double(self.secs as nat, 1);
        let nanos = binary64::double(self.nanos as nat, 1);
        let giga = binary64::double(1_000_000_000, 1);
        let part = binary64::quotient(nanos, giga);
        binary64::lemma_integer_bounds(self.secs as nat, 64);
        binary64::lemma_integer_bounds(self.nanos as nat, 30);
        binary64::lemma_integer_bounds(1_000_000_000, 29);
        binary64::lemma_integer_bounds(1_000_000_000, 30);
        binary64::lemma_quotient_bounds(nanos, 30, giga, 29);
        binary64::lemma_below_weaken(part, 1, 64);
        binary64::lemma_sum_bounds(whole, part, 64);
        if self.nanos > 0 {
            binary64::lemma_integer_bounds(self.nanos as nat, 0);
            binary64::lemma_quotient_lower(nanos, 0, giga, 30);
            binary64::lemma_sum_bounds(whole, part, -30);
        }
        if self.secs > 0 {
            binary64::lemma_integer_bounds(self.secs as nat, 0);
            binary64::lemma_above_weaken(whole, 0, -30);
            binary64::lemma_sum_bounds(whole, part, -30);
        }
        if self.positive() {
            binary64::lemma_above_nonzero(self.seconds(), -30);
        } else {
            lemma_zero_seconds();
        }
    }
}

/// No time is zero seconds.
proof fn lemma_zero_seconds()
    ensures
        (Elapsed { secs: 0, nanos: 0 }).seconds().0 == 0,
{
    let zero = binary64::double(0, 1);
    let giga = binary64::double(1_000_000_000, 1);
    lemma2_to64();
    rounding::lemma_nearest_form(53, -1074, 0, 1);
    binary64::lemma_integer_bounds(1_000_000_000, 29);
    binary64::lemma_den_positive(zero, giga);
    assert(binary64::num(zero) == 0) by (nonlinear_arith)
        requires
            binary64::num(zero) == 0 * rounding::up(zero.1),
    ;
    let n = binary64::exact_quotient(zero, giga);
    assert(n.0 == 0) by (nonlinear_arith)
        requires
            n.0 == 0 * binary64::den(giga),
    ;
    rounding::lemma_nearest_form(53, -1074, n.0, n.1);
    let part = binary64::quotient(zero, giga);
    assert(part == zero);
    binary64::lemma_den_positive(zero, part);
    let t = binary64::exact_sum(zero, part);
    assert(t.0 == 0) by (nonlinear_arith)
        requires
            t.0 == 0 * binary64::den(part) + 0 * binary64::den(zero),
    ;
    rounding::lemma_nearest_form(53, -1074, t.0, t.1);
}

impl Elapsed {
    /// The span in seconds.
    pub fn as_seconds(&self) -> (s: Binary64)
        requires
            self.valid(),
        ensures
            s@ == self.seconds(),
            s@.0 > 0 <==> self.positive(),
    {
        proof {
            self.lemma_seconds();
            lemma2_to64();
            binary64::lemma_integer_bounds(1_000_000_000, 29);
        }
        let part: Binary64 = Binary64::from_u64(self.nanos as u64).divided_by(
            Binary64::from_u64(1_000_000_000),
        );
        Binary64::from_u64(self.secs).plus(part)
    }

    /// The span in milliseconds.
    pub fn as_milliseconds(&self) -> (ms: Binary64)
        requires
            self.valid(),
        ensures
            ms@ == self.milliseconds(),
    {
        proof {
            self.lemma_seconds();
            lemma2_to64();
            binary64::lemma_integer_bounds(1000, 10);
            binary64::lemma_product_bounds(self.seconds(), 65, binary64::double(1000, 1), 10);
        }
        self.as_seconds().times(Binary64::from_u64(1000))
    }

    /// The span in whole microseconds.
    pub fn as_microseconds(&self) -> (us: u64)
        requires
            self.valid(),
        ensures
            us == self.microseconds(),
    {
        let total: u128 = self.secs as u128 * 1_000_000 + (self.nanos / 1000) as u128;
        (total % 0x1_0000_0000_0000_0000) as u64
    }

    proof fn lemma_bit_rate(self, bytes: u64)
        requires
            self.valid(),
            self.positive(),
        ensures
            ({
                let bits = binary64::product(
                    binary64::double(bytes as nat, 1),
                    binary64::double(8, 1),
                );
                binary64::finite(bits)
            }),
            binary64::below(self.bit_rate(bytes), 97),
            binary64::finite(self.bit_rate(bytes)),
    {
        lemma2_to64();
        lemma2_to64_rest();
        self.lemma_seconds();
        let size = binary64::double(bytes as nat, 1);
        let eight = binary64::double(8, 1);
        binary64::lemma_integer_bounds(bytes as nat, 64);
        binary64::lemma_integer_bounds(8, 3);
        binary64::lemma_product_bounds(size, 64, eight, 3);
        binary64::lemma_quotient_bounds(binary64::product(size, eight), 67, self.seconds(), -30);
    }

    /// Bits per second when `bytes` are transferred in the span.
    fn as_bit_rate(&self, bytes: u64) -> (rate: Binary64)
        requires
            self.valid(),
            self.positive(),
        ensures
            rate@ == self.bit_rate(bytes),
    {
        proof {
            self.lemma_bit_rate(bytes);
            self.lemma_seconds();
        }
        let bits: Binary64 = Binary64::from_u64(bytes).times(Binary64::from_u64(8));
        bits.divided_by(self.as_seconds())
    }

    /// Kilobits per second when `bytes` are transferred in the span; none for a span of nothing.
    pub fn as_kilobit_rate(&self, bytes: u64) -> (kbps: Option<u64>)
        requires
            self.valid(),
        ensures
            kbps is Some <==> self.positive(),
            kbps matches Some(v) ==> v == self.kilobit_rate(bytes),
    {
        if self.secs == 0 && self.nanos == 0 {
            return None;
        }
        proof {
            self.lemma_bit_rate(bytes);
            lemma2_to64();
            binary64::lemma_integer_bounds(1000, 9);
            binary64::lemma_quotient_bounds(
                self.bit_rate(bytes),
                97,
                binary64::double(1000, 1),
                9,
            );
        }
        Some(self.as_bit_rate(bytes).divided_by(Binary64::from_u64(1000)).to_u64())
    }

    /// Megabits per second when `bytes` are transferred in the span.
    pub fn as_megabit_rate(&self, bytes: u64) -> (mbps: Binary64)
        requires
            self.valid(),
        ensures
            mbps@ == self.megabit_rate(bytes),
    {
        if self.secs == 0 && self.nanos == 0 {
            return Binary64::from_u64(0);
        }
        proof {
            self.lemma_bit_rate(bytes);
            lemma2_to64();
            binary64::lemma_integer_bounds(1_000_000, 19);
            binary64::lemma_quotient_bounds(
                self.bit_rate(bytes),
                97,
                binary64::double(1_000_000, 1),
                19,
            );
        }
        self.as_bit_rate(bytes).divided_by(Binary64::from_u64(1_000_000))
    }
}

} // verus!
