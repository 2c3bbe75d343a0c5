//! The histogram behind the percentiles, as the `hdrhistogram` crate keeps it.
//!
//! A histogram of three significant digits counts values below 2048 one by one, values from 2048
//! up to 4095 in pairs, the next 4096 values in fours, and so on. All the values that are counted
//! together are represented by the highest of them, their [`level`].
use vstd::arithmetic::power2::*;
use vstd::multiset::Multiset;
use vstd::prelude::*;

use crate::binary64;
use crate::order;
use crate::rounding;

verus! {

/// A histogram of integers with a lowest discernible value of 1 and three significant digits.
#[verifier::external_body]
pub struct LevelHistogram {
    inner: hdrhistogram::Histogram<u64>,
}

/// The levels of the values that a histogram holds.
pub uninterp spec fn levels(h: LevelHistogram) -> Multiset<u64>;

/// The highest value that a histogram was made to track.
pub uninterp spec fn highest_trackable(h: LevelHistogram) -> u64;

/// How many values are counted together with `v`, itself included.
pub open spec fn width(v: nat) -> nat {
    pow2(
        if rounding::log2(v) > 10 {
            (rounding::log2(v) - 10) as nat
        } else {
            0
        },
    )
}

/// The highest of the values that are counted together with `v`.
pub open spec fn level(v: nat) -> nat {
    (v / width(v) * width(v) + width(v) - 1) as nat
}

/// The first value that a histogram cannot hold: the power of two, at least 2048, that exceeds
/// what the histogram was made to track.
pub open spec fn capacity(high: nat) -> nat {
    pow2(
        if rounding::log2(high) > 10 {
            rounding::log2(high) + 1
        } else {
            11
        },
    )
}

/// What a histogram holds once `v` has been recorded: a value beyond the capacity is dropped.
pub open spec fn with_recorded(held: Multiset<u64>, high: u64, v: u64) -> Multiset<u64> {
    if v < capacity(high as nat) {
        held.insert(level(v as nat) as u64)
    } else {
        held
    }
}

/// How many of the values held are at most `v`.
pub open spec fn count_at_most(held: Multiset<u64>, v: int) -> nat {
    held.filter(|x: u64| x <= v).len()
}

/// `v` is the `rank`-th smallest of the values held, counted from 1.
pub open spec fn is_at_rank(held: Multiset<u64>, rank: nat, v: u64) -> bool {
    &&& held.contains(v)
    &&& count_at_most(held, v as int) >= rank
    &&& count_at_most(held, v - 1) < rank
}

/// A percentile, given in tenths of a percent, as a share of one, in double precision.
pub open spec fn share(tenths: nat) -> (nat, int) {
    binary64::quotient(binary64::double(tenths, 10), binary64::double(100, 1))
}

/// The rank of a percentile, given in tenths of a percent, among `count` values: the least integer
/// that is no less than that share of the count, reckoned in double precision, and at least 1.
pub open spec fn rank(count: nat, tenths: nat) -> nat {
    let x = binary64::product(share(tenths), binary64::double(count, 1));
    let reached = ((binary64::num(x) + binary64::den(x) - 1) / (binary64::den(x) as int)) as nat;
    if reached == 0 {
        1
    } else if reached > u64::MAX {
        u64::MAX as nat
    } else {
        reached
    }
}

/// Makes an empty histogram.
///
/// `hdrhistogram::Histogram::new_with_bounds` refuses no `low` of 1, no three digits and no `high`
/// of at least 2; what it makes holds no values and tracks values up to `high`.
#[verifier::external_body]
pub(crate) fn new_histogram(low: u64, high: u64, digits: u8) -> (h: LevelHistogram)
    requires
        low == 1,
        digits == 3,
        2 <= high < 0x4000_0000_0000_0000,
    ensures
        levels(h) == Multiset::<u64>::empty(),
        highest_trackable(h) == high,
{
    LevelHistogram {
        inner: hdrhistogram::Histogram::new_with_bounds(low, high, digits).unwrap(),
    }
}

/// Records a value.
///
/// `hdrhistogram::Histogram::record` adds one to the count that the value shares with its
/// equivalents, where the histogram has such a count, and fails and changes nothing where the
/// value lies beyond them: a histogram that does not resize has counts for the values below
/// [`capacity`]. The counts are exact until their total reaches the largest `u64`.
#[verifier::external_body]
pub(crate) fn record(h: &mut LevelHistogram, value: u64) -> (held: bool)
    requires
        levels(*old(h)).len() < u64::MAX,
    ensures
        held == (value < capacity(highest_trackable(*old(h)) as nat)),
        levels(*final(h)) == with_recorded(levels(*old(h)), highest_trackable(*old(h)), value),
        highest_trackable(*final(h)) == highest_trackable(*old(h)),
{
    h.inner.record(value).is_ok()
}

/// The number of values held.
///
/// `hdrhistogram::Histogram::len` is the number of values recorded.
#[verifier::external_body]
pub(crate) fn held_count(h: &LevelHistogram) -> (n: u64)
    requires
        levels(*h).len() <= u64::MAX,
    ensures
        n == levels(*h).len(),
{
    h.inner.len()
}

/// The value at the percentile `whole.tenth`.
///
/// `hdrhistogram::Histogram::value_at_percentile` divides the percentile by 100, multiplies by the
/// number of values and rounds up, each in double precision, to a count of at least 1; it walks
/// the counts from the lowest value up until it has passed that many, and gives the highest of
/// the values that are counted there, or 0 if it never passes that many. The percentile reaches
/// it as the double nearest to the decimal, which is what parsing a decimal gives.
#[verifier::external_body]
pub(crate) fn value_at_percentile(h: &LevelHistogram, whole: u32, tenth: u32) -> (v: u64)
    requires
        tenth < 10,
        0 < 10 * whole + tenth <= 1000,
        levels(*h).len() <= u64::MAX,
    ensures
        ({
            let r = rank(levels(*h).len(), (10 * whole + tenth) as nat);
            if r <= levels(*h).len() {
                is_at_rank(levels(*h), r, v)
            } else {
                v == 0
            }
        }),
{
    h.inner.value_at_percentile(format!("{}.{}", whole, tenth).parse().unwrap())
}

/// The `rank`-th smallest of the values held, or 0 if there are fewer.
pub open spec fn at_rank(held: Multiset<u64>, rank: nat) -> u64 {
    if rank <= held.len() {
        choose|v: u64| is_at_rank(held, rank, v)
    } else {
        0
    }
}

/// The value at a percentile, given in tenths of a percent.
pub open spec fn percentile(held: Multiset<u64>, tenths: nat) -> u64 {
    at_rank(held, rank(held.len(), tenths))
}

proof fn lemma_count_at_most_monotone(held: Multiset<u64>, a: int, b: int)
    requires
        a <= b,
    ensures
        count_at_most(held, a) <= count_at_most(held, b),
{
    let low = held.filter(|x: u64| x <= a);
    let high = held.filter(|x: u64| x <= b);
    assert(low.subset_of(high));
    assert(high.sub(low).len() == high.len() - low.len());
}

/// There is one value at a rank.
pub proof fn lemma_rank_unique(held: Multiset<u64>, rank: nat, a: u64, b: u64)
    requires
        is_at_rank(held, rank, a),
        is_at_rank(held, rank, b),
    ensures
        a == b,
{
    if a < b {
        lemma_count_at_most_monotone(held, a as int, b - 1);
    } else if b < a {
        lemma_count_at_most_monotone(held, b as int, a - 1);
    }
}

proof fn lemma_count_bounds(held: Multiset<u64>)
    ensures
        count_at_most(held, -1) == 0,
        count_at_most(held, u64::MAX as int) == held.len(),
{
    assert(held.filter(|x: u64| x <= -1) =~= Multiset::empty());
    assert(held.filter(|x: u64| x <= u64::MAX as int) =~= held);
}

proof fn lemma_some_at_rank_below(held: Multiset<u64>, rank: nat, top: int) -> (v: u64)
    requires
        0 < rank <= count_at_most(held, top),
        -1 <= top <= u64::MAX,
    ensures
        is_at_rank(held, rank, v),
    decreases top + 1,
{
    lemma_count_bounds(held);
    if count_at_most(held, top - 1) >= rank {
        lemma_some_at_rank_below(held, rank, top - 1)
    } else {
        let v = top as u64;
        if !held.contains(v) {
            assert(held.filter(|x: u64| x <= top) =~= held.filter(|x: u64| x <= top - 1));
        }
        v
    }
}

/// There is a value at every rank up to the number of values.
pub proof fn lemma_rank_inhabited(held: Multiset<u64>, rank: nat)
    requires
        0 < rank <= held.len(),
    ensures
        is_at_rank(held, rank, at_rank(held, rank)),
{
    lemma_count_bounds(held);
    let v = lemma_some_at_rank_below(held, rank, u64::MAX as int);
    assert(is_at_rank(held, rank, v));
}

/// A higher rank has no lower value.
pub proof fn lemma_at_rank_monotone(held: Multiset<u64>, low: nat, high: nat)
    requires
        0 < low <= high <= held.len(),
    ensures
        at_rank(held, low) <= at_rank(held, high),
{
    lemma_rank_inhabited(held, low);
    lemma_rank_inhabited(held, high);
    let (a, b) = (at_rank(held, low), at_rank(held, high));
    if b < a {
        lemma_count_at_most_monotone(held, b as int, a - 1);
    }
}

proof fn lemma_hundred()
    ensures
        binary64::double(100, 1).0 > 0,
        binary64::num(binary64::double(100, 1)) == 100 * binary64::den(binary64::double(100, 1)),
{
    lemma2_to64();
    binary64::lemma_integer_bounds(100, 0);
    order::lemma_integer_exact(100, 0);
}

/// A higher percentile has no lower rank.
#[verifier::spinoff_prover]
pub proof fn lemma_rank_monotone(count: nat, low: nat, high: nat)
    requires
        low <= high,
    ensures
        rank(count, low) <= rank(count, high),
{
    lemma_hundred();
    order::lemma_double_monotone(low, 10, high, 10);
    order::lemma_quotient_monotone(
        binary64::double(low, 10),
        binary64::double(high, 10),
        binary64::double(100, 1),
    );
    order::lemma_product_monotone(share(low), share(high), binary64::double(count, 1));
    let x = binary64::product(share(low), binary64::double(count, 1));
    let y = binary64::product(share(high), binary64::double(count, 1));
    let (xn, xd) = (binary64::num(x), binary64::den(x));
    let (yn, yd) = (binary64::num(y), binary64::den(y));
    binary64::lemma_den_positive(x, y);
    binary64::lemma_den_positive(y, x);
    let k = ((yn + yd - 1) / (yd as int)) as nat;
    vstd::arithmetic::div_mod::lemma_div_pos_is_pos(yn + yd - 1, yd as int);
    vstd::arithmetic::div_mod::lemma_div_pos_is_pos(xn + xd - 1, xd as int);
    rounding::lemma_rounded_up(yn, yd, k);
    assert(xn <= k * xd) by {
        assert(yn * xd <= (k * yd) * xd) by (nonlinear_arith)
            requires
                yn <= k * yd,
        ;
        assert((k * yd) * xd == (k * xd) * yd) by (nonlinear_arith);
        vstd::arithmetic::mul::lemma_mul_inequality_converse(
            xn as int,
            (k * xd) as int,
            yd as int,
        );
    }
    rounding::lemma_rounded_up(xn, xd, k);
}

/// Below the hundredth percentile, the share of one is at most 1023/1024.
#[verifier::spinoff_prover]
proof fn lemma_share_bound(tenths: nat)
    requires
        tenths <= 999,
    ensures
        binary64::at_most(share(tenths), (1023, -10)),
{
    lemma2_to64();
    lemma2_to64_rest();
    lemma_hundred();
    let a = binary64::double(tenths, 10);
    let h = binary64::double(100, 1);
    let (an, ad) = (binary64::num(a), binary64::den(a));
    let (hn, hd) = (binary64::num(h), binary64::den(h));
    binary64::lemma_den_positive(a, h);
    binary64::lemma_den_positive(h, h);
    assert(rounding::up(-10) == 1 && rounding::down(-10) == 1024);
    order::lemma_nothing_between(53, -1074, tenths, 10, 102300, -10);
    assert(rounding::dyadic_le(a, (102300, -10)));
    assert(an * 1024 <= 102300 * ad) by (nonlinear_arith)
        requires
            an * 1024 <= 102300 * 1 * ad,
    ;
    let (n, d) = (an * hd, ad * hn);
    assert(n * 1024 <= 1023 * 1 * d) by (nonlinear_arith)
        requires
            an * 1024 <= 102300 * ad,
            n == an * hd,
            d == ad * hn,
            hn == 100 * hd,
    ;
    order::lemma_nothing_between(53, -1074, n, d, 1023, -10);
}

/// Below the hundredth percentile, the rank is that of a value held.
#[verifier::spinoff_prover]
pub proof fn lemma_rank_within(count: nat, tenths: nat)
    requires
        0 < count <= u64::MAX,
        tenths <= 999,
    ensures
        0 < rank(count, tenths) <= count,
{
    lemma2_to64();
    lemma2_to64_rest();
    lemma_share_bound(tenths);
    let p = share(tenths);
    let c = binary64::double(count, 1);
    let (pn, pd) = (binary64::num(p), binary64::den(p));
    let (cn, cd) = (binary64::num(c), binary64::den(c));
    let x = binary64::product(p, c);
    let (xn, xd) = (binary64::num(x), binary64::den(x));
    binary64::lemma_den_positive(p, c);
    binary64::lemma_den_positive(c, p);
    binary64::lemma_den_positive(x, x);
    let (n, d) = (pn * cn, pd * cd);
    assert(pn * 1024 <= 1023 * pd) by (nonlinear_arith)
        requires
            pn * 1024 <= 1023 * 1 * pd,
    ;
    if count < 0x20_0000_0000_0000 {
        order::lemma_integer_exact(count, 0);
        assert(n <= count * d) by (nonlinear_arith)
            requires
                n == pn * cn,
                d == pd * cd,
                cn == count * cd,
                pn * 1024 <= 1023 * pd,
        ;
        assert(n * 1 <= count * 1 * d) by (nonlinear_arith)
            requires
                n <= count * d,
        ;
        order::lemma_nothing_between(53, -1074, n, d, count, 0);
        assert(xn <= count * xd) by (nonlinear_arith)
            requires
                xn * 1 <= count * 1 * xd,
        ;
    } else {
        let y = count / 4096;
        let z = y + 1;
        assert(4096 * y <= count < 4096 * z);
        assert(count * 1 <= z * 4096 * 1) by (nonlinear_arith)
            requires
                count < 4096 * z,
        ;
        order::lemma_nothing_between(53, -1074, count, 1, z, 12);
        assert(cn <= z * 4096 * cd) by (nonlinear_arith)
            requires
                cn * 1 <= z * 4096 * cd,
        ;
        assert(n * 1 <= y * 4096 * d) by {
            assert(1024 * n == (pn * 1024) * cn) by (nonlinear_arith)
                requires
                    n == pn * cn,
            ;
            assert((pn * 1024) * cn <= (1023 * pd) * cn) by (nonlinear_arith)
                requires
                    pn * 1024 <= 1023 * pd,
            ;
            assert((1023 * pd) * cn <= (1023 * pd) * (z * 4096 * cd)) by (nonlinear_arith)
                requires
                    cn <= z * 4096 * cd,
            ;
            assert((1023 * pd) * (z * 4096 * cd) == (1023 * z) * (4096 * d)) by (nonlinear_arith)
                requires
                    d == pd * cd,
            ;
            assert((1023 * z) * (4096 * d) <= (1024 * y) * (4096 * d)) by (nonlinear_arith)
                requires
                    1023 * z <= 1024 * y,
            ;
            assert((1024 * y) * (4096 * d) == 1024 * (y * 4096 * d)) by (nonlinear_arith);
        }
        order::lemma_nothing_between(53, -1074, n, d, y, 12);
        assert(xn <= count * xd) by (nonlinear_arith)
            requires
                xn * 1 <= y * 4096 * xd,
                4096 * y <= count,
        ;
    }
    rounding::lemma_rounded_up(xn, xd, count);
    vstd::arithmetic::div_mod::lemma_div_pos_is_pos(xn + xd - 1, xd as int);
}

/// A higher percentile has no lower value.
pub proof fn lemma_percentile_monotone(held: Multiset<u64>, low: nat, high: nat)
    requires
        low <= high <= 999,
        held.len() <= u64::MAX,
    ensures
        percentile(held, low) <= percentile(held, high),
{
    if held.len() > 0 {
        lemma_rank_monotone(held.len(), low, high);
        lemma_rank_within(held.len(), low);
        lemma_rank_within(held.len(), high);
        lemma_at_rank_monotone(held, rank(held.len(), low), rank(held.len(), high));
    }
}

/// Below the hundredth percentile, what is at a percentile is one of the values held.
pub proof fn lemma_percentile_held(held: Multiset<u64>, tenths: nat)
    requires
        tenths <= 999,
        0 < held.len() <= u64::MAX,
    ensures
        held.contains(percentile(held, tenths)),
{
    lemma_rank_within(held.len(), tenths);
    lemma_rank_inhabited(held, rank(held.len(), tenths));
}

/// A value differs from its level by less than one part in 1024, and not at all below 2048.
pub proof fn lemma_level_precision(v: nat)
    ensures
        v <= level(v),
        v < 2048 ==> level(v) == v,
        v >= 2048 ==> 1024 * (level(v) - v) < v,
{
    lemma2_to64();
    let t = rounding::log2(v);
    if v == 0 {
        assert(level(0) == 0) by {
            assert(width(0) == 1);
            assert(0nat / 1 * 1 + 1 - 1 == 0);
        }
    } else {
        rounding::lemma_log2_bounds(v);
        let w = width(v);
        if v < 2048 {
            assert(t <= 10) by {
                if t > 11 {
                    lemma_pow2_strictly_increases(11, t);
                }
            }
            assert(w == 1);
        } else {
            assert(t >= 11) by {
                if t + 1 < 11 {
                    lemma_pow2_strictly_increases(t + 1, 11);
                }
            }
            lemma_pow2_adds(10, (t - 10) as nat);
            assert(1024 * w <= v);
        }
        lemma_pow2_pos(if t > 10 {
            (t - 10) as nat
        } else {
            0
        });
        vstd::arithmetic::div_mod::lemma_fundamental_div_mod(v as int, w as int);
        assert(v / w * w == w * (v / w)) by (nonlinear_arith);
    }
}

} // verus!
