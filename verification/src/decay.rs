//! Square roots and exponential decay in fixed point.

use vstd::arithmetic::div_mod::{
    lemma_div_is_ordered, lemma_div_is_ordered_by_denominator, lemma_div_multiples_vanish,
};
use vstd::prelude::*;

use crate::fixed::ONE;

verus! {

/// The number 1 of the steps of an exponential.
pub const UNIT: u128 = 0x1000_0000_0000_0000;

/// 32 in parts of `ONE`. An exponent is divided by 32, which brings it below 1,
/// and the result squared five times. From this exponent on the decay is less
/// than one part of `ONE`.
pub const MAX_EXPONENT: u128 = 0x20_0000_0000;

/// The last term of the power series. For an exponent below 1 the terms after it
/// are less than one part in 2^48.
pub const LAST_TERM: u128 = 16;

/// Whether `r` is the square root of `n`, rounded down.
pub open spec fn is_root(n: nat, r: nat) -> bool {
    r * r <= n < (r + 1) * (r + 1)
}

/// The square root of `n`, rounded down.
pub open spec fn root(n: nat) -> nat {
    choose|r: nat| is_root(n, r)
}

/// The distance whose square is `square`, in parts of `ONE`.
pub open spec fn distance(square: nat) -> nat {
    4 * root(square * 0x1000_0000_0000_0000)
}

/// Term `k` of the power series of e^(x/32), x in parts of `ONE`: (x/32)^k / k!
/// in parts of `UNIT`.
pub open spec fn term(x: nat, k: nat) -> nat
    decreases k,
{
    if k == 0 {
        UNIT as nat
    } else {
        term(x, (k - 1) as nat) * x / (k * MAX_EXPONENT as nat)
    }
}

/// The sum of the terms up to term `k`.
pub open spec fn series(x: nat, k: nat) -> nat
    decreases k,
{
    if k == 0 {
        term(x, 0)
    } else {
        series(x, (k - 1) as nat) + term(x, k)
    }
}

/// A fraction in parts of `UNIT`, squared so many times.
pub open spec fn squared(fraction: nat, times: nat) -> nat
    decreases times,
{
    if times == 0 {
        fraction
    } else {
        let root = squared(fraction, (times - 1) as nat);
        root * root / UNIT as nat
    }
}

/// e^-x, x and the result in parts of `ONE`: the inverse of the power series of
/// e^(x/32), squared five times.
pub open spec fn decay(x: nat) -> nat {
    if x >= MAX_EXPONENT {
        0
    } else {
        let small = UNIT as nat * UNIT as nat / series(x, LAST_TERM as nat);
        squared(small, 5) * ONE as nat / UNIT as nat
    }
}

/// Two roots of the same number, or of two in order, are in order.
pub proof fn lemma_root_order(m: nat, n: nat, r: nat, s: nat)
    requires
        m <= n,
        is_root(m, r),
        is_root(n, s),
    ensures
        r <= s,
{
    assert(r <= s) by (nonlinear_arith)
        requires
            r * r <= m <= n < (s + 1) * (s + 1),
            0 <= r,
            0 <= s,
    ;
}

proof fn lemma_root_zero()
    ensures
        is_root(0, 0),
{
    let zero: nat = 0;
    assert(zero * zero <= zero < (zero + 1) * (zero + 1)) by (nonlinear_arith)
        requires
            zero == 0,
    ;
}

/// Every number has a root.
pub proof fn lemma_root_exists(n: nat)
    ensures
        is_root(n, root(n)),
    decreases n,
{
    if n == 0 {
        lemma_root_zero();
    } else {
        lemma_root_exists((n - 1) as nat);
        let r = root((n - 1) as nat);
        if n >= (r + 1) * (r + 1) {
            assert(n == (r + 1) * (r + 1));
            assert((r + 1) * (r + 1) < (r + 2) * (r + 2)) by (nonlinear_arith);
            assert(is_root(n, (r + 1) as nat));
        } else {
            assert(is_root(n, r));
        }
    }
}

/// What meets the definition is the root.
pub proof fn lemma_root(n: nat, r: nat)
    requires
        is_root(n, r),
    ensures
        root(n) == r,
{
    lemma_root_order(n, n, r, root(n));
    lemma_root_order(n, n, root(n), r);
}

/// A distance grows with its square, and starts at 0.
pub proof fn lemma_distance(near: nat, far: nat)
    requires
        near <= far,
    ensures
        distance(near) <= distance(far),
        distance(0) == 0,
{
    let m = near * 0x1000_0000_0000_0000;
    let n = far * 0x1000_0000_0000_0000;
    lemma_root_exists(m);
    lemma_root_exists(n);
    lemma_root_order(m, n, root(m), root(n));
    lemma_root_zero();
    lemma_root(0, 0);
}

/// The square root of a number, rounded down.
pub fn square_root(n: u128) -> (r: u128)
    ensures
        r == root(n as nat),
        r <= u64::MAX,
        r * r <= n,
{
    let mut low: u128 = 0;
    let mut high: u128 = 0x1_0000_0000_0000_0000;
    assert(high * high == 0x1_0000_0000_0000_0000_0000_0000_0000_0000int) by (nonlinear_arith)
        requires
            high == 0x1_0000_0000_0000_0000,
    ;
    while high - low > 1
        invariant
            low < high <= 0x1_0000_0000_0000_0000,
            low * low <= n < high * high,
        decreases high - low,
    {
        let mid: u128 = low + (high - low) / 2;
        assert(mid * mid <= 0xffff_ffff_ffff_ffff * 0xffff_ffff_ffff_ffff) by (nonlinear_arith)
            requires
                0 <= mid <= 0xffff_ffff_ffff_ffff,
        ;
        if mid * mid <= n {
            low = mid;
        } else {
            high = mid;
        }
    }
    proof {
        assert(high == low + 1);
        lemma_root(n as nat, low as nat);
    }
    low
}

/// The distance whose square is `square`, in parts of `ONE`.
pub fn distance_of(square: u128) -> (dist: u128)
    requires
        square <= 0x4_0000_0000_0000_0000,
    ensures
        dist == distance(square as nat),
        dist <= 0x4_0000_0000_0000_0000,
{
    let r: u128 = square_root(square * 0x1000_0000_0000_0000);
    4 * r
}

proof fn lemma_term_bound(x: nat, k: nat)
    requires
        x < MAX_EXPONENT,
    ensures
        term(x, k) <= UNIT,
    decreases k,
{
    if k > 0 {
        lemma_term_bound(x, (k - 1) as nat);
        lemma_term_next(term(x, (k - 1) as nat), x, k);
    }
}

proof fn lemma_term_next(last: nat, x: nat, k: nat)
    requires
        x < MAX_EXPONENT,
        k > 0,
    ensures
        last * x / (k * MAX_EXPONENT as nat) <= last,
{
    let whole = k * MAX_EXPONENT as nat;
    assert(last * x <= last * whole) by (nonlinear_arith)
        requires
            0 <= x <= whole,
            0 <= last,
    ;
    assert(x <= whole) by (nonlinear_arith)
        requires
            x < MAX_EXPONENT,
            whole == k * MAX_EXPONENT as nat,
            k >= 1,
    ;
    lemma_div_is_ordered(last * x as int, last * whole as int, whole as int);
    lemma_div_multiples_vanish(last as int, whole as int);
    assert(last * whole == whole * last) by (nonlinear_arith);
}

proof fn lemma_series_bound(x: nat, k: nat)
    requires
        x < MAX_EXPONENT,
    ensures
        UNIT <= series(x, k) <= (k + 1) * UNIT,
    decreases k,
{
    lemma_term_bound(x, k);
    if k > 0 {
        lemma_series_bound(x, (k - 1) as nat);
        assert((k + 1) * UNIT == k * UNIT + UNIT) by (nonlinear_arith);
    }
}

proof fn lemma_squared_bound(fraction: nat, times: nat)
    requires
        fraction <= UNIT,
    ensures
        squared(fraction, times) <= UNIT,
    decreases times,
{
    if times > 0 {
        lemma_squared_bound(fraction, (times - 1) as nat);
        let r = squared(fraction, (times - 1) as nat);
        let unit = UNIT as nat;
        assert(r * r <= unit * unit) by (nonlinear_arith)
            requires
                0 <= r <= unit,
        ;
        lemma_div_is_ordered(r * r as int, unit * unit as int, unit as int);
        lemma_div_multiples_vanish(unit as int, unit as int);
    }
}

/// The inverse of the series is a fraction.
proof fn lemma_small(x: nat)
    requires
        x < MAX_EXPONENT,
    ensures
        0 <= UNIT as nat * UNIT as nat / series(x, LAST_TERM as nat) <= UNIT,
{
    let unit = UNIT as nat;
    let sum = series(x, LAST_TERM as nat);
    lemma_series_bound(x, LAST_TERM as nat);
    lemma_div_is_ordered_by_denominator(unit * unit as int, unit as int, sum as int);
    lemma_div_multiples_vanish(unit as int, unit as int);
    vstd::arithmetic::div_mod::lemma_div_pos_is_pos(unit * unit as int, sum as int);
}

/// A decay is at most 1.
pub proof fn lemma_decay_bound(x: nat)
    ensures
        decay(x) <= ONE,
{
    if x < MAX_EXPONENT {
        lemma_small(x);
        let small = UNIT as nat * UNIT as nat / series(x, LAST_TERM as nat);
        lemma_squared_bound(small, 5);
    }
}

proof fn lemma_term_order(x: nat, y: nat, k: nat)
    requires
        x <= y,
    ensures
        term(x, k) <= term(y, k),
    decreases k,
{
    if k > 0 {
        lemma_term_order(x, y, (k - 1) as nat);
        let a = term(x, (k - 1) as nat);
        let b = term(y, (k - 1) as nat);
        assert(a * x <= b * y) by (nonlinear_arith)
            requires
                0 <= a <= b,
                0 <= x <= y,
        ;
        assert(k * MAX_EXPONENT > 0) by (nonlinear_arith)
            requires
                k > 0,
                MAX_EXPONENT > 0,
        ;
        lemma_div_is_ordered(a * x as int, b * y as int, k * MAX_EXPONENT as int);
    }
}

proof fn lemma_series_order(x: nat, y: nat, k: nat)
    requires
        x <= y,
    ensures
        series(x, k) <= series(y, k),
    decreases k,
{
    lemma_term_order(x, y, k);
    if k > 0 {
        lemma_series_order(x, y, (k - 1) as nat);
    }
}

proof fn lemma_squared_order(a: nat, b: nat, times: nat)
    requires
        a <= b,
    ensures
        squared(a, times) <= squared(b, times),
    decreases times,
{
    if times > 0 {
        lemma_squared_order(a, b, (times - 1) as nat);
        let r = squared(a, (times - 1) as nat);
        let s = squared(b, (times - 1) as nat);
        assert(r * r <= s * s) by (nonlinear_arith)
            requires
                0 <= r <= s,
        ;
        lemma_div_is_ordered(r * r as int, s * s as int, UNIT as int);
    }
}

/// A decay never grows with the exponent.
pub proof fn lemma_decay_order(x: nat, y: nat)
    requires
        x <= y,
    ensures
        decay(y) <= decay(x),
{
    if y < MAX_EXPONENT {
        let unit = UNIT as nat;
        let a = series(x, LAST_TERM as nat);
        let b = series(y, LAST_TERM as nat);
        lemma_series_bound(x, LAST_TERM as nat);
        lemma_series_order(x, y, LAST_TERM as nat);
        lemma_div_is_ordered_by_denominator(unit * unit as int, a as int, b as int);
        lemma_squared_order(unit * unit / b, unit * unit / a, 5);
        let p = squared(unit * unit / b, 5) * ONE as nat;
        let q = squared(unit * unit / a, 5) * ONE as nat;
        lemma_div_is_ordered(p as int, q as int, unit as int);
    }
}

proof fn lemma_series_zero(k: nat)
    ensures
        k > 0 ==> term(0, k) == 0,
        series(0, k) == UNIT,
    decreases k,
{
    if k > 0 {
        lemma_series_zero((k - 1) as nat);
        let last = term(0, (k - 1) as nat);
        assert(last * 0 == 0);
        let whole = k * MAX_EXPONENT as nat;
        assert(whole > 0) by (nonlinear_arith)
            requires
                whole == k * MAX_EXPONENT as nat,
                k > 0,
        ;
        assert(0int / whole as int == 0) by (nonlinear_arith)
            requires
                whole > 0,
        ;
    }
}

proof fn lemma_squared_unit(times: nat)
    ensures
        squared(UNIT as nat, times) == UNIT,
    decreases times,
{
    if times > 0 {
        lemma_squared_unit((times - 1) as nat);
        lemma_div_multiples_vanish(UNIT as int, UNIT as int);
    }
}

/// e^0 is 1.
pub proof fn lemma_decay_zero()
    ensures
        decay(0) == ONE,
{
    lemma_series_zero(LAST_TERM as nat);
    lemma_div_multiples_vanish(UNIT as int, UNIT as int);
    lemma_squared_unit(5);
    lemma_div_multiples_vanish(ONE as int, UNIT as int);
}

/// e^-x, x and the result in parts of `ONE`.
pub fn decay_of(x: u128) -> (d: u64)
    ensures
        d == decay(x as nat),
        d <= ONE,
{
    if x >= MAX_EXPONENT {
        return 0;
    }
    let mut last: u128 = UNIT;
    let mut sum: u128 = UNIT;
    let mut k: u128 = 0;
    while k < LAST_TERM
        invariant
            x < MAX_EXPONENT,
            k <= LAST_TERM,
            last == term(x as nat, k as nat),
            last <= UNIT,
            sum == series(x as nat, k as nat),
            sum <= (k + 1) * UNIT,
        decreases LAST_TERM - k,
    {
        k = k + 1;
        proof {
            lemma_term_bound(x as nat, k as nat);
            lemma_series_bound(x as nat, k as nat);
            assert(last * x <= UNIT * MAX_EXPONENT) by (nonlinear_arith)
                requires
                    0 <= last <= UNIT,
                    0 <= x <= MAX_EXPONENT,
            ;
        }
        last = last * x / (k * MAX_EXPONENT);
        sum = sum + last;
    }
    proof {
        lemma_series_bound(x as nat, LAST_TERM as nat);
        lemma_small(x as nat);
    }
    let mut fraction: u128 = UNIT * UNIT / sum;
    let ghost small = fraction as nat;
    for i in 0..5u32
        invariant
            small <= UNIT,
            fraction == squared(small, i as nat),
            fraction <= UNIT,
    {
        proof {
            lemma_squared_bound(small, i as nat + 1);
            assert(fraction * fraction <= UNIT * UNIT) by (nonlinear_arith)
                requires
                    0 <= fraction <= UNIT,
            ;
        }
        fraction = fraction * fraction / UNIT;
    }
    proof {
        lemma_decay_bound(x as nat);
    }
    (fraction * (ONE as u128) / UNIT) as u64
}

/// e^-x is at most 1 / (1 + x).
pub proof fn law_decay_is_below_the_hyperbola(x: nat)
    ensures
        decay(x) * (ONE + x) <= ONE * ONE,
{
    if x < MAX_EXPONENT {
        let unit = UNIT as int;
        let t = x as int * 0x80_0000;
        let sum = series(x, LAST_TERM as nat) as int;
        lemma_second_term(x, LAST_TERM as nat);
        lemma_small(x);
        lemma_series_bound(x, LAST_TERM as nat);
        let p = unit * unit / sum;
        vstd::arithmetic::div_mod::lemma_fundamental_div_mod(unit * unit, sum);
        assert(p * (unit + t) <= unit * unit) by (nonlinear_arith)
            requires
                unit * unit == sum * p + (unit * unit) % sum,
                0 <= (unit * unit) % sum,
                0 <= p,
                unit + t <= sum,
        ;
        let p1 = squared(p as nat, 1) as int;
        let p2 = squared(p as nat, 2) as int;
        let p3 = squared(p as nat, 3) as int;
        let p4 = squared(p as nat, 4) as int;
        let p5 = squared(p as nat, 5) as int;
        assert(squared(p as nat, 0) == p);
        lemma_square_step(p, t);
        lemma_square_step(p1, 2 * t);
        lemma_square_step(p2, 4 * t);
        lemma_square_step(p3, 8 * t);
        lemma_square_step(p4, 16 * t);
        let one = ONE as int;
        let d = p5 * one / unit;
        vstd::arithmetic::div_mod::lemma_fundamental_div_mod(p5 * one, unit);
        assert(d * unit <= p5 * one) by (nonlinear_arith)
            requires
                p5 * one == unit * d + (p5 * one) % unit,
                0 <= (p5 * one) % unit,
        ;
        assert(32 * t == x * 0x1000_0000);
        assert(d * (one + x) <= one * one) by (nonlinear_arith)
            requires
                d * unit <= p5 * one,
                p5 * (unit + 32 * t) <= unit * unit,
                32 * t == x * 0x1000_0000,
                unit == 0x1000_0000 * one,
                one == 0x1_0000_0000,
                0 <= x,
                0 <= d,
                0 <= p5,
        {
            assert(unit + 32 * t == 0x1000_0000 * (one + x));
            assert(p5 * (0x1000_0000 * (one + x)) == 0x1000_0000 * (p5 * (one + x)));
            assert(p5 * (one + x) <= unit * one);
            assert((d * unit) * (one + x) <= (p5 * one) * (one + x));
            assert((p5 * one) * (one + x) == one * (p5 * (one + x)));
            assert(one * (p5 * (one + x)) <= one * (unit * one));
            assert(unit * (d * (one + x)) <= unit * (one * one));
        }
    } else {
        assert(0 * (ONE + x) == 0) by (nonlinear_arith);
    }
}

/// e^-x is at least 1 - x.
pub proof fn law_decay_is_above_the_line(x: nat)
    ensures
        decay(x) + x >= ONE,
{
    if x < ONE {
        let unit = UNIT as int;
        let t = x as int * 0x80_0000;
        let sum = series(x, LAST_TERM as nat) as int;
        lemma_late_terms(x, LAST_TERM as nat);
        lemma_small(x);
        lemma_series_bound(x, LAST_TERM as nat);
        let p = unit * unit / sum;
        vstd::arithmetic::div_mod::lemma_fundamental_div_mod(unit * unit, sum);
        assert(p >= unit - t) by (nonlinear_arith)
            requires
                unit * unit == sum * p + (unit * unit) % sum,
                (unit * unit) % sum < sum,
                sum > 0,
                unit * sum <= unit * unit + unit * t + t * t,
                0 <= t < unit,
        {
            if p < unit - t {
                assert(unit * unit < sum * (p + 1));
                assert(sum * (p + 1) <= sum * (unit - t));
                assert(unit * (sum * (unit - t)) == (unit * sum) * (unit - t));
                assert((unit * sum) * (unit - t) <= (unit * unit + unit * t + t * t) * (unit - t));
                assert((unit * unit + unit * t + t * t) * (unit - t) == unit * unit * unit - t * t
                    * t);
                assert(0 <= t * t * t);
                assert(unit * (unit * unit) < unit * (sum * (unit - t)));
            }
        }
        assert(squared(p as nat, 0) == p);
        let p1 = squared(p as nat, 1) as int;
        let p2 = squared(p as nat, 2) as int;
        let p3 = squared(p as nat, 3) as int;
        let p4 = squared(p as nat, 4) as int;
        let p5 = squared(p as nat, 5) as int;
        lemma_line_step(p, t);
        lemma_line_step(p1, 2 * t);
        lemma_line_step(p2, 4 * t);
        lemma_line_step(p3, 8 * t);
        lemma_line_step(p4, 16 * t);
        assert(p5 >= unit - 32 * t);
        lemma_div_is_ordered((ONE - x) * unit, p5 * ONE, unit);
        lemma_div_multiples_vanish(ONE - x, unit);
    }
}

/// The terms after the second add up to no more than its square.
proof fn lemma_late_terms(x: nat, k: nat)
    requires
        x < ONE,
        k >= 2,
    ensures
        ({
            let t = x as int * 0x80_0000;
            &&& UNIT * (series(x, k) + term(x, k)) <= UNIT * UNIT + UNIT * t + t * t
            &&& UNIT * series(x, k) <= UNIT * UNIT + UNIT * t + t * t
        }),
    decreases k,
{
    let unit = UNIT as int;
    let t = x as int * 0x80_0000;
    let last = term(x, (k - 1) as nat) as int;
    let now = term(x, k) as int;
    let whole = k * MAX_EXPONENT as int;
    assert(whole >= 2 * MAX_EXPONENT) by (nonlinear_arith)
        requires
            whole == k * MAX_EXPONENT as int,
            k >= 2,
    ;
    vstd::arithmetic::div_mod::lemma_fundamental_div_mod(last * x, whole);
    assert(now == last * x / whole);
    assert(2 * MAX_EXPONENT * now <= last * x) by (nonlinear_arith)
        requires
            last * x == whole * now + (last * x) % whole,
            0 <= (last * x) % whole,
            whole >= 2 * MAX_EXPONENT,
            now >= 0,
    ;
    if k == 2 {
        assert(0x1000_0000_0000_0000 * x == 0x20_0000_0000 * t);
        lemma_div_multiples_vanish(t, MAX_EXPONENT as int);
        assert(term(x, 0) == UNIT);
        assert(series(x, 0) == UNIT);
        assert(term(x, 1) == t);
        assert(last == t);
        assert(series(x, 1) == UNIT + t);
        assert(2 * unit * now <= t * t) by (nonlinear_arith)
            requires
                2 * 0x20_0000_0000 * now <= t * x,
                t == x * 0x80_0000,
                unit == 0x20_0000_0000 * 0x80_0000,
                0 <= x,
        {
            assert((2 * 0x20_0000_0000 * now) * 0x80_0000 <= (t * x) * 0x80_0000);
            assert((t * x) * 0x80_0000 == t * t);
        }
        let both = series(x, 2) + term(x, 2);
        assert(both == unit + t + 2 * now);
        assert(unit * both == unit * unit + unit * t + 2 * unit * now) by (nonlinear_arith)
            requires
                both == unit + t + 2 * now,
        ;
    } else {
        lemma_late_terms(x, (k - 1) as nat);
        assert(last * x <= last * MAX_EXPONENT) by (nonlinear_arith)
            requires
                0 <= last,
                x <= MAX_EXPONENT,
        ;
        assert(2 * now <= last) by (nonlinear_arith)
            requires
                2 * MAX_EXPONENT * now <= last * MAX_EXPONENT,
                MAX_EXPONENT > 0,
        ;
        let both = series(x, k) + term(x, k);
        let before = series(x, (k - 1) as nat) + term(x, (k - 1) as nat);
        assert(unit * both <= unit * before) by (nonlinear_arith)
            requires
                both <= before,
                unit > 0,
        ;
    }
    assert(unit * series(x, k) <= unit * (series(x, k) + term(x, k))) by (nonlinear_arith)
        requires
            0 <= term(x, k),
            unit > 0,
    ;
}

/// Squaring a fraction above 1 - t gives one above 1 - 2 t.
proof fn lemma_line_step(p: int, t: int)
    requires
        0 <= p,
        0 <= t,
        p >= UNIT - t,
        t <= UNIT,
    ensures
        0 <= p * p / UNIT as int,
        p * p / UNIT as int >= UNIT - 2 * t,
{
    let unit = UNIT as int;
    assert(p * p >= (unit - 2 * t) * unit) by (nonlinear_arith)
        requires
            p >= unit - t,
            0 <= unit - t,
            0 <= p,
    ;
    lemma_div_is_ordered((unit - 2 * t) * unit, p * p, unit);
    lemma_div_multiples_vanish(unit - 2 * t, unit);
    assert(0 <= p * p) by (nonlinear_arith);
    vstd::arithmetic::div_mod::lemma_div_pos_is_pos(p * p, unit);
}

proof fn lemma_second_term(x: nat, k: nat)
    requires
        k >= 1,
    ensures
        series(x, k) >= UNIT + x * 0x80_0000,
    decreases k,
{
    if k == 1 {
        assert(term(x, 0) == UNIT);
        let t = x as int * 0x80_0000;
        assert(0x1000_0000_0000_0000 * x == 0x20_0000_0000 * t);
        lemma_div_multiples_vanish(t, MAX_EXPONENT as int);
        assert(term(x, 1) == t);
        assert(series(x, 0) == UNIT);
    } else {
        lemma_second_term(x, (k - 1) as nat);
    }
}

/// Squaring a fraction below 1 / (1 + t) gives one below 1 / (1 + 2 t).
proof fn lemma_square_step(p: int, t: int)
    requires
        0 <= p,
        0 <= t,
        p * (UNIT + t) <= UNIT * UNIT,
    ensures
        0 <= p * p / UNIT as int,
        (p * p / UNIT as int) * (UNIT + 2 * t) <= UNIT * UNIT,
{
    let unit = UNIT as int;
    let q = p * p / unit;
    vstd::arithmetic::div_mod::lemma_fundamental_div_mod(p * p, unit);
    assert(0 <= p * p) by (nonlinear_arith);
    vstd::arithmetic::div_mod::lemma_div_pos_is_pos(p * p, unit);
    assert(q * unit <= p * p) by (nonlinear_arith)
        requires
            p * p == unit * q + (p * p) % unit,
            0 <= (p * p) % unit,
    ;
    assert(q * (unit + 2 * t) <= unit * unit) by (nonlinear_arith)
        requires
            q * unit <= p * p,
            p * (unit + t) <= unit * unit,
            0 <= p,
            0 <= t,
            0 <= q,
            0 < unit,
    {
        let a = p * (unit + t);
        assert(a * a <= (unit * unit) * (unit * unit));
        assert(a * a == (p * p) * ((unit + t) * (unit + t)));
        assert((unit + t) * (unit + t) >= unit * (unit + 2 * t));
        assert((p * p) * (unit * (unit + 2 * t)) <= a * a);
        assert((q * unit) * (unit * (unit + 2 * t)) <= (p * p) * (unit * (unit + 2 * t)));
        assert((unit * unit) * (q * (unit + 2 * t)) <= (unit * unit) * (unit * unit));
    }
}

} // verus!
