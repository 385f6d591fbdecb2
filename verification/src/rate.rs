//! Pass rates as the published table prints them.
//!
//! A rate is the double nearest to `100 * pass / attempted`, printed with one
//! decimal. Both steps are stated here over integers: the nearest double is
//! found by scaling into the range of a 53-bit significand and rounding half
//! to even, and the printed tenths round that double's exact value half to
//! even again.

use vstd::prelude::*;

verus! {

/// The smallest 53-bit significand.
pub const SIGNIFICAND_LOW: u128 = 0x10_0000_0000_0000;

/// One past the largest 53-bit significand.
pub const SIGNIFICAND_HIGH: u128 = 0x20_0000_0000_0000;

/// Counts up to this bound convert to doubles, and times a hundred stay
/// exact, so the rate is one correctly rounded division.
pub const EXACT_COUNT_LIMIT: u64 = 90_071_992_547_409;

/// Two to the power `k`.
pub open spec fn two_to(k: nat) -> nat
    decreases k,
{
    if k == 0 {
        1
    } else {
        2 * two_to((k - 1) as nat)
    }
}

/// `n / d` rounded to the nearest integer, ties to the even one.
pub open spec fn round_half_even(n: nat, d: nat) -> nat {
    let q = n / d;
    let r = n % d;
    if 2 * r > d || (2 * r == d && q % 2 == 1) {
        q + 1
    } else {
        q
    }
}

/// Whether scaling `num / den` by `2^k` lands in the significand range.
pub open spec fn in_binade(num: nat, den: nat, k: nat) -> bool {
    SIGNIFICAND_LOW * den <= num * two_to(k) && num * two_to(k) < SIGNIFICAND_HIGH * den
}

/// The scale that brings `num / den` into the significand range.
pub open spec fn binade(num: nat, den: nat) -> nat {
    choose|k: nat| in_binade(num, den, k)
}

/// The double nearest to `num / den`, as a significand `m` and a scale `k`
/// with value `m / 2^k`.
pub open spec fn nearest_double(num: nat, den: nat) -> (nat, nat) {
    let k = binade(num, den);
    let m = round_half_even(num * two_to(k), den);
    if m == SIGNIFICAND_HIGH {
        (SIGNIFICAND_LOW as nat, (k - 1) as nat)
    } else {
        (m, k)
    }
}

/// The pass rate in tenths of a percent, as one decimal place prints it.
pub open spec fn rate_tenths_spec(pass: nat, attempted: nat) -> nat {
    if pass == 0 {
        0
    } else {
        let d = nearest_double(100 * pass, attempted);
        round_half_even(10 * d.0, two_to(d.1))
    }
}

/// Powers of two grow: a larger exponent gives at least twice as much.
pub proof fn lemma_two_to_grows(a: nat, b: nat)
    requires
        a < b,
    ensures
        2 * two_to(a) <= two_to(b),
        two_to(a) >= 1,
    decreases b,
{
    lemma_two_to_pos(a);
    if b > a + 1 {
        lemma_two_to_grows(a, (b - 1) as nat);
    }
}

/// Powers of two are positive.
pub proof fn lemma_two_to_pos(a: nat)
    ensures
        two_to(a) >= 1,
    decreases a,
{
    if a > 0 {
        lemma_two_to_pos((a - 1) as nat);
    }
}

/// Only one scale brings a quotient into the significand range.
pub proof fn lemma_binade_unique(num: nat, den: nat, k1: nat, k2: nat)
    requires
        in_binade(num, den, k1),
        in_binade(num, den, k2),
    ensures
        k1 == k2,
{
    if k1 < k2 {
        lemma_two_to_grows(k1, k2);
        let a = two_to(k1);
        let b = two_to(k2);
        assert(num * b >= num * (2 * a)) by (nonlinear_arith)
            requires
                b >= 2 * a,
        ;
        assert(num * (2 * a) == 2 * (num * a)) by (nonlinear_arith);
    } else if k2 < k1 {
        lemma_two_to_grows(k2, k1);
        let a = two_to(k2);
        let b = two_to(k1);
        assert(num * b >= num * (2 * a)) by (nonlinear_arith)
            requires
                b >= 2 * a,
        ;
        assert(num * (2 * a) == 2 * (num * a)) by (nonlinear_arith);
    }
}

/// Rounding half to even lands within half a unit of the quotient:
/// `n / d - 1/2 <= r <= n / d + 1/2`.
pub proof fn lemma_round_half_even_near(n: nat, d: nat)
    requires
        d > 0,
    ensures
        2 * round_half_even(n, d) * d <= 2 * n + d,
        2 * n <= 2 * round_half_even(n, d) * d + d,
{
    let q = n / d;
    let r = n % d;
    assert(q * d + r == n && r < d) by (nonlinear_arith)
        requires
            q == n / d,
            r == n % d,
            d > 0,
    ;
    let x = round_half_even(n, d);
    if 2 * r > d || (2 * r == d && q % 2 == 1) {
        assert(x == q + 1);
        assert(2 * x * d == 2 * (q * d) + 2 * d) by (nonlinear_arith)
            requires
                x == q + 1,
        ;
    } else {
        assert(x == q);
        assert(2 * x * d == 2 * (q * d)) by (nonlinear_arith)
            requires
                x == q,
        ;
    }
}

/// Rounding half to even never reverses the order of two quotients: if
/// `a / b < c / d` then `a / b` does not round above `c / d`.
pub proof fn lemma_round_half_even_monotone(a: nat, b: nat, c: nat, d: nat)
    requires
        b > 0,
        d > 0,
        a * d < c * b,
    ensures
        round_half_even(a, b) <= round_half_even(c, d),
{
    lemma_round_half_even_near(a, b);
    lemma_round_half_even_near(c, d);
    let x = round_half_even(a, b);
    let y = round_half_even(c, d);
    assert(x <= y) by (nonlinear_arith)
        requires
            2 * x * b <= 2 * a + b,
            2 * c <= 2 * y * d + d,
            a * d < c * b,
            b > 0,
            d > 0,
    ;
}

/// A quotient below `2^53` has a scale that brings it into the significand range.
proof fn lemma_binade_from(num: nat, den: nat, k: nat)
    requires
        0 < num,
        0 < den,
        num * two_to(k) < SIGNIFICAND_HIGH * den,
    ensures
        in_binade(num, den, binade(num, den)),
    decreases SIGNIFICAND_HIGH * den - num * two_to(k),
{
    if SIGNIFICAND_LOW * den <= num * two_to(k) {
        assert(in_binade(num, den, k));
    } else {
        lemma_two_to_pos(k);
        assert(two_to(k + 1) == 2 * two_to(k));
        assert(num * two_to(k + 1) == 2 * (num * two_to(k))) by (nonlinear_arith)
            requires
                two_to(k + 1) == 2 * two_to(k),
        ;
        assert(num * two_to(k) >= 1) by (nonlinear_arith)
            requires
                num >= 1,
                two_to(k) >= 1,
        ;
        assert(SIGNIFICAND_HIGH * den == 2 * (SIGNIFICAND_LOW * den));
        lemma_binade_from(num, den, k + 1);
    }
}

/// Every positive quotient below `2^53` has its scale.
pub proof fn lemma_binade_exists(num: nat, den: nat)
    requires
        0 < num,
        0 < den,
        num < SIGNIFICAND_HIGH * den,
    ensures
        in_binade(num, den, binade(num, den)),
{
    assert(two_to(0) == 1);
    lemma_binade_from(num, den, 0);
}

/// A smaller quotient needs at least as large a scale.
proof fn lemma_binade_monotone(n1: nat, d1: nat, k1: nat, n2: nat, d2: nat, k2: nat)
    requires
        0 < d1,
        0 < d2,
        in_binade(n1, d1, k1),
        in_binade(n2, d2, k2),
        n1 * d2 < n2 * d1,
    ensures
        k1 >= k2,
{
    if k1 < k2 {
        lemma_two_to_grows(k1, k2);
        let a = two_to(k1);
        let b = two_to(k2);
        assert(false) by (nonlinear_arith)
            requires
                b >= 2 * a,
                a >= 1,
                SIGNIFICAND_LOW * d1 <= n1 * a,
                n2 * b < SIGNIFICAND_HIGH * d2,
                SIGNIFICAND_HIGH == 2 * SIGNIFICAND_LOW,
                n1 * d2 < n2 * d1,
                0 < d1,
                0 < d2,
        ;
    }
}

/// The significand that rounding gives stays in its range, or reaches its
/// upper end exactly, and a quotient of at most a hundred has a positive scale
/// when it does.
proof fn lemma_rounded_significand(num: nat, den: nat)
    requires
        0 < num,
        0 < den,
        num <= 100 * den,
    ensures
        in_binade(num, den, binade(num, den)),
        SIGNIFICAND_LOW <= round_half_even(num * two_to(binade(num, den)), den) <= SIGNIFICAND_HIGH,
        round_half_even(num * two_to(binade(num, den)), den) == SIGNIFICAND_HIGH ==> binade(num, den) > 0,
{
    lemma_binade_exists(num, den);
    let k = binade(num, den);
    let n = num * two_to(k);
    let m = round_half_even(n, den);
    lemma_round_half_even_near(n, den);
    assert(SIGNIFICAND_LOW <= m <= SIGNIFICAND_HIGH) by (nonlinear_arith)
        requires
            2 * m * den <= 2 * n + den,
            2 * n <= 2 * m * den + den,
            SIGNIFICAND_LOW * den <= n,
            n < SIGNIFICAND_HIGH * den,
            den > 0,
    ;
    if k == 0 {
        assert(two_to(k) == 1);
        assert(n == num) by (nonlinear_arith)
            requires
                n == num * two_to(k),
                two_to(k) == 1,
        ;
        assert(m <= 100) by (nonlinear_arith)
            requires
                2 * m * den <= 2 * n + den,
                n <= 100 * den,
                den > 0,
        ;
    }
}

/// The nearest double never reverses the order of two quotients: of two
/// quotients in `(0, 100]`, the smaller has the larger scale, or the same scale
/// and a significand no larger. With values `m / 2^k` and significands in one
/// binade, this says the smaller quotient's double is no larger.
pub proof fn lemma_nearest_double_monotone(n1: nat, d1: nat, n2: nat, d2: nat)
    requires
        0 < n1,
        0 < d1,
        0 < n2,
        0 < d2,
        n1 <= 100 * d1,
        n2 <= 100 * d2,
        n1 * d2 < n2 * d1,
    ensures
        ({
            let x = nearest_double(n1, d1);
            let y = nearest_double(n2, d2);
            x.1 > y.1 || (x.1 == y.1 && x.0 <= y.0)
        }),
{
    lemma_rounded_significand(n1, d1);
    lemma_rounded_significand(n2, d2);
    let k1 = binade(n1, d1);
    let k2 = binade(n2, d2);
    lemma_binade_monotone(n1, d1, k1, n2, d2, k2);
    let m1 = round_half_even(n1 * two_to(k1), d1);
    let m2 = round_half_even(n2 * two_to(k2), d2);
    if k1 == k2 {
        let p = two_to(k1);
        lemma_two_to_pos(k1);
        assert((n1 * p) * d2 < (n2 * p) * d1) by (nonlinear_arith)
            requires
                n1 * d2 < n2 * d1,
                p >= 1,
        ;
        lemma_round_half_even_monotone(n1 * p, d1, n2 * p, d2);
    }
}

/// Rounding half to even depends on the quotient alone: equal fractions
/// round alike.
pub proof fn lemma_round_half_even_of_equal_fractions(a: nat, b: nat, c: nat, d: nat)
    requires
        b > 0,
        d > 0,
        a * d == c * b,
    ensures
        round_half_even(a, b) == round_half_even(c, d),
{
    let q1 = a / b;
    let r1 = a % b;
    let q2 = c / d;
    let r2 = c % d;
    assert(q1 * b + r1 == a && r1 < b) by (nonlinear_arith)
        requires
            q1 == a / b,
            r1 == a % b,
            b > 0,
    ;
    assert(q2 * d + r2 == c && r2 < d) by (nonlinear_arith)
        requires
            q2 == c / d,
            r2 == c % d,
            d > 0,
    ;
    assert(q1 == q2) by (nonlinear_arith)
        requires
            q1 * b + r1 == a,
            r1 < b,
            q2 * d + r2 == c,
            r2 < d,
            a * d == c * b,
            b > 0,
            d > 0,
    ;
    assert(r1 * d == r2 * b) by (nonlinear_arith)
        requires
            q1 * b + r1 == a,
            q2 * d + r2 == c,
            q1 == q2,
            a * d == c * b,
    ;
    assert((2 * r1 > b) == (2 * r2 > d)) by (nonlinear_arith)
        requires
            r1 * d == r2 * b,
            b > 0,
            d > 0,
    ;
    assert((2 * r1 == b) == (2 * r2 == d)) by (nonlinear_arith)
        requires
            r1 * d == r2 * b,
            b > 0,
            d > 0,
    ;
}

/// The nearest double depends on the quotient alone: equal fractions in
/// `(0, 100]` give the same double.
pub proof fn lemma_nearest_double_of_equal_fractions(n1: nat, d1: nat, n2: nat, d2: nat)
    requires
        0 < n1,
        0 < d1,
        0 < n2,
        0 < d2,
        n1 <= 100 * d1,
        n2 <= 100 * d2,
        n1 * d2 == n2 * d1,
    ensures
        nearest_double(n1, d1) == nearest_double(n2, d2),
{
    lemma_rounded_significand(n1, d1);
    lemma_rounded_significand(n2, d2);
    let k1 = binade(n1, d1);
    let k2 = binade(n2, d2);
    let p = two_to(k1);
    lemma_two_to_pos(k1);
    // The scale of one fraction brings the other into range too.
    assert(in_binade(n2, d2, k1)) by (nonlinear_arith)
        requires
            SIGNIFICAND_LOW * d1 <= n1 * p,
            n1 * p < SIGNIFICAND_HIGH * d1,
            n1 * d2 == n2 * d1,
            p == two_to(k1),
            d1 > 0,
            d2 > 0,
    ;
    lemma_binade_unique(n2, d2, k1, k2);
    assert((n1 * p) * d2 == (n2 * p) * d1) by (nonlinear_arith)
        requires
            n1 * d2 == n2 * d1,
    ;
    lemma_round_half_even_of_equal_fractions(n1 * p, d1, n2 * p, d2);
}

/// `n / d` rounded half to even.
pub fn round_half_even_exec(n: u128, d: u128) -> (r: u128)
    requires
        d > 0,
        n < 0x1_0000_0000_0000_0000_0000_0000_0000,
    ensures
        r == round_half_even(n as nat, d as nat),
{
    let q = n / d;
    let r = n % d;
    proof {
        assert(q * d + r == n) by (nonlinear_arith)
            requires
                q == n / d,
                r == n % d,
                d > 0,
        ;
        assert(q <= n) by (nonlinear_arith)
            requires
                q == n / d,
                d > 0,
        ;
    }
    if r > d - r || (r == d - r && q % 2 == 1) {
        q + 1
    } else {
        q
    }
}

/// The double nearest to `num / den`: its significand, its scale, and two
/// to the power of its scale.
pub fn nearest_double_exec(num: u64, den: u64) -> (r: (u64, u128, u128))
    requires
        0 < num,
        0 < den,
        num <= 100 * den,
        (den as u128) < SIGNIFICAND_HIGH,
    ensures
        (r.0 as nat, r.1 as nat) == nearest_double(num as nat, den as nat),
        r.2 == two_to(r.1 as nat),
        SIGNIFICAND_LOW <= r.0 < SIGNIFICAND_HIGH,
        r.2 <= 0x4000_0000_0000_0000_0000_0000_0000,
        r.0 <= 100 * r.2,
{
    let low: u128 = SIGNIFICAND_LOW * (den as u128);
    let mut scaled: u128 = num as u128;
    let mut k: u128 = 0;
    let mut p2: u128 = 1;
    proof {
        assert(SIGNIFICAND_HIGH * den == 2 * (SIGNIFICAND_LOW * den));
        assert(two_to(0) == 1);
        assert(num * two_to(0) == num);
    }
    while scaled < low
        invariant
            low == SIGNIFICAND_LOW * den,
            low < 0x2000_0000_0000_0000_0000_0000_0000,
            scaled == num * two_to(k as nat),
            p2 == two_to(k as nat),
            scaled < 2 * low,
            1 <= p2 <= scaled,
            k <= p2,
            num > 0,
        decreases 2 * low - scaled,
    {
        proof {
            assert(num * two_to((k + 1) as nat) == 2 * (num * two_to(k as nat))) by (nonlinear_arith)
                requires
                    two_to((k + 1) as nat) == 2 * two_to(k as nat),
            ;
        }
        scaled = scaled * 2;
        p2 = p2 * 2;
        k = k + 1;
    }
    proof {
        assert(in_binade(num as nat, den as nat, k as nat));
        let kk = binade(num as nat, den as nat);
        lemma_binade_unique(num as nat, den as nat, k as nat, kk);
    }
    let q = scaled / (den as u128);
    let rem = scaled % (den as u128);
    proof {
        assert(q * den + rem == scaled && rem < den) by (nonlinear_arith)
            requires
                q == (scaled as int) / (den as int),
                rem == (scaled as int) % (den as int),
                den > 0,
        ;
        assert(SIGNIFICAND_LOW <= q < SIGNIFICAND_HIGH) by (nonlinear_arith)
            requires
                q * den + rem == scaled,
                rem < den,
                SIGNIFICAND_LOW * den <= scaled,
                scaled < SIGNIFICAND_HIGH * den,
                den > 0,
        ;
    }
    let m0 = round_half_even_exec(scaled, den as u128);
    proof {
        assert(scaled <= 100 * den * p2) by (nonlinear_arith)
            requires
                scaled == num * p2,
                num <= 100 * den,
                p2 >= 1,
        ;
        assert(q <= 100 * p2) by (nonlinear_arith)
            requires
                q * den + rem == scaled,
                scaled <= 100 * den * p2,
                den > 0,
        ;
        if q == 100 * p2 {
            assert(rem == 0) by (nonlinear_arith)
                requires
                    q * den + rem == scaled,
                    scaled <= 100 * den * p2,
                    q == 100 * p2,
            ;
        }
        assert(m0 <= 100 * p2);
    }
    if m0 == SIGNIFICAND_HIGH {
        proof {
            // A scale of zero would put the quotient near 2^53, far above 100.
            if k == 0 {
                assert(scaled == num);
                assert(q <= 100) by (nonlinear_arith)
                    requires
                        q * den + rem == scaled,
                        scaled <= 100 * den,
                        den > 0,
                ;
            }
            assert(p2 == 2 * two_to((k - 1) as nat));
        }
        (SIGNIFICAND_LOW as u64, k - 1, p2 / 2)
    } else {
        (m0 as u64, k, p2)
    }
}

/// The pass rate in tenths of a percent.
pub fn rate_tenths_exec(pass: u64, attempted: u64) -> (t: u64)
    requires
        pass <= attempted,
        0 < attempted,
        attempted <= EXACT_COUNT_LIMIT,
    ensures
        t == rate_tenths_spec(pass as nat, attempted as nat),
        t <= 1000,
{
    if pass == 0 {
        return 0;
    }
    let d = nearest_double_exec(100 * pass, attempted);
    let m = d.0;
    let p2 = d.2;
    let t = round_half_even_exec(10 * (m as u128), p2);
    proof {
        let n = 10 * m;
        let q = (n as int) / (p2 as int);
        let r = (n as int) % (p2 as int);
        assert(q * p2 + r == n && 0 <= r) by (nonlinear_arith)
            requires
                q == (n as int) / (p2 as int),
                r == (n as int) % (p2 as int),
                p2 > 0,
        ;
        assert(q <= 1000) by (nonlinear_arith)
            requires
                q * p2 + r == n,
                0 <= r,
                n <= 1000 * p2,
                p2 > 0,
        ;
        if q == 1000 {
            assert(r == 0) by (nonlinear_arith)
                requires
                    q * p2 + r == n,
                    0 <= r,
                    n <= 1000 * p2,
                    q == 1000,
            ;
        }
    }
    t as u64
}

} // verus!
