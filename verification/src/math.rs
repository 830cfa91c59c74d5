//! Integer statistics: square roots, means, standard deviations and
//! standardisation of a sample.
use vstd::arithmetic::div_mod::{
    lemma_div_is_ordered, lemma_div_multiples_vanish, lemma_fundamental_div_mod,
    lemma_fundamental_div_mod_converse,
};
use vstd::prelude::*;

verus! {

/// One, in the fixed-point representation of standardised values.
pub const UNIT: i64 = 65536;

/// `r` is the largest integer whose square does not exceed `n`.
pub open spec fn is_sqrt_floor(r: int, n: int) -> bool {
    0 <= r && r * r <= n && n < (r + 1) * (r + 1)
}

/// The square root of `n`, rounded down.
pub open spec fn sqrt_floor(n: int) -> int {
    choose|r: int| is_sqrt_floor(r, n)
}

/// `r` is the smallest integer, not negative, whose square is at least `n`.
pub open spec fn is_sqrt_ceil(r: int, n: int) -> bool {
    0 <= r && n <= r * r && (r > 0 ==> (r - 1) * (r - 1) < n)
}

/// The square root of `n`, rounded up.
pub open spec fn sqrt_ceil(n: int) -> int {
    choose|r: int| is_sqrt_ceil(r, n)
}

/// The sum of the elements of `s`.
pub open spec fn total(s: Seq<i64>) -> int
    decreases s.len(),
{
    if s.len() == 0 {
        0
    } else {
        total(s.drop_last()) + s.last()
    }
}

/// The arithmetic mean of `s`, rounded down. Meaningful for a non-empty `s`.
pub open spec fn mean(s: Seq<i64>) -> int {
    total(s) / (s.len() as int)
}

/// The sum of the squared differences between `m` and each element of `s`.
pub open spec fn squared_deviations(s: Seq<i64>, m: int) -> int
    decreases s.len(),
{
    if s.len() == 0 {
        0
    } else {
        squared_deviations(s.drop_last(), m) + (m - s.last()) * (m - s.last())
    }
}

/// The population variance of `s` about its mean, rounded up.
pub open spec fn variance(s: Seq<i64>) -> int {
    (squared_deviations(s, mean(s)) + s.len() - 1) / (s.len() as int)
}

/// The population standard deviation of `s`, rounded up: zero only where
/// every element equals the mean.
pub open spec fn deviation(s: Seq<i64>) -> int {
    sqrt_ceil(variance(s))
}

/// `x` expressed in standard deviations from the mean, in units of `1 / UNIT`,
/// rounded down.
pub open spec fn standardized(x: int, m: int, sd: int) -> int {
    (x - m) * (UNIT as int) / sd
}

/// A square root rounded down is unique: whatever satisfies its definition is
/// the value that `sqrt_floor` names.
pub proof fn lemma_sqrt_floor_unique(n: int, r: int)
    requires
        is_sqrt_floor(r, n),
    ensures
        sqrt_floor(n) == r,
{
    let s: int = sqrt_floor(n);
    if s < r {
        assert((s + 1) * (s + 1) <= r * r) by (nonlinear_arith)
            requires
                0 <= s,
                s + 1 <= r,
        ;
    } else if r < s {
        assert((r + 1) * (r + 1) <= s * s) by (nonlinear_arith)
            requires
                0 <= r,
                r + 1 <= s,
        ;
    }
}

/// A square root rounded up is unique: whatever satisfies its definition is
/// the value that `sqrt_ceil` names.
pub proof fn lemma_sqrt_ceil_unique(n: int, r: int)
    requires
        is_sqrt_ceil(r, n),
    ensures
        sqrt_ceil(n) == r,
{
    let s: int = sqrt_ceil(n);
    if s < r {
        assert(s * s <= (r - 1) * (r - 1)) by (nonlinear_arith)
            requires
                0 <= s,
                s <= r - 1,
        ;
    } else if r < s {
        assert(r * r <= (s - 1) * (s - 1)) by (nonlinear_arith)
            requires
                0 <= r,
                r <= s - 1,
        ;
    }
}

/// The square root of `n`, rounded down.
pub fn isqrt(n: u128) -> (r: u64)
    ensures
        is_sqrt_floor(r as int, n as int),
        r == sqrt_floor(n as int),
{
    let mut lo: u128 = 0;
    let mut hi: u128 = 0x1_0000_0000_0000_0000;
    while hi - lo > 1
        invariant
            lo < hi <= 0x1_0000_0000_0000_0000,
            lo * lo <= n < hi * hi,
        decreases hi - lo,
    {
        let mid: u128 = lo + (hi - lo) / 2;
        assert(mid * mid <= u128::MAX) by (nonlinear_arith)
            requires
                mid < 0x1_0000_0000_0000_0000,
        ;
        if mid * mid <= n {
            lo = mid;
        } else {
            hi = mid;
        }
    }
    proof {
        lemma_sqrt_floor_unique(n as int, lo as int);
    }
    lo as u64
}

/// The square root of `n`, rounded up.
pub fn isqrt_up(n: u128) -> (r: u128)
    ensures
        is_sqrt_ceil(r as int, n as int),
        r == sqrt_ceil(n as int),
        r <= 0x1_0000_0000_0000_0000,
{
    let down: u128 = isqrt(n) as u128;
    assert(down * down <= n);
    let r: u128 = if down * down == n {
        down
    } else {
        down + 1
    };
    proof {
        if down * down == n {
            if down > 0 {
                assert((down - 1) * (down - 1) < down * down) by (nonlinear_arith)
                    requires
                        down >= 1,
                ;
            }
        }
        lemma_sqrt_ceil_unique(n as int, r as int);
    }
    r
}

/// The quotient of `a` by a positive `d`, rounded towards negative infinity.
pub fn div_floor(a: i128, d: u64) -> (q: i128)
    requires
        d > 0,
    ensures
        q == (a as int) / (d as int),
{
    let dd: u128 = d as u128;
    if a >= 0 {
        let n: u128 = a as u128;
        (n / dd) as i128
    } else {
        let n: u128 = (-(a + 1)) as u128 + 1;
        let q: u128 = n / dd;
        let r: u128 = n % dd;
        proof {
            lemma_fundamental_div_mod(n as int, d as int);
            assert((d as int) * (q as int) == (q as int) * (d as int)) by (nonlinear_arith);
            assert(-(q as int) * (d as int) == -((q as int) * (d as int))) by (nonlinear_arith);
            assert(q <= n) by (nonlinear_arith)
                requires
                    n == (q as int) * (d as int) + r,
                    d >= 1,
                    r >= 0,
                    q >= 0,
            ;
        }
        if r == 0 {
            proof {
                lemma_fundamental_div_mod_converse(a as int, d as int, -(q as int), 0);
            }
            -((q - 1) as i128) - 1
        } else {
            proof {
                assert((-(q as int) - 1) * (d as int) == -((q as int) * (d as int)) - (d as int))
                    by (nonlinear_arith);
                lemma_fundamental_div_mod_converse(
                    a as int,
                    d as int,
                    -(q as int) - 1,
                    (d as int) - (r as int),
                );
                assert(q < n) by (nonlinear_arith)
                    requires
                        n == (q as int) * (d as int) + r,
                        d >= 1,
                        r > 0,
                        q >= 0,
                ;
            }
            -(q as i128) - 1
        }
    }
}

/// A sum lies between its length times a lower and times an upper bound of
/// its elements.
pub proof fn lemma_total_within(s: Seq<i64>, lo: int, hi: int)
    requires
        forall|i: int| 0 <= i < s.len() ==> lo <= #[trigger] s[i] <= hi,
    ensures
        s.len() * lo <= total(s) <= s.len() * hi,
    decreases s.len(),
{
    if s.len() > 0 {
        lemma_total_within(s.drop_last(), lo, hi);
        assert((s.len() - 1) * lo + lo == s.len() * lo) by (nonlinear_arith);
        assert((s.len() - 1) * hi + hi == s.len() * hi) by (nonlinear_arith);
    }
}

/// The mean of a non-empty sample lies between any lower and any upper bound
/// of its elements.
pub proof fn lemma_mean_within(s: Seq<i64>, lo: int, hi: int)
    requires
        s.len() > 0,
        forall|i: int| 0 <= i < s.len() ==> lo <= #[trigger] s[i] <= hi,
    ensures
        lo <= mean(s) <= hi,
{
    let n: int = s.len() as int;
    lemma_total_within(s, lo, hi);
    lemma_div_is_ordered(n * lo, total(s), n);
    lemma_div_is_ordered(total(s), n * hi, n);
    lemma_div_multiples_vanish(lo, n);
    lemma_div_multiples_vanish(hi, n);
}

/// No squared deviation exceeds the sum of them all, and none is negative.
pub proof fn lemma_deviation_term(s: Seq<i64>, m: int, i: int)
    requires
        0 <= i < s.len(),
    ensures
        0 <= (m - s[i]) * (m - s[i]) <= squared_deviations(s, m),
    decreases s.len(),
{
    let last: int = m - s.last();
    assert(0 <= last * last) by (nonlinear_arith);
    lemma_squared_deviations_sign(s.drop_last(), m);
    if i < s.len() - 1 {
        lemma_deviation_term(s.drop_last(), m, i);
    }
}

proof fn lemma_squared_deviations_sign(s: Seq<i64>, m: int)
    ensures
        0 <= squared_deviations(s, m),
    decreases s.len(),
{
    if s.len() > 0 {
        lemma_squared_deviations_sign(s.drop_last(), m);
        let last: int = m - s.last();
        assert(0 <= last * last) by (nonlinear_arith);
    }
}

/// A sum of squared deviations is not negative, and at most its length times
/// a bound on its terms.
pub proof fn lemma_squared_deviations_bounds(s: Seq<i64>, m: int, limit: int)
    requires
        forall|i: int| 0 <= i < s.len() ==> (m - #[trigger] s[i]) * (m - s[i]) <= limit,
    ensures
        0 <= squared_deviations(s, m) <= s.len() * limit,
    decreases s.len(),
{
    if s.len() > 0 {
        let d: int = m - s.last();
        assert(0 <= d * d) by (nonlinear_arith);
        assert forall|i: int| 0 <= i < s.drop_last().len() implies (m - #[trigger] s.drop_last()[i])
            * (m - s.drop_last()[i]) <= limit by {
            assert(s.drop_last()[i] == s[i]);
        }
        lemma_squared_deviations_bounds(s.drop_last(), m, limit);
        assert((s.len() - 1) * limit + limit == s.len() * limit) by (nonlinear_arith);
    }
}

/// Every number that is not negative has a square root rounded up.
pub proof fn lemma_sqrt_ceil_exists(n: int)
    requires
        0 <= n,
    ensures
        is_sqrt_ceil(sqrt_ceil(n), n),
    decreases n,
{
    if n == 0 {
        assert(is_sqrt_ceil(0, 0));
    } else {
        lemma_sqrt_ceil_exists(n - 1);
        let r: int = sqrt_ceil(n - 1);
        if n <= r * r {
            assert(is_sqrt_ceil(r, n));
        } else {
            assert(n <= (r + 1) * (r + 1)) by (nonlinear_arith)
                requires
                    n - 1 <= r * r,
                    0 <= r,
            ;
            assert(is_sqrt_ceil(r + 1, n));
        }
    }
}

/// The variance of a non-empty sample, times the number of its elements, is
/// at least the sum of its squared deviations and exceeds it by less than
/// that number.
pub proof fn lemma_variance_bounds(s: Seq<i64>)
    requires
        s.len() > 0,
    ensures
        squared_deviations(s, mean(s)) <= variance(s) * s.len() < squared_deviations(s, mean(s))
            + s.len(),
        0 <= variance(s),
{
    let n: int = s.len() as int;
    let sq: int = squared_deviations(s, mean(s));
    let v: int = variance(s);
    lemma_squared_deviations_sign(s, mean(s));
    lemma_fundamental_div_mod(sq + n - 1, n);
    assert(sq <= v * n < sq + n && 0 <= v) by (nonlinear_arith)
        requires
            sq + n - 1 == n * v + (sq + n - 1) % n,
            0 <= (sq + n - 1) % n < n,
            0 <= sq,
            0 < n,
    ;
}

proof fn lemma_constant_total(s: Seq<i64>, c: i64)
    requires
        forall|i: int| 0 <= i < s.len() ==> s[i] == c,
    ensures
        total(s) == s.len() * c,
        squared_deviations(s, c as int) == 0,
    decreases s.len(),
{
    if s.len() > 0 {
        lemma_constant_total(s.drop_last(), c);
        assert((s.len() - 1) * c + c == s.len() * c) by (nonlinear_arith);
        let d: int = c - s.last();
        assert(d * d == 0) by (nonlinear_arith)
            requires
                d == 0,
        ;
    }
}

/// The deviation of a non-empty sample is zero exactly when all its elements
/// are equal; the mean is then that element.
pub proof fn lemma_deviation_zero_iff_constant(s: Seq<i64>)
    requires
        s.len() > 0,
    ensures
        0 <= deviation(s),
        deviation(s) == 0 <==> (forall|i: int| 0 <= i < s.len() ==> #[trigger] s[i] == s[0]),
        (forall|i: int| 0 <= i < s.len() ==> #[trigger] s[i] == s[0]) ==> mean(s) == s[0],
{
    let n: int = s.len() as int;
    let m: int = mean(s);
    let sq: int = squared_deviations(s, m);
    let v: int = variance(s);
    lemma_variance_bounds(s);
    lemma_squared_deviations_sign(s, m);
    lemma_sqrt_ceil_exists(v);
    assert(v * n == variance(s) * s.len());
    if forall|i: int| 0 <= i < s.len() ==> #[trigger] s[i] == s[0] {
        let c: int = s[0] as int;
        lemma_constant_total(s, s[0]);
        assert(total(s) == c * n) by (nonlinear_arith)
            requires
                total(s) == n * c,
        ;
        lemma_div_multiples_vanish(c, n);
        assert(v == 0) by (nonlinear_arith)
            requires
                0 <= v * n < n,
                0 <= v,
        ;
        lemma_sqrt_ceil_unique(0, 0);
    }
    if deviation(s) == 0 {
        assert(sq == 0) by (nonlinear_arith)
            requires
                v <= 0,
                0 <= sq <= v * n,
                0 < n,
        ;
        assert forall|i: int| 0 <= i < s.len() implies #[trigger] s[i] == s[0] by {
            lemma_deviation_term(s, m, i);
            lemma_deviation_term(s, m, 0);
            let d: int = m - s[i];
            let e: int = m - s[0];
            assert(d == 0) by (nonlinear_arith)
                requires
                    d * d <= 0,
            ;
            assert(e == 0) by (nonlinear_arith)
                requires
                    e * e <= 0,
            ;
        }
    }
}

/// In a sample that a vector can hold and whose deviation is not zero, every
/// standardised value is at most 2^48 in magnitude.
pub proof fn lemma_score_bounds(s: Seq<i64>, i: int)
    requires
        0 < s.len() <= 0xFFFF_FFFF_FFFF_FFFF,
        deviation(s) > 0,
        0 <= i < s.len(),
    ensures
        -0x1_0000_0000_0000 <= standardized(s[i] as int, mean(s), deviation(s))
            <= 0x1_0000_0000_0000,
{
    let n: int = s.len() as int;
    let m: int = mean(s);
    let sq: int = squared_deviations(s, m);
    let v: int = variance(s);
    let sd: int = deviation(s);
    let d: int = s[i] - m;
    lemma_variance_bounds(s);
    lemma_sqrt_ceil_exists(v);
    lemma_deviation_term(s, m, i);
    assert(v * n == variance(s) * s.len());
    assert(d * d == (m - s[i]) * (m - s[i])) by (nonlinear_arith)
        requires
            d == -(m - s[i]),
    ;
    assert(d * d < 0x1_0000_0000_0000_0000 * (sd * sd)) by (nonlinear_arith)
        requires
            d * d <= sq,
            sq <= v * n,
            v <= sd * sd,
            0 < n < 0x1_0000_0000_0000_0000,
            0 <= v,
            0 < sd,
    ;
    assert(-0x1_0000_0000 * sd < d < 0x1_0000_0000 * sd) by (nonlinear_arith)
        requires
            d * d < 0x1_0000_0000_0000_0000 * (sd * sd),
            0 < sd,
    ;
    let scaled: int = d * (UNIT as int);
    assert(-0x1_0000_0000_0000 * sd <= scaled <= 0x1_0000_0000_0000 * sd) by (nonlinear_arith)
        requires
            -0x1_0000_0000 * sd < d < 0x1_0000_0000 * sd,
            scaled == d * 65536,
    ;
    lemma_div_is_ordered(-0x1_0000_0000_0000 * sd, scaled, sd);
    lemma_div_is_ordered(scaled, 0x1_0000_0000_0000 * sd, sd);
    lemma_div_multiples_vanish(-0x1_0000_0000_0000, sd);
    lemma_div_multiples_vanish(0x1_0000_0000_0000, sd);
    assert(sd * -0x1_0000_0000_0000 == -0x1_0000_0000_0000 * sd) by (nonlinear_arith);
    assert(sd * 0x1_0000_0000_0000 == 0x1_0000_0000_0000 * sd) by (nonlinear_arith);
}

/// In a sample of fewer than 2^30 values whose deviation is not zero, every
/// standardised value is in the range of a 32-bit integer.
pub proof fn lemma_score_fits_32_bits(s: Seq<i64>, i: int)
    requires
        0 < s.len() < 0x4000_0000,
        deviation(s) > 0,
        0 <= i < s.len(),
    ensures
        i32::MIN <= standardized(s[i] as int, mean(s), deviation(s)) <= i32::MAX,
{
    let n: int = s.len() as int;
    let m: int = mean(s);
    let sq: int = squared_deviations(s, m);
    let v: int = variance(s);
    let sd: int = deviation(s);
    let d: int = s[i] - m;
    lemma_variance_bounds(s);
    lemma_sqrt_ceil_exists(v);
    lemma_deviation_term(s, m, i);
    assert(v * n == variance(s) * s.len());
    assert(d * d == (m - s[i]) * (m - s[i])) by (nonlinear_arith)
        requires
            d == -(m - s[i]),
    ;
    assert(d * d < 0x4000_0000 * (sd * sd)) by (nonlinear_arith)
        requires
            d * d <= sq,
            sq <= v * n,
            v <= sd * sd,
            0 < n < 0x4000_0000,
            0 <= v,
            0 < sd,
    ;
    assert(-0x8000 * sd < d < 0x8000 * sd) by (nonlinear_arith)
        requires
            d * d < 0x4000_0000 * (sd * sd),
            0 < sd,
    ;
    let scaled: int = d * (UNIT as int);
    assert(-0x8000_0000 * sd <= scaled <= 0x7FFF_FFFF * sd + (sd - 1)) by (nonlinear_arith)
        requires
            -0x8000 * sd < d < 0x8000 * sd,
            scaled == d * 65536,
            0 < sd,
    ;
    lemma_div_is_ordered(-0x8000_0000 * sd, scaled, sd);
    lemma_div_is_ordered(scaled, 0x7FFF_FFFF * sd + (sd - 1), sd);
    lemma_div_multiples_vanish(-0x8000_0000, sd);
    assert(sd * -0x8000_0000 == -0x8000_0000 * sd) by (nonlinear_arith);
    lemma_fundamental_div_mod_converse(0x7FFF_FFFF * sd + (sd - 1), sd, 0x7FFF_FFFF, sd - 1);
}

/// The sum of the elements of `xs`.
pub fn sum(xs: &[i64]) -> (r: i128)
    ensures
        r == total(xs@),
{
    let n: usize = xs.len();
    let mut acc: i128 = 0;
    let mut i: usize = 0;
    while i < n
        invariant
            i <= n,
            n == xs@.len(),
            acc == total(xs@.take(i as int)),
        decreases n - i,
    {
        proof {
            lemma_total_within(xs@.take(i as int), i64::MIN as int, i64::MAX as int);
            assert(xs@.take(i + 1).drop_last() =~= xs@.take(i as int));
        }
        acc = acc + xs[i] as i128;
        i = i + 1;
    }
    proof {
        assert(xs@.take(n as int) =~= xs@);
    }
    acc
}

/// The arithmetic mean of `xs`, rounded down; nothing for an empty sample.
pub fn average_f32(xs: &[i64]) -> (res: Option<i64>)
    ensures
        res is None <==> xs@.len() == 0,
        res matches Some(m) ==> m == mean(xs@),
{
    let n: usize = xs.len();
    if n == 0 {
        None
    } else {
        let s: i128 = sum(xs);
        proof {
            lemma_mean_within(xs@, i64::MIN as int, i64::MAX as int);
        }
        let q: i128 = div_floor(s, n as u64);
        Some(q as i64)
    }
}

/// The population standard deviation of `xs` about its rounded mean, rounded
/// up; nothing for an empty sample. It is zero only for a sample whose
/// elements are all equal.
pub fn std_dev_f32(xs: &[i64]) -> (res: Option<u64>)
    ensures
        res is None <==> xs@.len() == 0,
        res matches Some(sd) ==> sd == deviation(xs@),
{
    match average_f32(xs) {
        None => None,
        Some(m) => {
            let n: usize = xs.len();
            let divisor: u128 = n as u128;
            // The sum of squares so far is `quotient * n + rest`.
            let mut quotient: u128 = 0;
            let mut rest: u128 = 0;
            let mut i: usize = 0;
            while i < n
                invariant
                    i <= n,
                    0 < n,
                    n == xs@.len(),
                    divisor == n,
                    rest < divisor,
                    squared_deviations(xs@.take(i as int), m as int) == quotient * divisor + rest,
                    squared_deviations(xs@.take(i as int), m as int) <= i
                        * 0xFFFF_FFFF_FFFF_FFFE_0000_0000_0000_0001,
                decreases n - i,
            {
                proof {
                    assert(xs@.take(i + 1).drop_last() =~= xs@.take(i as int));
                }
                let d: i128 = m as i128 - xs[i] as i128;
                let a: u128 = if d < 0 {
                    (-d) as u128
                } else {
                    d as u128
                };
                assert(a * a <= 0xFFFF_FFFF_FFFF_FFFE_0000_0000_0000_0001 && a * a == d * d)
                    by (nonlinear_arith)
                    requires
                        a <= 0xFFFF_FFFF_FFFF_FFFF,
                        a == d || a == -d,
                ;
                let sq: u128 = a * a;
                let q: u128 = sq / divisor;
                let r: u128 = sq % divisor;
                proof {
                    lemma_fundamental_div_mod(sq as int, divisor as int);
                    assert((quotient + q + 1) * divisor <= divisor
                        * 0xFFFF_FFFF_FFFF_FFFE_0000_0000_0000_0001 ==> quotient + q + 1
                        <= 0xFFFF_FFFF_FFFF_FFFE_0000_0000_0000_0001) by (nonlinear_arith)
                        requires
                            divisor > 0,
                    ;
                    assert((quotient + q) * divisor <= divisor
                        * 0xFFFF_FFFF_FFFF_FFFE_0000_0000_0000_0001 ==> quotient + q
                        <= 0xFFFF_FFFF_FFFF_FFFE_0000_0000_0000_0001) by (nonlinear_arith)
                        requires
                            divisor > 0,
                    ;
                    assert((quotient + q) * divisor == quotient * divisor + divisor * q
                        && (quotient + q + 1) * divisor == quotient * divisor + divisor * q
                        + divisor) by (nonlinear_arith);
                    assert((i + 1) * 0xFFFF_FFFF_FFFF_FFFE_0000_0000_0000_0001 <= divisor
                        * 0xFFFF_FFFF_FFFF_FFFE_0000_0000_0000_0001) by (nonlinear_arith)
                        requires
                            i + 1 <= divisor,
                    ;
                }
                quotient = quotient + q;
                rest = rest + r;
                if rest >= divisor {
                    rest = rest - divisor;
                    quotient = quotient + 1;
                }
                i = i + 1;
            }
            proof {
                assert(xs@.take(n as int) =~= xs@);
                let sq: int = squared_deviations(xs@, m as int);
                if rest > 0 {
                    assert(sq + n - 1 == (quotient + 1) * divisor + (rest - 1)) by (nonlinear_arith)
                        requires
                            sq == quotient * divisor + rest,
                            divisor == n,
                    ;
                    lemma_fundamental_div_mod_converse(
                        sq + n - 1,
                        n as int,
                        quotient + 1,
                        rest - 1,
                    );
                    assert(quotient + 1 <= 0xFFFF_FFFF_FFFF_FFFE_0000_0000_0000_0001)
                        by (nonlinear_arith)
                        requires
                            quotient * divisor + rest <= n
                                * 0xFFFF_FFFF_FFFF_FFFE_0000_0000_0000_0001,
                            divisor == n,
                            n > 0,
                            rest > 0,
                    ;
                } else {
                    lemma_fundamental_div_mod_converse(
                        sq + n - 1,
                        n as int,
                        quotient as int,
                        n - 1,
                    );
                    assert(quotient <= 0xFFFF_FFFF_FFFF_FFFE_0000_0000_0000_0001)
                        by (nonlinear_arith)
                        requires
                            quotient * divisor <= n * 0xFFFF_FFFF_FFFF_FFFE_0000_0000_0000_0001,
                            divisor == n,
                            n > 0,
                    ;
                }
            }
            let v: u128 = if rest > 0 {
                quotient + 1
            } else {
                quotient
            };
            let sd: u128 = isqrt_up(v);
            proof {
                if sd > 0xFFFF_FFFF_FFFF_FFFF {
                    assert((sd - 1) * (sd - 1) >= 0xFFFF_FFFF_FFFF_FFFE_0000_0000_0000_0001)
                        by (nonlinear_arith)
                        requires
                            sd - 1 >= 0xFFFF_FFFF_FFFF_FFFF,
                    ;
                }
            }
            Some(sd as u64)
        },
    }
}

/// Replaces every element of `xs` by its distance from the mean in standard
/// deviations, in units of `1 / UNIT`. A sample that is empty or whose
/// elements are all equal cannot be standardised and is left as it was.
pub fn unit_scale(xs: &mut Vec<i64>) -> (res: Option<()>)
    ensures
        res is Some <==> old(xs)@.len() > 0 && deviation(old(xs)@) > 0,
        res is None <==> (forall|i: int|
            0 <= i < old(xs)@.len() ==> #[trigger] old(xs)@[i] == old(xs)@[0]),
        res is Some ==> final(xs)@.len() == old(xs)@.len() && forall|i: int|
            0 <= i < old(xs)@.len() ==> final(xs)@[i] == standardized(
                old(xs)@[i] as int,
                mean(old(xs)@),
                deviation(old(xs)@),
            ),
        res is None ==> final(xs)@ == old(xs)@,
{
    proof {
        if xs@.len() > 0 {
            lemma_deviation_zero_iff_constant(xs@);
        }
    }
    let avg: Option<i64> = average_f32(xs.as_slice());
    let dev: Option<u64> = std_dev_f32(xs.as_slice());
    match (avg, dev) {
        (Some(m), Some(sd)) => {
            if sd == 0 {
                return None;
            }
            let n: usize = xs.len();
            let mut out: Vec<i64> = Vec::with_capacity(n);
            let mut i: usize = 0;
            while i < n
                invariant
                    i <= n,
                    n == xs@.len(),
                    xs@ == old(xs)@,
                    sd > 0,
                    m == mean(xs@),
                    sd == deviation(xs@),
                    out@.len() == i,
                    forall|j: int|
                        0 <= j < i ==> out@[j] == #[trigger] standardized(
                            xs@[j] as int,
                            m as int,
                            sd as int,
                        ),
                decreases n - i,
            {
                let d: i128 = xs[i] as i128 - m as i128;
                let unit: i128 = UNIT as i128;
                assert(-0x1_0000_0000_0000_0000_0000 <= d * unit <= 0x1_0000_0000_0000_0000_0000)
                    by (nonlinear_arith)
                    requires
                        unit == 65536,
                        -0xFFFF_FFFF_FFFF_FFFF <= d <= 0xFFFF_FFFF_FFFF_FFFF,
                ;
                let z: i128 = div_floor(d * unit, sd);
                proof {
                    lemma_score_bounds(xs@, i as int);
                }
                out.push(z as i64);
                i = i + 1;
            }
            *xs = out;
            Some(())
        },
        _ => None,
    }
}

} // verus!
