//! Binary floating-point magnitudes as integers.
//!
//! A non-negative double-precision number is held as its bit pattern. Every
//! such number is a whole multiple of the smallest positive one, `2^-1074`, so
//! its value in that unit is a natural number, [`magnitude`]. The result of an
//! arithmetic operation is the exact quotient of two natural numbers, and
//! [`nearest`] gives the pattern of the number nearest to it, ties going to the
//! even significand.

use vstd::arithmetic::div_mod::{
    lemma_div_is_ordered, lemma_fundamental_div_mod, lemma_fundamental_div_mod_converse,
};
use vstd::arithmetic::power2::{
    lemma2_to64, lemma2_to64_rest, lemma_pow2_adds, lemma_pow2_pos, lemma_pow2_strictly_increases,
    lemma_pow2_unfold, pow2,
};
use vstd::prelude::*;

verus! {

/// The number of patterns that share one exponent, `2^52`.
pub const BINADE: u64 = 0x0010_0000_0000_0000;

/// The pattern of positive infinity; the finite patterns lie below it.
pub const INFINITE: u64 = 0x7ff0_0000_0000_0000;

/// The unit is `2^-UNIT_SCALE`.
pub const UNIT_SCALE: u32 = 1074;

/// The integer significand of a pattern.
pub open spec fn significand(bits: nat) -> nat {
    if bits < 2 * BINADE {
        bits
    } else {
        (BINADE + bits % (BINADE as nat)) as nat
    }
}

/// The power of two by which the significand of a pattern counts.
pub open spec fn scale(bits: nat) -> nat {
    if bits < 2 * BINADE {
        0
    } else {
        (bits / (BINADE as nat) - 1) as nat
    }
}

/// The value of a pattern, in units of `2^-1074`.
pub open spec fn magnitude(bits: nat) -> nat {
    significand(bits) * pow2(scale(bits))
}

/// The whole number nearest to `n / d`, the even one of two equally near.
pub open spec fn half_even(n: nat, d: nat) -> nat {
    let q = n / d;
    let r = n % d;
    if 2 * r > d || (2 * r == d && q % 2 == 1) {
        q + 1
    } else {
        q
    }
}

/// The pattern of the number nearest to `n / d` units, exponents unbounded: below
/// `2^53` every whole number has a pattern, and each doubling of the spacing moves
/// on by one binade.
pub open spec fn nearest(n: nat, d: nat) -> nat
    decreases n - d,
{
    if d == 0 || n < 0x0020_0000_0000_0000 * d {
        half_even(n, d)
    } else {
        BINADE as nat + nearest(n, 2 * d)
    }
}

/// The finite number nearest to `n / d` units, if it does not lie beyond the
/// largest one.
pub open spec fn rounded(n: nat, d: nat) -> Option<u64> {
    if d > 0 {
        in_range(nearest(n, d))
    } else {
        None
    }
}

/// A pattern, if it is that of a finite number.
pub open spec fn in_range(bits: nat) -> Option<u64> {
    if bits < INFINITE {
        Some(bits as u64)
    } else {
        None
    }
}

/// `num / den * 2^e` rounded to a pattern.
pub open spec fn rounded_scaled(num: nat, den: nat, e: int) -> Option<u64> {
    if e >= 0 {
        rounded(num * pow2(e as nat), den)
    } else {
        rounded(num, den * pow2((-e) as nat))
    }
}

/// The powers of two that the layout of a pattern rests on.
proof fn lemma_powers()
    ensures
        pow2(0) == 1,
        pow2(52) == 0x0010_0000_0000_0000,
        pow2(53) == 0x0020_0000_0000_0000,
        pow2(106) == 0x0400_0000_0000_0000_0000_0000_0000,
        pow2(120) == 0x0100_0000_0000_0000_0000_0000_0000_0000,
{
    lemma2_to64();
    lemma2_to64_rest();
    lemma_pow2_adds(53, 53);
    lemma_pow2_adds(60, 60);
}

/// Splits a quotient with remainder back into its two parts.
proof fn lemma_split(q: nat, r: nat, d: nat)
    requires
        r < d,
    ensures
        (q * d + r) / d == q,
        (q * d + r) % d == r,
{
    lemma_fundamental_div_mod_converse((q * d + r) as int, d as int, q as int, r as int);
}

/// Numerator and denominator may share a factor.
proof fn lemma_half_even_common(n: nat, d: nat, c: nat)
    requires
        d > 0,
        c > 0,
    ensures
        half_even(n * c, d * c) == half_even(n, d),
{
    let q = n / d;
    let r = n % d;
    lemma_fundamental_div_mod(n as int, d as int);
    assert(n * c == q * (d * c) + r * c) by (nonlinear_arith)
        requires
            n == d * q + r,
    ;
    assert(r * c < d * c) by (nonlinear_arith)
        requires
            r < d,
            c > 0,
    ;
    lemma_split(q, r * c, d * c);
    assert(2 * (r * c) > d * c <==> 2 * r > d) by (nonlinear_arith)
        requires
            c > 0,
    ;
    assert(2 * (r * c) == d * c <==> 2 * r == d) by (nonlinear_arith)
        requires
            c > 0,
    ;
}

/// Numerator and denominator may share a factor.
proof fn lemma_nearest_common(n: nat, d: nat, c: nat)
    requires
        d > 0,
        c > 0,
    ensures
        nearest(n * c, d * c) == nearest(n, d),
    decreases n - d,
{
    assert(d * c > 0) by (nonlinear_arith)
        requires
            d > 0,
            c > 0,
    ;
    assert(n * c < 0x0020_0000_0000_0000 * (d * c) <==> n < 0x0020_0000_0000_0000 * d) by (nonlinear_arith)
        requires
            c > 0,
    ;
    if n < 0x0020_0000_0000_0000 * d {
        lemma_half_even_common(n, d, c);
    } else {
        lemma_nearest_common(n, 2 * d, c);
        assert((2 * d) * c == 2 * (d * c)) by (nonlinear_arith);
    }
}

/// The nearest pattern when the spacing `2^k` of its binade is known.
proof fn lemma_nearest_at(n: nat, d: nat, k: nat)
    requires
        d > 0,
        n < 0x0020_0000_0000_0000 * (d * pow2(k)),
        k > 0 ==> n >= 0x0010_0000_0000_0000 * (d * pow2(k)),
    ensures
        nearest(n, d) == k * 0x0010_0000_0000_0000 + half_even(n, d * pow2(k)),
    decreases k,
{
    if k == 0 {
        assert(d * pow2(0) == d) by {
            lemma_powers();
        }
    } else {
        let j = (k - 1) as nat;
        lemma_pow2_unfold(k);
        lemma_pow2_pos(j);
        assert(d * pow2(k) == (2 * d) * pow2(j)) by (nonlinear_arith)
            requires
                pow2(k) == 2 * pow2(j),
        ;
        assert(0x0010_0000_0000_0000 * ((2 * d) * pow2(j)) >= 0x0020_0000_0000_0000 * d) by (nonlinear_arith)
            requires
                pow2(j) >= 1,
                d > 0,
        ;
        if j > 0 {
            assert(n >= 0x0010_0000_0000_0000 * ((2 * d) * pow2(j)));
        }
        lemma_nearest_at(n, 2 * d, j);
    }
}

/// Powers of two may be moved between numerator and denominator.
proof fn lemma_rounded_scaled(num: nat, den: nat, i: nat, j: nat)
    requires
        den > 0,
    ensures
        rounded(num * pow2(i), den * pow2(j)) == rounded_scaled(num, den, i - j),
{
    lemma_pow2_pos(i);
    lemma_pow2_pos(j);
    assert(den * pow2(j) > 0) by (nonlinear_arith)
        requires
            den > 0,
            pow2(j) > 0,
    ;
    if i >= j {
        let e = (i - j) as nat;
        lemma_pow2_adds(e, j);
        assert(num * pow2(i) == (num * pow2(e)) * pow2(j)) by (nonlinear_arith)
            requires
                pow2(i) == pow2(e) * pow2(j),
        ;
        lemma_nearest_common(num * pow2(e), den, pow2(j));
    } else {
        let e = (j - i) as nat;
        lemma_pow2_adds(e, i);
        lemma_pow2_pos(e);
        assert(den * pow2(e) > 0) by (nonlinear_arith)
            requires
                den > 0,
                pow2(e) > 0,
        ;
        assert(den * pow2(j) == (den * pow2(e)) * pow2(i)) by (nonlinear_arith)
            requires
                pow2(j) == pow2(e) * pow2(i),
        ;
        lemma_nearest_common(num, den * pow2(e), pow2(i));
    }
}

/// A whole number is nearest to itself.
proof fn lemma_half_even_whole(m: nat, d: nat)
    requires
        d > 0,
    ensures
        half_even(m * d, d) == m,
{
    lemma_split(m, 0, d);
}

/// Rounding `num / (den * 2^t)` from the quotient `num / den`: the low `t` bits of
/// the quotient decide, and what the quotient dropped breaks a tie.
proof fn lemma_half_even_low_bits(num: nat, den: nat, t: nat)
    requires
        den > 0,
        t > 0,
    ensures
        ({
            let q = num / den;
            let half = pow2((t - 1) as nat);
            let low = q % pow2(t);
            half_even(num, den * pow2(t)) == if low > half || (low == half && (num % den != 0 || (q
                / pow2(t)) % 2 == 1)) {
                q / pow2(t) + 1
            } else {
                q / pow2(t)
            }
        }),
{
    let q = num / den;
    let p = pow2(t);
    let half = pow2((t - 1) as nat);
    let high = q / p;
    let low = q % p;
    let rest = num % den;
    lemma_pow2_pos(t);
    lemma_pow2_unfold(t);
    lemma_fundamental_div_mod(num as int, den as int);
    lemma_fundamental_div_mod(q as int, p as int);
    let r = low * den + rest;
    assert(num == high * (den * p) + r) by (nonlinear_arith)
        requires
            num == den * q + rest,
            q == p * high + low,
            r == low * den + rest,
    ;
    assert(r < den * p) by (nonlinear_arith)
        requires
            r == low * den + rest,
            rest < den,
            low < p,
    ;
    lemma_split(high, r, den * p);
    assert(2 * r > den * p <==> (low > half || (low == half && rest > 0))) by (nonlinear_arith)
        requires
            r == low * den + rest,
            rest < den,
            p == 2 * half,
            den > 0,
    ;
    assert(2 * r == den * p <==> (low == half && rest == 0)) by (nonlinear_arith)
        requires
            r == low * den + rest,
            rest < den,
            p == 2 * half,
            den > 0,
    ;
}

/// Finds the binade of `num / den * 2^e`, where the quotient has `l` bits.
proof fn lemma_binade(num: nat, den: nat, e: int, l: nat, k: nat)
    requires
        den > 0,
        l > 0,
        pow2((l - 1) as nat) <= num / den < pow2(l),
        k == if l + e > 53 {
            l + e - 53
        } else {
            0
        },
    ensures
        e >= k && num % den == 0 ==> rounded_scaled(num, den, e) == in_range(
            k * 0x0010_0000_0000_0000 + (num / den) * pow2((e - k) as nat),
        ),
        e < k ==> rounded_scaled(num, den, e) == in_range(
            k * 0x0010_0000_0000_0000 + half_even(num, den * pow2((k - e) as nat)),
        ),
{
    let q = num / den;
    let i: nat = if e >= 0 {
        e as nat
    } else {
        0
    };
    let j: nat = if e >= 0 {
        0
    } else {
        (-e) as nat
    };
    let n = num * pow2(i);
    let d = den * pow2(j);
    lemma_powers();
    lemma_fundamental_div_mod(num as int, den as int);
    lemma_pow2_pos(i);
    lemma_pow2_pos(j);
    lemma_pow2_pos(k);
    assert(d > 0) by (nonlinear_arith)
        requires
            d == den * pow2(j),
            den > 0,
            pow2(j) > 0,
    ;
    assert(num * pow2(0) == num && den * pow2(0) == den) by (nonlinear_arith)
        requires
            pow2(0) == 1,
    ;
    lemma_rounded_scaled(num, den, i, j);
    let spacing = d * pow2(k);
    assert(spacing == den * pow2(j + k)) by {
        lemma_pow2_adds(j, k);
        assert(den * pow2(j) * pow2(k) == den * (pow2(j) * pow2(k))) by (nonlinear_arith);
    }
    assert(n < 0x0020_0000_0000_0000 * spacing) by {
        lemma_pow2_adds(l, i);
        lemma_pow2_adds(53, j + k);
        if l + i < 53 + j + k {
            lemma_pow2_strictly_increases(l + i, 53 + j + k);
        }
        assert(den * (q + 1) == den * q + den) by (nonlinear_arith);
        assert(num < den * pow2(l)) by (nonlinear_arith)
            requires
                num < den * (q + 1),
                q + 1 <= pow2(l),
        ;
        assert(n < den * pow2(l + i)) by (nonlinear_arith)
            requires
                n == num * pow2(i),
                num < den * pow2(l),
                pow2(l + i) == pow2(l) * pow2(i),
                pow2(i) > 0,
        ;
        assert(den * pow2(l + i) <= den * pow2(53 + (j + k))) by (nonlinear_arith)
            requires
                pow2(l + i) <= pow2(53 + (j + k)),
        ;
        assert(den * pow2(53 + (j + k)) == 0x0020_0000_0000_0000 * (den * pow2(j + k)))
            by (nonlinear_arith)
            requires
                pow2(53 + (j + k)) == 0x0020_0000_0000_0000 * pow2(j + k),
        ;
    }
    if k > 0 {
        lemma_pow2_adds((l - 1) as nat, i);
        lemma_pow2_adds(52, j + k);
        assert((l - 1) + i == 52 + (j + k));
        assert(num >= den * pow2((l - 1) as nat)) by (nonlinear_arith)
            requires
                num == den * q + num % den,
                q >= pow2((l - 1) as nat),
        ;
        assert(n >= den * pow2(((l - 1) + i) as nat)) by (nonlinear_arith)
            requires
                n == num * pow2(i),
                num >= den * pow2((l - 1) as nat),
                pow2(((l - 1) + i) as nat) == pow2((l - 1) as nat) * pow2(i),
                pow2(i) > 0,
        ;
        assert(den * pow2(52 + (j + k)) == 0x0010_0000_0000_0000 * (den * pow2(j + k)))
            by (nonlinear_arith)
            requires
                pow2(52 + (j + k)) == 0x0010_0000_0000_0000 * pow2(j + k),
        ;
    }
    lemma_nearest_at(n, d, k);
    if e >= k {
        if num % den == 0 {
            let s = (e - k) as nat;
            let m = q * pow2(s);
            lemma_pow2_adds(s, k);
            assert(n == m * (den * pow2(k))) by (nonlinear_arith)
                requires
                    n == num * pow2(i),
                    num == den * q,
                    pow2(i) == pow2(s) * pow2(k),
                    m == q * pow2(s),
            ;
            lemma_half_even_whole(m, spacing);
        }
    } else {
        let t = (k - e) as nat;
        lemma_pow2_adds(t, i);
        lemma_pow2_pos(t);
        assert(t + i == j + k);
        assert(den * pow2(t) > 0) by (nonlinear_arith)
            requires
                den > 0,
                pow2(t) > 0,
        ;
        assert(den * pow2(j + k) == (den * pow2(t)) * pow2(i)) by (nonlinear_arith)
            requires
                pow2(j + k) == pow2(t) * pow2(i),
        ;
        lemma_half_even_common(num, den * pow2(t), pow2(i));
    }
}

/// Zero stays zero at every scale.
proof fn lemma_zero(num: nat, den: nat, e: int)
    requires
        den > 0,
        num / den == 0,
        num % den == 0,
    ensures
        rounded_scaled(num, den, e) == Some(0u64),
{
    lemma_fundamental_div_mod(num as int, den as int);
    assert(num == 0);
    let d: nat = if e >= 0 {
        den
    } else {
        lemma_pow2_pos((-e) as nat);
        assert(den * pow2((-e) as nat) > 0) by (nonlinear_arith)
            requires
                den > 0,
                pow2((-e) as nat) > 0,
        ;
        den * pow2((-e) as nat)
    };
    assert(d > 0);
    assert(0 * pow2(e as nat) == 0) by (nonlinear_arith);
    lemma_split(0, 0, d);
    assert(nearest(0, d) == 0);
}

/// The pattern `m` binades-wise moved up by `k`, if it is finite.
fn clip(k: u32, m: u64) -> (r: Option<u64>)
    requires
        k <= 20000,
        m <= 0x0020_0000_0000_0000,
    ensures
        r == in_range((k * 0x0010_0000_0000_0000 + m) as nat),
{
    let bits: u128 = k as u128 * 0x0010_0000_0000_0000 + m as u128;
    if bits < INFINITE as u128 {
        Some(bits as u64)
    } else {
        None
    }
}

/// `2^t`.
fn power(t: u32) -> (r: u128)
    requires
        t <= 120,
    ensures
        r == pow2(t as nat),
{
    let mut r: u128 = 1;
    let mut i: u32 = 0;
    proof {
        lemma_powers();
    }
    while i < t
        invariant
            i <= t <= 120,
            r == pow2(i as nat),
            pow2(120) == 0x0100_0000_0000_0000_0000_0000_0000_0000,
        decreases t - i,
    {
        proof {
            lemma_pow2_unfold((i + 1) as nat);
            lemma_pow2_strictly_increases(i as nat, 120);
        }
        r = r * 2;
        i = i + 1;
    }
    r
}

/// The number of bits of a positive number.
fn bit_length(q: u128) -> (l: u32)
    requires
        0 < q < 0x0100_0000_0000_0000_0000_0000_0000_0000,
    ensures
        0 < l <= 120,
        pow2((l - 1) as nat) <= q < pow2(l as nat),
{
    let mut l: u32 = 0;
    let mut p: u128 = 1;
    proof {
        lemma_powers();
    }
    while p <= q
        invariant
            l <= 120,
            p == pow2(l as nat),
            l > 0 ==> pow2((l - 1) as nat) <= q,
            0 < q < 0x0100_0000_0000_0000_0000_0000_0000_0000,
            pow2(120) == 0x0100_0000_0000_0000_0000_0000_0000_0000,
            pow2(0) == 1,
        decreases 121 - l,
    {
        proof {
            lemma_pow2_unfold((l + 1) as nat);
        }
        p = p * 2;
        l = l + 1;
    }
    l
}

/// Rounds `num / den * 2^e`, given the quotient `q` of `num` by `den` and whether
/// there is a remainder.
fn round_scaled(q: u128, inexact: bool, e: i32, Ghost(num): Ghost<nat>, Ghost(den): Ghost<nat>) -> (r:
    Option<u64>)
    requires
        den > 0,
        q == num / den,
        inexact == (num % den != 0),
        inexact ==> q >= 0x0020_0000_0000_0000,
        q < 0x0100_0000_0000_0000_0000_0000_0000_0000,
        -10000 <= e <= 10000,
    ensures
        r == rounded_scaled(num, den, e as int),
{
    proof {
        lemma_powers();
    }
    if q == 0 {
        proof {
            lemma_zero(num, den, e as int);
        }
        return Some(0);
    }
    let l = bit_length(q);
    let k: i32 = if l as i32 + e > 53 {
        l as i32 + e - 53
    } else {
        0
    };
    proof {
        lemma_binade(num, den, e as int, l as nat, k as nat);
        if l <= 53 {
            if l < 53 {
                lemma_pow2_strictly_increases(l as nat, 53);
            }
        } else if l > 54 {
            lemma_pow2_strictly_increases(53, (l - 1) as nat);
        }
    }
    if e >= k {
        let s: u32 = (e - k) as u32;
        proof {
            assert(l <= 53);
            assert(q * pow2(s as nat) < 0x0020_0000_0000_0000) by {
                lemma_pow2_adds(l as nat, s as nat);
                lemma_pow2_pos(s as nat);
                if l + s < 53 {
                    lemma_pow2_strictly_increases((l + s) as nat, 53);
                }
                assert(q * pow2(s as nat) < pow2(l as nat) * pow2(s as nat)) by (nonlinear_arith)
                    requires
                        q < pow2(l as nat),
                        pow2(s as nat) > 0,
                ;
            }
        }
        let m: u128 = q * power(s);
        return clip(k as u32, m as u64);
    }
    let t: u32 = (k - e) as u32;
    proof {
        lemma_half_even_low_bits(num, den, t as nat);
    }
    if t > l {
        proof {
            lemma_pow2_unfold(t as nat);
            if l < t - 1 {
                lemma_pow2_strictly_increases(l as nat, (t - 1) as nat);
            }
            lemma_split(0, q as nat, pow2(t as nat));
        }
        return clip(k as u32, 0);
    }
    let p: u128 = power(t);
    proof {
        lemma_pow2_pos(t as nat);
    }
    let half: u128 = power(t - 1);
    let high: u128 = q / p;
    let low: u128 = q % p;
    assert(high < 0x0020_0000_0000_0000) by {
        lemma_pow2_pos(t as nat);
        lemma_fundamental_div_mod(q as int, p as int);
        lemma_pow2_adds(53, t as nat);
        if l < 53 + t {
            lemma_pow2_strictly_increases(l as nat, (53 + t) as nat);
        }
        assert(high < 0x0020_0000_0000_0000) by (nonlinear_arith)
            requires
                q == p * high + low,
                low >= 0,
                q < 0x0020_0000_0000_0000 * p,
                p > 0,
        ;
    }
    if low > half || (low == half && (inexact || high % 2 == 1)) {
        clip(k as u32, (high + 1) as u64)
    } else {
        clip(k as u32, high as u64)
    }
}

/// Rounding is exact: a number that has a pattern is nearest to itself.
pub proof fn lemma_exact(bits: nat, d: nat)
    requires
        d > 0,
    ensures
        nearest(magnitude(bits) * d, d) == bits,
{
    let m = significand(bits);
    let k = scale(bits);
    lemma_pow2_pos(k);
    lemma_powers();
    let spacing = d * pow2(k);
    let n = magnitude(bits) * d;
    assert(spacing > 0) by (nonlinear_arith)
        requires
            spacing == d * pow2(k),
            d > 0,
            pow2(k) > 0,
    ;
    assert(n == m * spacing) by (nonlinear_arith)
        requires
            n == (m * pow2(k)) * d,
            spacing == d * pow2(k),
    ;
    assert(n < 0x0020_0000_0000_0000 * spacing) by (nonlinear_arith)
        requires
            n == m * spacing,
            m < 0x0020_0000_0000_0000,
            spacing > 0,
    ;
    if k > 0 {
        assert(n >= 0x0010_0000_0000_0000 * spacing) by (nonlinear_arith)
            requires
                n == m * spacing,
                m >= 0x0010_0000_0000_0000,
        ;
    }
    lemma_nearest_at(n, d, k);
    lemma_half_even_whole(m, spacing);
    assert(k * 0x0010_0000_0000_0000 + m == bits);
}

/// Rounding to whole numbers keeps the order.
proof fn lemma_half_even_monotone(n1: nat, n2: nat, d: nat)
    requires
        d > 0,
        n1 <= n2,
    ensures
        half_even(n1, d) <= half_even(n2, d),
{
    let q1 = n1 / d;
    let q2 = n2 / d;
    lemma_fundamental_div_mod(n1 as int, d as int);
    lemma_fundamental_div_mod(n2 as int, d as int);
    lemma_div_is_ordered(n1 as int, n2 as int, d as int);
    assert(q1 == q2 ==> n1 % d <= n2 % d);
}

/// A lower bound on the nearest pattern.
proof fn lemma_nearest_at_least(n: nat, d: nat)
    requires
        d > 0,
        n >= 0x0010_0000_0000_0000 * d,
    ensures
        nearest(n, d) >= 0x0010_0000_0000_0000,
{
    if n < 0x0020_0000_0000_0000 * d {
        lemma_half_even_whole(0x0010_0000_0000_0000, d);
        lemma_half_even_monotone(0x0010_0000_0000_0000 * d, n, d);
    }
}

/// Rounding keeps the order, for a common denominator.
proof fn lemma_nearest_monotone(n1: nat, n2: nat, d: nat)
    requires
        d > 0,
        n1 <= n2,
    ensures
        nearest(n1, d) <= nearest(n2, d),
    decreases n2 - d,
{
    if n2 < 0x0020_0000_0000_0000 * d {
        lemma_half_even_monotone(n1, n2, d);
    } else if n1 < 0x0020_0000_0000_0000 * d {
        lemma_half_even_whole(0x0020_0000_0000_0000, d);
        lemma_half_even_monotone(n1, 0x0020_0000_0000_0000 * d, d);
        lemma_nearest_at_least(n2, 2 * d);
    } else {
        lemma_nearest_monotone(n1, n2, 2 * d);
    }
}

/// Rounding keeps the order: of two quotients the smaller never becomes the larger
/// number.
pub proof fn lemma_rounding_monotone(n1: nat, d1: nat, n2: nat, d2: nat)
    requires
        d1 > 0,
        d2 > 0,
        n1 * d2 <= n2 * d1,
    ensures
        nearest(n1, d1) <= nearest(n2, d2),
{
    assert(d1 * d2 > 0) by (nonlinear_arith)
        requires
            d1 > 0,
            d2 > 0,
    ;
    assert(d1 * d2 == d2 * d1) by (nonlinear_arith);
    lemma_nearest_common(n1, d1, d2);
    lemma_nearest_common(n2, d2, d1);
    lemma_nearest_monotone(n1 * d2, n2 * d1, d1 * d2);
}

/// A quotient between zero and a finite number rounds to a finite number.
pub proof fn lemma_rounded_below(n: nat, d: nat, bits: u64)
    requires
        d > 0,
        n <= magnitude(bits as nat) * d,
        bits < INFINITE,
    ensures
        rounded(n, d) == Some(nearest(n, d) as u64),
        nearest(n, d) <= bits,
{
    lemma_exact(bits as nat, d);
    lemma_nearest_monotone(n, magnitude(bits as nat) * d, d);
}

/// A positive whole number of units does not round to zero.
proof fn lemma_rounded_positive(n: nat)
    requires
        n > 0,
    ensures
        nearest(n, 1) > 0,
{
    lemma_powers();
    lemma_exact(1, 1);
    assert(magnitude(1) == 1);
    lemma_nearest_monotone(1, n, 1);
}

/// Every 64-bit whole number has a finite number nearest to it.
pub proof fn lemma_whole_finite(n: u64)
    ensures
        whole_of(n) is Some,
        whole_of(n)->0 < INFINITE,
        n > 0 ==> whole_of(n)->0 > 0,
{
    let bits: u64 = 0x43f0_0000_0000_0000;
    let unit = pow2(UNIT_SCALE as nat);
    lemma_powers();
    lemma2_to64();
    lemma_pow2_pos(UNIT_SCALE as nat);
    assert(scale(bits as nat) == 1086);
    assert(significand(bits as nat) == 0x0010_0000_0000_0000);
    lemma_pow2_adds(52, 1086);
    lemma_pow2_adds(64, 1074);
    assert(n * unit <= magnitude(bits as nat)) by (nonlinear_arith)
        requires
            magnitude(bits as nat) == 0x1_0000_0000_0000_0000 * unit,
            n <= 0x1_0000_0000_0000_0000,
            unit >= 0,
    ;
    lemma_rounded_below(n as nat * unit, 1, bits);
    if n > 0 {
        assert(n * unit > 0) by (nonlinear_arith)
            requires
                n > 0,
                unit > 0,
        ;
        lemma_rounded_positive(n as nat * unit);
    }
}

/// Numbers are ordered as their patterns are.
pub proof fn lemma_order(a: nat, b: nat)
    ensures
        a <= b <==> magnitude(a) <= magnitude(b),
{
    if a < b {
        lemma_order_strict(a, b);
    } else if b < a {
        lemma_order_strict(b, a);
    }
}

proof fn lemma_order_strict(a: nat, b: nat)
    requires
        a < b,
    ensures
        magnitude(a) < magnitude(b),
{
    let ma = significand(a);
    let mb = significand(b);
    let ka = scale(a);
    let kb = scale(b);
    lemma_pow2_pos(ka);
    lemma_pow2_pos(kb);
    if ka == kb {
        assert(ma * pow2(ka) < mb * pow2(ka)) by (nonlinear_arith)
            requires
                ma < mb,
                pow2(ka) > 0,
        ;
    } else {
        lemma_pow2_unfold((ka + 1) as nat);
        if ka + 1 < kb {
            lemma_pow2_strictly_increases(ka + 1, kb);
        }
        assert(ma * pow2(ka) < 0x0010_0000_0000_0000 * pow2(ka + 1)) by (nonlinear_arith)
            requires
                ma < 0x0020_0000_0000_0000,
                pow2(ka + 1) == 2 * pow2(ka),
                pow2(ka) > 0,
        ;
        assert(0x0010_0000_0000_0000 * pow2(ka + 1) <= mb * pow2(kb)) by (nonlinear_arith)
            requires
                mb >= 0x0010_0000_0000_0000,
                pow2(ka + 1) <= pow2(kb),
        ;
    }
}

/// The pattern with significand `m` in the binade of spacing `2^k`; the next binade
/// begins where the significands of this one end.
proof fn lemma_pattern(k: nat, m: nat)
    requires
        m <= 0x0020_0000_0000_0000,
        k > 0 ==> m >= 0x0010_0000_0000_0000,
    ensures
        magnitude(k * 0x0010_0000_0000_0000 + m) == m * pow2(k),
{
    let bits = k * 0x0010_0000_0000_0000 + m;
    lemma_powers();
    if m == 0x0020_0000_0000_0000 {
        lemma_pow2_unfold(k + 1);
        assert(bits / 0x0010_0000_0000_0000 == k + 2);
        assert(significand(bits) == 0x0010_0000_0000_0000);
        assert(scale(bits) == k + 1);
        assert(0x0010_0000_0000_0000 * pow2(k + 1) == 0x0020_0000_0000_0000 * pow2(k));
    } else if k > 0 {
        assert(bits / 0x0010_0000_0000_0000 == k + 1);
        assert(significand(bits) == m);
        assert(scale(bits) == k);
    } else {
        assert(significand(bits) == m);
        assert(scale(bits) == 0);
    }
}

/// Every quotient lies in some binade.
proof fn lemma_some_binade(n: nat, d: nat) -> (k: nat)
    requires
        d > 0,
    ensures
        n < 0x0020_0000_0000_0000 * (d * pow2(k)),
        k > 0 ==> n >= 0x0010_0000_0000_0000 * (d * pow2(k)),
    decreases n - d,
{
    if n < 0x0020_0000_0000_0000 * d {
        lemma_powers();
        assert(d * pow2(0) == d) by (nonlinear_arith)
            requires
                pow2(0) == 1,
        ;
        0
    } else {
        let j = lemma_some_binade(n, 2 * d);
        lemma_pow2_unfold(j + 1);
        assert((2 * d) * pow2(j) == d * pow2(j + 1)) by (nonlinear_arith)
            requires
                pow2(j + 1) == 2 * pow2(j),
        ;
        if j == 0 {
            lemma_powers();
            assert((2 * d) * pow2(0) == 2 * d) by (nonlinear_arith)
                requires
                    pow2(0) == 1,
            ;
        }
        j + 1
    }
}

/// How far apart two numbers of units are.
pub open spec fn distance(a: int, b: int) -> int {
    if a <= b {
        b - a
    } else {
        a - b
    }
}

/// No number lies nearer to `n / d` units than [`nearest`].
pub proof fn lemma_nearest(n: nat, d: nat, other: nat)
    requires
        d > 0,
    ensures
        distance((magnitude(nearest(n, d)) * d) as int, n as int) <= distance(
            (magnitude(other) * d) as int,
            n as int,
        ),
{
    let bits = nearest(n, d);
    let k = lemma_some_binade(n, d);
    let spacing = d * pow2(k);
    lemma_pow2_pos(k);
    assert(spacing > 0) by (nonlinear_arith)
        requires
            spacing == d * pow2(k),
            d > 0,
            pow2(k) > 0,
    ;
    lemma_nearest_at(n, d, k);
    let q = n / spacing;
    let rest = n % spacing;
    lemma_fundamental_div_mod(n as int, spacing as int);
    assert(q < 0x0020_0000_0000_0000) by (nonlinear_arith)
        requires
            n == spacing * q + rest,
            n < 0x0020_0000_0000_0000 * spacing,
            rest >= 0,
    ;
    if k > 0 {
        assert(q >= 0x0010_0000_0000_0000) by (nonlinear_arith)
            requires
                n == spacing * q + rest,
                n >= 0x0010_0000_0000_0000 * spacing,
                rest < spacing,
        ;
    }
    let low = k * 0x0010_0000_0000_0000 + q;
    lemma_pattern(k, q);
    lemma_pattern(k, q + 1);
    assert(magnitude(low) * d == q * spacing) by (nonlinear_arith)
        requires
            magnitude(low) == q * pow2(k),
            spacing == d * pow2(k),
    ;
    assert(magnitude(low + 1) * d == (q + 1) * spacing) by (nonlinear_arith)
        requires
            magnitude(low + 1) == (q + 1) * pow2(k),
            spacing == d * pow2(k),
    ;
    assert((q + 1) * spacing == q * spacing + spacing) by (nonlinear_arith);
    assert(q * spacing == spacing * q) by (nonlinear_arith);
    if other <= low {
        lemma_order(other, low);
        assert(magnitude(other) * d <= magnitude(low) * d) by (nonlinear_arith)
            requires
                magnitude(other) <= magnitude(low),
        ;
    } else {
        lemma_order(low + 1, other);
        assert(magnitude(low + 1) * d <= magnitude(other) * d) by (nonlinear_arith)
            requires
                magnitude(low + 1) <= magnitude(other),
        ;
    }
}

/// The value of a pattern whose significand is a whole number times a power of two.
pub proof fn lemma_whole_value(bits: nat, n: nat, shift: nat)
    requires
        bits >= 2 * BINADE,
        significand(bits) == n * pow2(shift),
        scale(bits) + shift == UNIT_SCALE,
    ensures
        magnitude(bits) == n * pow2(UNIT_SCALE as nat),
{
    lemma_pow2_adds(shift, scale(bits));
    assert((n * pow2(shift)) * pow2(scale(bits)) == n * (pow2(shift) * pow2(scale(bits))))
        by (nonlinear_arith);
}

/// The value of zero.
pub proof fn lemma_zero_magnitude()
    ensures
        magnitude(0) == 0,
{
    assert(magnitude(0) == 0) by (nonlinear_arith)
        requires
            magnitude(0) == significand(0) * pow2(scale(0)),
            significand(0) == 0,
    ;
}

/// Rounding a whole number of units moves it by at most its `2^53`rd part, and by at most
/// that part of the rounded number.
pub proof fn lemma_rounding_error(n: nat)
    ensures
        0x0020_0000_0000_0000 * distance(magnitude(nearest(n, 1)) as int, n as int) <= n,
        0x0020_0000_0000_0000 * distance(magnitude(nearest(n, 1)) as int, n as int) <= magnitude(
            nearest(n, 1),
        ),
{
    let k = lemma_some_binade(n, 1);
    let spacing = pow2(k);
    lemma_pow2_pos(k);
    lemma_powers();
    assert(1 * pow2(k) == pow2(k));
    lemma_nearest_at(n, 1, k);
    let q = n / spacing;
    let rest = n % spacing;
    lemma_fundamental_div_mod(n as int, spacing as int);
    assert(q < 0x0020_0000_0000_0000) by (nonlinear_arith)
        requires
            n == spacing * q + rest,
            n < 0x0020_0000_0000_0000 * spacing,
            rest >= 0,
    ;
    if k > 0 {
        assert(q >= 0x0010_0000_0000_0000) by (nonlinear_arith)
            requires
                n == spacing * q + rest,
                n >= 0x0010_0000_0000_0000 * spacing,
                rest < spacing,
        ;
        assert(q * spacing >= 0x0010_0000_0000_0000 * spacing) by (nonlinear_arith)
            requires
                q >= 0x0010_0000_0000_0000,
                spacing > 0,
        ;
    }
    lemma_pattern(k, q);
    lemma_pattern(k, q + 1);
    assert((q + 1) * spacing == q * spacing + spacing) by (nonlinear_arith);
    assert(q * spacing == spacing * q) by (nonlinear_arith);
}

/// Rounding a quotient moves it by at most its `2^53`rd part, or half a unit where the
/// quotient is small.
pub proof fn lemma_quotient_error(n: nat, d: nat)
    requires
        d > 0,
    ensures
        0x0020_0000_0000_0000 * distance((magnitude(nearest(n, d)) * d) as int, n as int) <= n
            + BINADE * d,
{
    let k = lemma_some_binade(n, d);
    let spacing = d * pow2(k);
    lemma_pow2_pos(k);
    lemma_powers();
    assert(spacing > 0) by (nonlinear_arith)
        requires
            spacing == d * pow2(k),
            d > 0,
            pow2(k) > 0,
    ;
    lemma_nearest_at(n, d, k);
    let q = n / spacing;
    let rest = n % spacing;
    lemma_fundamental_div_mod(n as int, spacing as int);
    assert(q < 0x0020_0000_0000_0000) by (nonlinear_arith)
        requires
            n == spacing * q + rest,
            n < 0x0020_0000_0000_0000 * spacing,
            rest >= 0,
    ;
    if k > 0 {
        assert(q >= 0x0010_0000_0000_0000) by (nonlinear_arith)
            requires
                n == spacing * q + rest,
                n >= 0x0010_0000_0000_0000 * spacing,
                rest < spacing,
        ;
    } else {
        assert(d * pow2(0) == d) by (nonlinear_arith)
            requires
                pow2(0) == 1,
        ;
    }
    lemma_pattern(k, q);
    lemma_pattern(k, q + 1);
    assert((q * pow2(k)) * d == q * spacing) by (nonlinear_arith)
        requires
            spacing == d * pow2(k),
    ;
    assert(((q + 1) * pow2(k)) * d == q * spacing + spacing) by (nonlinear_arith)
        requires
            spacing == d * pow2(k),
    ;
    assert(q * spacing == spacing * q) by (nonlinear_arith);
}

/// Every positive number has a number of bits.
proof fn lemma_some_length(n: nat) -> (l: nat)
    requires
        n > 0,
    ensures
        l > 0,
        pow2((l - 1) as nat) <= n < pow2(l),
    decreases n,
{
    lemma_powers();
    if n == 1 {
        lemma_pow2_unfold(1);
        1
    } else {
        let l = lemma_some_length(n / 2);
        lemma_pow2_unfold(l);
        lemma_pow2_unfold(l + 1);
        l + 1
    }
}

/// Whole numbers up to `2^53` are not rounded.
pub proof fn lemma_small_whole(n: u64)
    requires
        n <= 0x0020_0000_0000_0000,
    ensures
        whole_of(n) is Some,
        magnitude(whole_of(n)->0 as nat) == n * pow2(UNIT_SCALE as nat),
{
    lemma_whole_finite(n);
    lemma_zero_magnitude();
    if n == 0 {
        lemma_exact(0, 1);
        assert(0 * pow2(UNIT_SCALE as nat) == 0) by (nonlinear_arith);
    } else if n < 0x0020_0000_0000_0000 {
        let l = lemma_some_length(n as nat);
        lemma_powers();
        if l > 54 {
            lemma_pow2_strictly_increases(53, (l - 1) as nat);
        }
        assert(l <= 53);
        let s = (53 - l) as nat;
        let k = (UNIT_SCALE - s) as nat;
        let m = n as nat * pow2(s);
        lemma_split(n as nat, 0, 1);
        lemma_binade(n as nat, 1, UNIT_SCALE as int, l, k);
        lemma_pow2_adds(s, k);
        lemma_pow2_adds(l, s);
        lemma_pow2_adds((l - 1) as nat, s);
        lemma_pow2_pos(s);
        assert(m < pow2(l) * pow2(s)) by (nonlinear_arith)
            requires
                m == n as nat * pow2(s),
                n < pow2(l),
                pow2(s) > 0,
        ;
        assert(m >= pow2((l - 1) as nat) * pow2(s)) by (nonlinear_arith)
            requires
                m == n as nat * pow2(s),
                n >= pow2((l - 1) as nat),
        ;
        lemma_pattern(k, m);
        assert(m * pow2(k) == n as nat * (pow2(s) * pow2(k))) by (nonlinear_arith)
            requires
                m == n as nat * pow2(s),
        ;
    } else {
        let bits: nat = 0x4340_0000_0000_0000;
        lemma_powers();
        lemma_pow2_adds(52, 1075);
        lemma_pow2_adds(53, 1074);
        assert(scale(bits) == 1075);
        assert(significand(bits) == 0x0010_0000_0000_0000);
        lemma_exact(bits, 1);
    }
}

/// The whole number behind `2^53` is rounded back to it.
pub proof fn lemma_first_tie()
    ensures
        magnitude(nearest(0x0020_0000_0000_0001 * pow2(UNIT_SCALE as nat), 1))
            == 0x0020_0000_0000_0000 * pow2(UNIT_SCALE as nat),
{
    let unit = pow2(UNIT_SCALE as nat);
    let spacing = pow2(1075);
    let n = 0x0020_0000_0000_0001 * unit;
    lemma_pow2_unfold(1075);
    lemma_pow2_pos(UNIT_SCALE as nat);
    assert(1 * spacing == spacing);
    assert(n == 0x0010_0000_0000_0000 * spacing + unit);
    lemma_nearest_at(n, 1, 1075);
    lemma_split(0x0010_0000_0000_0000, unit, spacing);
    lemma_pattern(1075, 0x0010_0000_0000_0000);
}

/// A sum of numbers is not less than one of them.
pub proof fn lemma_sum_not_less(a: u64, b: u64)
    ensures
        sum_of(a, b) matches Some(sum) ==> a <= sum,
{
    lemma_exact(a as nat, 1);
    lemma_nearest_monotone(
        magnitude(a as nat),
        magnitude(a as nat) + magnitude(b as nat),
        1,
    );
}

/// Multiplying by one changes nothing, and neither does adding zero.
pub proof fn lemma_neutral(bits: u64)
    requires
        bits < INFINITE,
    ensures
        product_of(bits, 0x3ff0_0000_0000_0000) == Some(bits),
        sum_of(bits, 0) == Some(bits),
{
    let one: nat = 0x3ff0_0000_0000_0000;
    lemma_powers();
    lemma_pow2_adds(52, 1022);
    lemma_pow2_pos(UNIT_SCALE as nat);
    assert(scale(one) == 1022);
    assert(significand(one) == 0x0010_0000_0000_0000);
    lemma_exact(bits as nat, pow2(UNIT_SCALE as nat));
    lemma_exact(bits as nat, 1);
    lemma_zero_magnitude();
}


/// Splits a pattern into significand and scale.
fn decode(bits: u64) -> (r: (u64, u32))
    ensures
        r.0 == significand(bits as nat),
        r.1 == scale(bits as nat),
        r.0 < 0x0020_0000_0000_0000,
        r.1 > 0 ==> r.0 >= 0x0010_0000_0000_0000,
        r.1 <= 4094,
        bits == r.1 * 0x0010_0000_0000_0000 + r.0,
{
    if bits < 0x0020_0000_0000_0000 {
        (bits, 0)
    } else {
        (BINADE + bits % BINADE, (bits / BINADE - 1) as u32)
    }
}

/// The sum of two numbers.
pub open spec fn sum_of(a: u64, b: u64) -> Option<u64> {
    rounded(magnitude(a as nat) + magnitude(b as nat), 1)
}

/// The difference of two numbers, the first not less than the second.
pub open spec fn difference_of(a: u64, b: u64) -> Option<u64> {
    rounded((magnitude(a as nat) - magnitude(b as nat)) as nat, 1)
}

/// The product of two numbers.
pub open spec fn product_of(a: u64, b: u64) -> Option<u64> {
    rounded(magnitude(a as nat) * magnitude(b as nat), pow2(UNIT_SCALE as nat))
}

/// The quotient of two numbers.
pub open spec fn quotient_of(a: u64, b: u64) -> Option<u64> {
    rounded(magnitude(a as nat) * pow2(UNIT_SCALE as nat), magnitude(b as nat))
}

/// A whole number.
pub open spec fn whole_of(n: u64) -> Option<u64> {
    rounded(n as nat * pow2(UNIT_SCALE as nat), 1)
}

/// Adding or taking away less than a quarter of the spacing does not move a number.
proof fn lemma_negligible(m: nat, k: nat, r: nat)
    requires
        k > 0,
        0x0010_0000_0000_0000 <= m < 0x0020_0000_0000_0000,
        4 * r < pow2(k),
    ensures
        nearest(m * pow2(k) + r, 1) == k * 0x0010_0000_0000_0000 + m,
        nearest((m * pow2(k) - r) as nat, 1) == k * 0x0010_0000_0000_0000 + m,
{
    let p = pow2(k);
    let j = (k - 1) as nat;
    let h = pow2(j);
    lemma_pow2_unfold(k);
    lemma_pow2_pos(k);
    lemma_pow2_pos(j);
    assert(1 * p == p && 1 * h == h);
    let up = m * p + r;
    assert(up < 0x0020_0000_0000_0000 * p) by (nonlinear_arith)
        requires
            up == m * p + r,
            r < p,
            m + 1 <= 0x0020_0000_0000_0000,
    ;
    assert(up >= 0x0010_0000_0000_0000 * p) by (nonlinear_arith)
        requires
            up == m * p + r,
            m >= 0x0010_0000_0000_0000,
    ;
    lemma_nearest_at(up, 1, k);
    lemma_split(m, r, p);
    assert(m * p >= p) by (nonlinear_arith)
        requires
            m >= 1,
            p >= 0,
    ;
    if r == 0 {
    } else {
        let down = (m * p - r) as nat;
        if m > 0x0010_0000_0000_0000 {
            let q = (m - 1) as nat;
            assert(down == q * p + (p - r)) by (nonlinear_arith)
                requires
                    down == m * p - r,
                    q == m - 1,
            ;
            assert(down < 0x0020_0000_0000_0000 * p) by (nonlinear_arith)
                requires
                    down == m * p - r,
                    m < 0x0020_0000_0000_0000,
                    p > 0,
            ;
            assert(down >= 0x0010_0000_0000_0000 * p) by (nonlinear_arith)
                requires
                    down == q * p + (p - r),
                    q >= 0x0010_0000_0000_0000,
                    r < p,
            ;
            lemma_nearest_at(down, 1, k);
            lemma_split(q, (p - r) as nat, p);
        } else {
            let q: nat = 0x001f_ffff_ffff_ffff;
            assert(down == q * h + (h - r)) by (nonlinear_arith)
                requires
                    down == m * p - r,
                    m == 0x0010_0000_0000_0000,
                    q == 0x001f_ffff_ffff_ffff,
                    p == 2 * h,
            ;
            lemma_nearest_at(down, 1, j);
            lemma_split(q, (h - r) as nat, h);
        }
    }
}

/// Bounds a number far below another by the spacing of the other.
proof fn lemma_far_below(m: nat, k: nat, far: nat)
    requires
        m < 0x0020_0000_0000_0000,
        far >= k + 65,
    ensures
        4 * (m * pow2(k)) < pow2(far),
{
    lemma_powers();
    lemma_pow2_pos(k);
    lemma_pow2_adds(k, 55);
    lemma_pow2_adds(53, 2);
    lemma2_to64();
    lemma_pow2_strictly_increases(k + 55, far);
    assert(4 * (m * pow2(k)) < pow2(k) * pow2(55)) by (nonlinear_arith)
        requires
            m < 0x0020_0000_0000_0000,
            pow2(55) == 0x0080_0000_0000_0000,
            pow2(k) > 0,
    ;
}

/// A pattern that may lie beyond the finite ones.
fn finite_pattern(bits: u64) -> (r: Option<u64>)
    ensures
        r == in_range(bits as nat),
{
    if bits < INFINITE {
        Some(bits)
    } else {
        None
    }
}

/// Brings two numbers, the first not less than the second, to the scale of the
/// second, where the scales are near.
fn align(ma: u64, ka: u32, mb: u64, kb: u32) -> (r: u128)
    requires
        kb <= ka <= kb + 64,
        ma < 0x0020_0000_0000_0000,
    ensures
        r * pow2(kb as nat) == ma * pow2(ka as nat),
        r < 0x0020_0000_0000_0000_0000_0000_0000_0000,
{
    let s: u32 = ka - kb;
    proof {
        lemma2_to64();
        lemma_pow2_adds(s as nat, kb as nat);
        if s < 64 {
            lemma_pow2_strictly_increases(s as nat, 64);
        }
        assert(ma * pow2(s as nat) <= 0x0020_0000_0000_0000 * 0x1_0000_0000_0000_0000
            - 0x1_0000_0000_0000_0000) by (nonlinear_arith)
            requires
                ma <= 0x001f_ffff_ffff_ffff,
                0 <= pow2(s as nat) <= 0x1_0000_0000_0000_0000,
        ;
        assert((ma * pow2(s as nat)) * pow2(kb as nat) == ma * pow2(ka as nat)) by (nonlinear_arith)
            requires
                pow2(ka as nat) == pow2(s as nat) * pow2(kb as nat),
        ;
    }
    ma as u128 * power(s)
}

/// Adds two numbers, the first not less than the second.
fn add_ordered(a: u64, b: u64) -> (r: Option<u64>)
    requires
        a >= b,
    ensures
        r == sum_of(a, b),
{
    let (ma, ka) = decode(a);
    let (mb, kb) = decode(b);
    if ka > kb + 64 {
        proof {
            lemma_far_below(mb as nat, kb as nat, ka as nat);
            lemma_negligible(ma as nat, ka as nat, magnitude(b as nat));
        }
        return finite_pattern(a);
    }
    let q: u128 = align(ma, ka, mb, kb) + mb as u128;
    proof {
        assert(magnitude(a as nat) + magnitude(b as nat) == q * pow2(kb as nat)) by (nonlinear_arith)
            requires
                magnitude(a as nat) == ma * pow2(ka as nat),
                magnitude(b as nat) == mb * pow2(kb as nat),
                (q - mb) * pow2(kb as nat) == ma * pow2(ka as nat),
        ;
        lemma_powers();
        lemma_rounded_scaled(q as nat, 1, kb as nat, 0);
    }
    round_scaled(q, false, kb as i32, Ghost(q as nat), Ghost(1))
}

/// Adds two numbers.
pub fn add_up(a: u64, b: u64) -> (r: Option<u64>)
    ensures
        r == sum_of(a, b),
{
    if a >= b {
        add_ordered(a, b)
    } else {
        add_ordered(b, a)
    }
}

/// Subtracts a number from one that is not less.
pub fn take_away(a: u64, b: u64) -> (r: Option<u64>)
    requires
        a >= b,
    ensures
        r == difference_of(a, b),
{
    let (ma, ka) = decode(a);
    let (mb, kb) = decode(b);
    if ka > kb + 64 {
        proof {
            lemma_far_below(mb as nat, kb as nat, ka as nat);
            lemma_negligible(ma as nat, ka as nat, magnitude(b as nat));
        }
        return finite_pattern(a);
    }
    let wide: u128 = align(ma, ka, mb, kb);
    proof {
        lemma_pow2_pos(kb as nat);
        lemma_order(a as nat, b as nat);
        assert(wide >= mb) by (nonlinear_arith)
            requires
                wide * pow2(kb as nat) >= mb * pow2(kb as nat),
                pow2(kb as nat) > 0,
        ;
    }
    let q: u128 = wide - mb as u128;
    proof {
        assert(magnitude(a as nat) - magnitude(b as nat) == q * pow2(kb as nat)) by (nonlinear_arith)
            requires
                magnitude(a as nat) == ma * pow2(ka as nat),
                magnitude(b as nat) == mb * pow2(kb as nat),
                (q + mb) * pow2(kb as nat) == ma * pow2(ka as nat),
        ;
        lemma_powers();
        lemma_rounded_scaled(q as nat, 1, kb as nat, 0);
    }
    round_scaled(q, false, kb as i32, Ghost(q as nat), Ghost(1))
}

/// Multiplies two numbers.
pub fn multiply(a: u64, b: u64) -> (r: Option<u64>)
    ensures
        r == product_of(a, b),
{
    let (ma, ka) = decode(a);
    let (mb, kb) = decode(b);
    assert(ma * mb < 0x0400_0000_0000_0000_0000_0000_0000) by (nonlinear_arith)
        requires
            0 <= ma < 0x0020_0000_0000_0000,
            0 <= mb < 0x0020_0000_0000_0000,
    ;
    let q: u128 = ma as u128 * mb as u128;
    let e: i32 = ka as i32 + kb as i32 - UNIT_SCALE as i32;
    proof {
        let num = q as nat;
        lemma_pow2_adds(ka as nat, kb as nat);
        assert(magnitude(a as nat) * magnitude(b as nat) == num * pow2((ka + kb) as nat))
            by (nonlinear_arith)
            requires
                magnitude(a as nat) == ma * pow2(ka as nat),
                magnitude(b as nat) == mb * pow2(kb as nat),
                num == ma * mb,
                pow2((ka + kb) as nat) == pow2(ka as nat) * pow2(kb as nat),
        ;
        lemma_rounded_scaled(num, 1, (ka + kb) as nat, UNIT_SCALE as nat);
    }
    round_scaled(q, false, e, Ghost(q as nat), Ghost(1))
}

/// Divides one number by another; there is no result where the divisor is zero.
pub fn divide(a: u64, b: u64) -> (r: Option<u64>)
    ensures
        r == quotient_of(a, b),
{
    let (ma, ka) = decode(a);
    let (mb, kb) = decode(b);
    proof {
        lemma_pow2_pos(kb as nat);
        lemma_powers();
    }
    if mb == 0 {
        assert(0 * pow2(kb as nat) == 0) by (nonlinear_arith);
        return None;
    }
    assert(magnitude(b as nat) > 0) by (nonlinear_arith)
        requires
            magnitude(b as nat) == mb * pow2(kb as nat),
            mb > 0,
            pow2(kb as nat) > 0,
    ;
    if ma == 0 {
        proof {
            assert(0 * pow2(ka as nat) == 0) by (nonlinear_arith);
            assert(0 * pow2(UNIT_SCALE as nat) == 0) by (nonlinear_arith);
            lemma_split(0, 0, magnitude(b as nat));
        }
        return Some(0);
    }
    let mut num: u128 = ma as u128;
    let mut s: u32 = 0;
    let bound: u128 = mb as u128 * 0x0020_0000_0000_0000;
    assert(ma * pow2(0) == ma) by (nonlinear_arith)
        requires
            pow2(0) == 1,
    ;
    while num < bound
        invariant
            ma > 0,
            num == ma * pow2(s as nat),
            s <= 106,
            num < 0x0800_0000_0000_0000_0000_0000_0000,
            bound <= 0x0400_0000_0000_0000_0000_0000_0000,
            pow2(106) == 0x0400_0000_0000_0000_0000_0000_0000,
        decreases 107 - s,
    {
        proof {
            lemma_pow2_unfold((s + 1) as nat);
            assert(pow2(s as nat) <= num) by (nonlinear_arith)
                requires
                    num == ma * pow2(s as nat),
                    ma >= 1,
            ;
            assert(num * 2 == ma * pow2((s + 1) as nat)) by (nonlinear_arith)
                requires
                    num == ma * pow2(s as nat),
                    pow2((s + 1) as nat) == 2 * pow2(s as nat),
            ;
        }
        num = num * 2;
        s = s + 1;
    }
    let q: u128 = num / mb as u128;
    let inexact = num % mb as u128 != 0;
    proof {
        lemma_fundamental_div_mod(num as int, mb as int);
        assert(q >= 0x0020_0000_0000_0000) by (nonlinear_arith)
            requires
                num == mb * q + num % (mb as u128),
                num % (mb as u128) < mb,
                num >= mb * 0x0020_0000_0000_0000,
        ;
        assert(q <= num) by (nonlinear_arith)
            requires
                num == mb * q + num % (mb as u128),
                num % (mb as u128) >= 0,
                mb >= 1,
        ;
        let i = (ka + UNIT_SCALE - s) as nat;
        lemma_pow2_adds(s as nat, i);
        lemma_pow2_adds(ka as nat, UNIT_SCALE as nat);
        assert(magnitude(a as nat) * pow2(UNIT_SCALE as nat) == num * pow2(i)) by (nonlinear_arith)
            requires
                magnitude(a as nat) == ma * pow2(ka as nat),
                num == ma * pow2(s as nat),
                pow2(s as nat) * pow2(i) == pow2(ka as nat) * pow2(UNIT_SCALE as nat),
        ;
        lemma_rounded_scaled(num as nat, mb as nat, i, kb as nat);
    }
    let e: i32 = ka as i32 + UNIT_SCALE as i32 - s as i32 - kb as i32;
    round_scaled(q, inexact, e, Ghost(num as nat), Ghost(mb as nat))
}

/// Converts a whole number.
pub fn from_whole(n: u64) -> (r: Option<u64>)
    ensures
        r == whole_of(n),
{
    proof {
        lemma_rounded_scaled(n as nat, 1, UNIT_SCALE as nat, 0);
    }
    round_scaled(n as u128, false, UNIT_SCALE as i32, Ghost(n as nat), Ghost(1))
}

/// Of two numbers that lie equally near to `n / d` units, [`nearest`] is the even one.
pub proof fn lemma_ties_to_even(n: nat, d: nat, other: nat)
    requires
        d > 0,
        other != nearest(n, d),
        distance((magnitude(nearest(n, d)) * d) as int, n as int) == distance(
            (magnitude(other) * d) as int,
            n as int,
        ),
    ensures
        nearest(n, d) % 2 == 0,
{
    let bits = nearest(n, d);
    let k = lemma_some_binade(n, d);
    let spacing = d * pow2(k);
    lemma_pow2_pos(k);
    assert(spacing > 0) by (nonlinear_arith)
        requires
            spacing == d * pow2(k),
            d > 0,
            pow2(k) > 0,
    ;
    lemma_nearest_at(n, d, k);
    let q = n / spacing;
    let rest = n % spacing;
    lemma_fundamental_div_mod(n as int, spacing as int);
    assert(q < 0x0020_0000_0000_0000) by (nonlinear_arith)
        requires
            n == spacing * q + rest,
            n < 0x0020_0000_0000_0000 * spacing,
            rest >= 0,
    ;
    if k > 0 {
        assert(q >= 0x0010_0000_0000_0000) by (nonlinear_arith)
            requires
                n == spacing * q + rest,
                n >= 0x0010_0000_0000_0000 * spacing,
                rest < spacing,
        ;
    }
    let low = k * 0x0010_0000_0000_0000 + q;
    lemma_pattern(k, q);
    lemma_pattern(k, q + 1);
    assert(magnitude(low) * d == q * spacing) by (nonlinear_arith)
        requires
            magnitude(low) == q * pow2(k),
            spacing == d * pow2(k),
    ;
    assert(magnitude(low + 1) * d == (q + 1) * spacing) by (nonlinear_arith)
        requires
            magnitude(low + 1) == (q + 1) * pow2(k),
            spacing == d * pow2(k),
    ;
    assert((q + 1) * spacing == q * spacing + spacing) by (nonlinear_arith);
    assert(q * spacing == spacing * q) by (nonlinear_arith);
    if other < low {
        lemma_order_strict(other, low);
        assert(magnitude(other) * d < magnitude(low) * d) by (nonlinear_arith)
            requires
                magnitude(other) < magnitude(low),
                d > 0,
        ;
    } else if other > low + 1 {
        lemma_order_strict(low + 1, other);
        assert(magnitude(low + 1) * d < magnitude(other) * d) by (nonlinear_arith)
            requires
                magnitude(low + 1) < magnitude(other),
                d > 0,
        ;
    }
}

/// What rounds to no finite number lies beyond the largest one.
proof fn lemma_beyond(n: nat, d: nat)
    requires
        d > 0,
        rounded(n, d) is None,
    ensures
        n > magnitude((INFINITE - 1) as nat) * d,
{
    if n <= magnitude((INFINITE - 1) as nat) * d {
        lemma_rounded_below(n, d, (INFINITE - 1) as u64);
    }
}

/// The sum of two numbers is the number nearest to the exact sum, and infinite only where
/// that lies beyond the largest number.
pub proof fn lemma_sum_is_nearest(a: u64, b: u64, other: nat)
    ensures
        match sum_of(a, b) {
            Some(sum) => distance(
                magnitude(sum as nat) as int,
                (magnitude(a as nat) + magnitude(b as nat)) as int,
            ) <= distance(
                magnitude(other) as int,
                (magnitude(a as nat) + magnitude(b as nat)) as int,
            ),
            None => magnitude(a as nat) + magnitude(b as nat) > magnitude((INFINITE - 1) as nat),
        },
{
    let n = magnitude(a as nat) + magnitude(b as nat);
    lemma_nearest(n, 1, other);
    if sum_of(a, b) is None {
        lemma_beyond(n, 1);
    }
}

/// The difference of two numbers is the number nearest to the exact difference.
pub proof fn lemma_difference_is_nearest(a: u64, b: u64, other: nat)
    requires
        b <= a < INFINITE,
    ensures
        difference_of(a, b) is Some,
        distance(
            magnitude(difference_of(a, b)->0 as nat) as int,
            magnitude(a as nat) - magnitude(b as nat),
        ) <= distance(magnitude(other) as int, magnitude(a as nat) - magnitude(b as nat)),
{
    lemma_order(b as nat, a as nat);
    let n = (magnitude(a as nat) - magnitude(b as nat)) as nat;
    lemma_nearest(n, 1, other);
    lemma_rounded_below(n, 1, a);
}

/// The product of two numbers is the number nearest to the exact product, and infinite only
/// where that lies beyond the largest number.
pub proof fn lemma_product_is_nearest(a: u64, b: u64, other: nat)
    ensures
        match product_of(a, b) {
            Some(product) => distance(
                (magnitude(product as nat) * pow2(UNIT_SCALE as nat)) as int,
                (magnitude(a as nat) * magnitude(b as nat)) as int,
            ) <= distance(
                (magnitude(other) * pow2(UNIT_SCALE as nat)) as int,
                (magnitude(a as nat) * magnitude(b as nat)) as int,
            ),
            None => magnitude(a as nat) * magnitude(b as nat) > magnitude((INFINITE - 1) as nat)
                * pow2(UNIT_SCALE as nat),
        },
{
    lemma_pow2_pos(UNIT_SCALE as nat);
    let n = magnitude(a as nat) * magnitude(b as nat);
    lemma_nearest(n, pow2(UNIT_SCALE as nat), other);
    if product_of(a, b) is None {
        lemma_beyond(n, pow2(UNIT_SCALE as nat));
    }
}

/// The quotient of two numbers is the number nearest to the exact quotient, and infinite
/// only where that lies beyond the largest number. There is none by zero.
pub proof fn lemma_quotient_is_nearest(a: u64, b: u64, other: nat)
    ensures
        magnitude(b as nat) == 0 ==> quotient_of(a, b) is None,
        magnitude(b as nat) > 0 ==> match quotient_of(a, b) {
            Some(quotient) => distance(
                (magnitude(quotient as nat) * magnitude(b as nat)) as int,
                (magnitude(a as nat) * pow2(UNIT_SCALE as nat)) as int,
            ) <= distance(
                (magnitude(other) * magnitude(b as nat)) as int,
                (magnitude(a as nat) * pow2(UNIT_SCALE as nat)) as int,
            ),
            None => magnitude(a as nat) * pow2(UNIT_SCALE as nat) > magnitude(
                (INFINITE - 1) as nat,
            ) * magnitude(b as nat),
        },
{
    let n = magnitude(a as nat) * pow2(UNIT_SCALE as nat);
    if magnitude(b as nat) > 0 {
        lemma_nearest(n, magnitude(b as nat), other);
        if quotient_of(a, b) is None {
            lemma_beyond(n, magnitude(b as nat));
        }
    }
}

/// A whole number becomes the number nearest to it.
pub proof fn lemma_whole_is_nearest(n: u64, other: nat)
    ensures
        whole_of(n) is Some,
        distance(
            magnitude(whole_of(n)->0 as nat) as int,
            (n as nat * pow2(UNIT_SCALE as nat)) as int,
        ) <= distance(magnitude(other) as int, (n as nat * pow2(UNIT_SCALE as nat)) as int),
{
    lemma_whole_finite(n);
    lemma_nearest(n as nat * pow2(UNIT_SCALE as nat), 1, other);
}

} // verus!
