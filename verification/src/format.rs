//! Iteration counts written for people: exact below ten thousand, otherwise in
//! thousands, millions or billions, as the `f64` division and fixed-precision
//! formatting of the count show them.
use vstd::prelude::*;
use crate::text::{decimal, digit_char, digit_of, push_decimal};

verus! {

pub open spec fn two_pow(k: nat) -> nat
    decreases k,
{
    if k == 0 {
        1
    } else {
        2 * two_pow((k - 1) as nat)
    }
}

/// Number of binary digits of `n` (0 for zero).
pub open spec fn bit_length(n: nat) -> nat
    decreases n,
{
    if n == 0 {
        0
    } else {
        1 + bit_length(n / 2)
    }
}

/// The integer nearest to `num / den`; halves go to the even neighbour.
pub open spec fn round_half_even(num: nat, den: nat) -> nat {
    let q = num / den;
    let r = num % den;
    if 2 * r < den {
        q
    } else if 2 * r > den {
        q + 1
    } else if q % 2 == 0 {
        q
    } else {
        q + 1
    }
}

/// The value of `n as f64`: `n` rounded to 53 significant bits, halves to the
/// even neighbour.
pub open spec fn to_binary64(n: nat) -> nat {
    if bit_length(n) <= 53 {
        n
    } else {
        let s = (bit_length(n) - 53) as nat;
        round_half_even(n, two_pow(s)) * two_pow(s)
    }
}

/// Tenths that `{:.1}` shows of the `f64` nearest to `n / (10 * unit)`, for a
/// quotient between 1 and 10. A quotient ending in 5 hundredths is `(2m + 1) /
/// 20` (`m` whole tenths). When 5 divides `2m + 1` it is a binary64 value and
/// an exact tie, which goes to the even number of tenths. Otherwise it rounds
/// up exactly when its nearest binary64 value lies above it, which is when
/// `(2m + 1) * 2^(50 - e)` leaves 3 or 4 modulo 5 (`2^e` the binade of the
/// quotient).
pub open spec fn shown_tenths(n: nat, unit: nat) -> nat {
    let m = n / unit;
    let r = n % unit;
    if 2 * r < unit {
        m
    } else if 2 * r > unit {
        m + 1
    } else if (2 * m + 1) % 5 == 0 {
        if m % 2 == 0 {
            m
        } else {
            m + 1
        }
    } else {
        let e = (bit_length(n / (10 * unit)) - 1) as nat;
        if ((2 * m + 1) * two_pow((50 - e) as nat)) % 5 >= 3 {
            m + 1
        } else {
            m
        }
    }
}

/// The integer that `{:.0}` shows of the `f64` quotient of the binary64 value
/// `m` by `unit`: the quotient becomes the half `k + 1/2` (and then the even
/// neighbour) when it lies within half a unit in the last place of it,
/// otherwise the nearest integer.
pub open spec fn shown_whole(m: nat, unit: nat) -> nat {
    let k = m / unit;
    let e = (bit_length(k) - 1) as nat;
    let twice = 2 * m;
    let half = (2 * k + 1) * unit;
    let dist: nat = if twice >= half {
        (twice - half) as nat
    } else {
        (half - twice) as nat
    };
    if dist * two_pow((52 - e) as nat) <= unit {
        if k % 2 == 0 {
            k
        } else {
            k + 1
        }
    } else {
        round_half_even(m, unit)
    }
}

/// `t` tenths with one decimal: `12` is `1.2`.
pub open spec fn tenths_text(t: nat) -> Seq<char> {
    decimal(t / 10) + seq!['.', digit_char(t % 10)]
}

/// The text of `iter_count(n)`.
pub open spec fn iter_count_text(n: nat) -> Seq<char> {
    if n < 10_000 {
        decimal(n) + " iterations"@
    } else if n < 1_000_000 {
        decimal(round_half_even(n, 1000)) + "k iterations"@
    } else if n < 10_000_000 {
        tenths_text(shown_tenths(n, 100_000)) + "M iterations"@
    } else if n < 1_000_000_000 {
        decimal(round_half_even(n, 1_000_000)) + "M iterations"@
    } else if n < 10_000_000_000 {
        tenths_text(shown_tenths(n, 100_000_000)) + "B iterations"@
    } else {
        decimal(shown_whole(to_binary64(n), 1_000_000_000)) + "B iterations"@
    }
}

fn round_half_even_exec(num: u128, den: u128) -> (r: u128)
    requires
        den > 0,
        num < 0x1_0000_0000_0000_0000_0000_0000,
        den < 0x1_0000_0000_0000_0000_0000_0000,
    ensures
        r == round_half_even(num as nat, den as nat),
{
    let q = num / den;
    let rem = num % den;
    if 2 * rem < den {
        q
    } else if 2 * rem > den {
        q + 1
    } else if q % 2 == 0 {
        q
    } else {
        q + 1
    }
}

pub proof fn lemma_two_pow_is_pow2(k: nat)
    ensures
        two_pow(k) == vstd::arithmetic::power2::pow2(k),
    decreases k,
{
    if k > 0 {
        lemma_two_pow_is_pow2((k - 1) as nat);
        vstd::arithmetic::power2::lemma_pow2_unfold(k);
    } else {
        vstd::arithmetic::power2::lemma2_to64();
    }
}

pub proof fn lemma_bit_length_bound(n: nat, k: nat)
    requires
        n < two_pow(k),
    ensures
        bit_length(n) <= k,
    decreases k,
{
    if n > 0 && k > 0 {
        lemma_bit_length_bound(n / 2, (k - 1) as nat);
    }
}

fn bit_length_exec(n: u128) -> (b: u128)
    requires
        n <= 0x1_0000_0000_0000_0000,
    ensures
        b == bit_length(n as nat),
        b <= 65,
{
    proof {
        lemma_two_pow_is_pow2(65);
        vstd::arithmetic::power2::lemma2_to64();
        vstd::arithmetic::power2::lemma_pow2_unfold(65);
        lemma_bit_length_bound(n as nat, 65);
    }
    let mut m = n;
    let mut b: u128 = 0;
    while m > 0
        invariant
            bit_length(n as nat) == b + bit_length(m as nat),
            b + bit_length(m as nat) <= 65,
        decreases m,
    {
        m = m / 2;
        b = b + 1;
    }
    b
}

fn two_pow_exec(k: u128) -> (p: u128)
    requires
        k <= 64,
    ensures
        p == two_pow(k as nat),
{
    proof {
        lemma_two_pow_is_pow2(64);
        vstd::arithmetic::power2::lemma2_to64();
    }
    let mut p: u128 = 1;
    let mut i: u128 = 0;
    while i < k
        invariant
            i <= k <= 64,
            p == two_pow(i as nat),
            two_pow(64) == 0x1_0000_0000_0000_0000,
        decreases k - i,
    {
        proof {
            lemma_two_pow_mono(i as nat + 1, 64);
        }
        p = p * 2;
        i = i + 1;
    }
    p
}

pub proof fn lemma_two_pow_mono(a: nat, b: nat)
    requires
        a <= b,
    ensures
        two_pow(a) <= two_pow(b),
        two_pow(a) >= 1,
    decreases b,
{
    if a < b {
        lemma_two_pow_mono(a, (b - 1) as nat);
    } else if a > 0 {
        lemma_two_pow_mono((a - 1) as nat, (a - 1) as nat);
    }
}

pub proof fn lemma_bit_length_lower(n: nat, k: nat)
    requires
        n >= two_pow(k),
    ensures
        bit_length(n) >= k + 1,
    decreases k,
{
    if k > 0 {
        lemma_bit_length_lower(n / 2, (k - 1) as nat);
    }
}

/// Tenths shown for `n / (10 * unit)`, a quotient between 1 and 10.
fn shown_tenths_exec(n: u64, unit: u64) -> (t: u64)
    requires
        unit > 0,
        10 * unit <= n < 100 * unit,
    ensures
        t == shown_tenths(n as nat, unit as nat),
        10 <= t <= 100,
{
    let m = n / unit;
    let r = n % unit;
    assert(10 <= m < 100) by (nonlinear_arith)
        requires
            m == n / unit,
            10 * unit <= n < 100 * unit,
            unit > 0,
    ;
    if 2 * (r as u128) < unit as u128 {
        m
    } else if 2 * (r as u128) > unit as u128 {
        m + 1
    } else if (2 * m + 1) % 5 == 0 {
        if m % 2 == 0 {
            m
        } else {
            m + 1
        }
    } else {
        let q10 = n / (10 * unit);
        assert(1 <= q10 < 10) by (nonlinear_arith)
            requires
                q10 == (n as int) / (10 * (unit as int)),
                10 * unit <= n < 100 * unit,
                unit > 0,
        ;
        let b = bit_length_exec(q10 as u128);
        proof {
            lemma_two_pow_is_pow2(4);
            vstd::arithmetic::power2::lemma2_to64();
            lemma_bit_length_bound(q10 as nat, 4);
            lemma_bit_length_lower(q10 as nat, 0);
        }
        let e = b - 1;
        let p = two_pow_exec(50 - e);
        proof {
            lemma_two_pow_mono((50 - e) as nat, 50);
            lemma_two_pow_is_pow2(50);
            vstd::arithmetic::power2::lemma2_to64_rest();
            assert(p <= 0x4_0000_0000_0000);
            assert((2 * m as u128 + 1) * p <= 199 * 0x4_0000_0000_0000) by (nonlinear_arith)
                requires
                    m < 100,
                    p <= 0x4_0000_0000_0000,
            ;
        }
        let x = (2 * m as u128 + 1) * p;
        if x % 5 >= 3 {
            m + 1
        } else {
            m
        }
    }
}

/// The value of `n as f64`, as an integer.
fn to_binary64_exec(n: u64) -> (v: u128)
    ensures
        v == to_binary64(n as nat),
        n as nat - 0x800 <= v <= n as nat + 0x800,
        n >= 10_000_000_000 ==> v >= 10_000_000_000,
{
    let b = bit_length_exec(n as u128);
    if b <= 53 {
        return n as u128;
    }
    proof {
        lemma_two_pow_is_pow2(64);
        lemma_two_pow_is_pow2(53);
        vstd::arithmetic::power2::lemma2_to64();
        vstd::arithmetic::power2::lemma2_to64_rest();
        lemma_bit_length_bound(n as nat, 64);
        if (n as nat) < two_pow(53) {
            lemma_bit_length_bound(n as nat, 53);
        }
    }
    let shift = b - 53;
    let p = two_pow_exec(shift);
    proof {
        lemma_two_pow_mono(shift as nat, 11);
        lemma_two_pow_is_pow2(11);
    }
    let q = round_half_even_exec(n as u128, p);
    proof {
        let qq = (n as nat) / (p as nat);
        assert(qq * p <= n && n < qq * p + p) by (nonlinear_arith)
            requires
                qq == (n as nat) / (p as nat),
                p > 0,
        ;
        assert(q == qq || q == qq + 1);
        assert(q * p <= n as nat + p) by (nonlinear_arith)
            requires
                q <= qq + 1,
                qq * p <= n,
        ;
        assert(q * p + p >= n as nat) by (nonlinear_arith)
            requires
                q >= qq,
                n < qq * p + p,
        ;
    }
    q * p
}

/// The integer shown for the `f64` quotient of `m` by a billion.
fn shown_whole_exec(m: u128) -> (w: u128)
    requires
        10_000_000_000 <= m <= 0x1_0000_0000_0000_0800,
    ensures
        w == shown_whole(m as nat, 1_000_000_000),
        w <= 0x1_0000_0000_0000_0000,
{
    let unit: u128 = 1_000_000_000;
    let k = m / unit;
    assert(10 <= k && k * unit <= m && m < k * unit + unit && k < 0x8_0000_0000) by (nonlinear_arith)
        requires
            k == m / unit,
            unit == 1_000_000_000,
            10_000_000_000 <= m <= 0x1_0000_0000_0000_0800,
    ;
    let b = bit_length_exec(k);
    proof {
        lemma_two_pow_is_pow2(35);
        lemma_two_pow_is_pow2(3);
        vstd::arithmetic::power2::lemma2_to64();
        vstd::arithmetic::power2::lemma2_to64_rest();
        lemma_bit_length_bound(k as nat, 35);
        lemma_bit_length_lower(k as nat, 3);
    }
    let e = b - 1;
    let twice = 2 * m;
    let half = (2 * k + 1) * unit;
    let dist = if twice >= half {
        twice - half
    } else {
        half - twice
    };
    assert(dist <= unit);
    let p = two_pow_exec(52 - e);
    proof {
        lemma_two_pow_mono((52 - e) as nat, 49);
        lemma_two_pow_is_pow2(49);
        vstd::arithmetic::power2::lemma2_to64_rest();
        assert(dist * p <= 1_000_000_000 * 0x2_0000_0000_0000) by (nonlinear_arith)
            requires
                dist <= 1_000_000_000,
                p <= 0x2_0000_0000_0000,
        ;
    }
    if dist * p <= unit {
        if k % 2 == 0 {
            k
        } else {
            k + 1
        }
    } else {
        round_half_even_exec(m, unit)
    }
}

/// Appends `t` tenths with one decimal.
fn push_tenths(s: &mut String, t: u64)
    ensures
        final(s)@ == old(s)@ + tenths_text(t as nat),
{
    push_decimal(s, t / 10);
    s.push('.');
    s.push(digit_of(t % 10));
    assert(final(s)@ =~= old(s)@ + tenths_text(t as nat));
}

/// A count of iterations written for people: exact below 10 000, then in
/// thousands (`k`), millions (`M`, with one decimal below 10 million) or
/// billions (`B`, with one decimal below 10 billion).
pub fn iter_count(iterations: u64) -> (r: String)
    ensures
        r@ == iter_count_text(iterations as nat),
{
    let n = iterations;
    let mut r = String::new();
    if n < 10_000 {
        push_decimal(&mut r, n);
        r.push_str(" iterations");
    } else if n < 1_000_000 {
        let v = round_half_even_exec(n as u128, 1000);
        assert(v <= 1000) by (nonlinear_arith)
            requires
                v <= (n as nat) / 1000 + 1,
                n < 1_000_000,
        ;
        push_decimal(&mut r, v as u64);
        r.push_str("k iterations");
    } else if n < 10_000_000 {
        let t = shown_tenths_exec(n, 100_000);
        push_tenths(&mut r, t);
        r.push_str("M iterations");
    } else if n < 1_000_000_000 {
        let v = round_half_even_exec(n as u128, 1_000_000);
        assert(v <= 1000) by (nonlinear_arith)
            requires
                v <= (n as nat) / 1_000_000 + 1,
                n < 1_000_000_000,
        ;
        push_decimal(&mut r, v as u64);
        r.push_str("M iterations");
    } else if n < 10_000_000_000 {
        let t = shown_tenths_exec(n, 100_000_000);
        push_tenths(&mut r, t);
        r.push_str("B iterations");
    } else {
        let m = to_binary64_exec(n);
        let w = shown_whole_exec(m);
        assert(w < 0x1_0000_0000_0000_0000) by {
            if w == 0x1_0000_0000_0000_0000 {
                assert(false);
            }
        }
        push_decimal(&mut r, w as u64);
        r.push_str("B iterations");
    }
    r
}

} // verus!
