//! Rounding to double precision, held in integers: the double nearest a positive
//! fraction, ties to an even significand, as IEEE 754 binary64 rounds.
use vstd::prelude::*;
use crate::decimal::{
    all_digits, digit_value, digits_value, halve, is_digit, lemma_char_code_injective,
    lemma_digits_bound, lemma_digits_split, lemma_pow10_adds, lemma_pow10_positive,
    lemma_power_adds, lemma_power_positive, lemma_zeros_value, mul_small, pow10, power,
};

verus! {

pub open spec fn pow2(k: nat) -> nat {
    power(2, k)
}

pub proof fn lemma_pow2_adds(x: nat, y: nat)
    ensures
        pow2(x + y) == pow2(x) * pow2(y),
{
    lemma_power_adds(2, x, y);
}

pub proof fn lemma_pow2_positive(k: nat)
    ensures
        pow2(k) >= 1,
{
    lemma_power_positive(2, k);
}

pub proof fn lemma_pow2_step(k: nat)
    ensures
        pow2(k + 1) == 2 * pow2(k),
{
    assert(power(2, k + 1) == 2 * power(2, ((k + 1) - 1) as nat));
}

pub proof fn lemma_pow2_monotone(x: nat, y: nat)
    requires
        x <= y,
    ensures
        pow2(x) <= pow2(y),
{
    lemma_pow2_adds(x, (y - x) as nat);
    lemma_pow2_positive((y - x) as nat);
    lemma_pow2_positive(x);
    let a = pow2(x);
    let b = pow2((y - x) as nat);
    assert(a * b >= a) by (nonlinear_arith)
        requires
            a >= 1,
            b >= 1,
    ;
}

/// The number of binary digits of `n`; 0 has none.
pub open spec fn bit_len(n: nat) -> nat
    decreases n,
{
    if n == 0 {
        0
    } else {
        1 + bit_len(n / 2)
    }
}

pub proof fn lemma_bit_len(n: nat)
    requires
        n >= 1,
    ensures
        bit_len(n) >= 1,
        pow2((bit_len(n) - 1) as nat) <= n < pow2(bit_len(n)),
    decreases n,
{
    if n == 1 {
        assert(bit_len(0) == 0);
        assert(bit_len(1) == 1);
        assert(pow2(0) == 1);
        lemma_pow2_step(0);
    } else {
        let h = n / 2;
        lemma_bit_len(h);
        let l = bit_len(h);
        assert(bit_len(n) == 1 + l);
        lemma_pow2_step((l - 1) as nat);
        lemma_pow2_step(l);
        assert(((l - 1) as nat + 1) == l);
        let p = pow2((l - 1) as nat);
        let q = pow2(l);
        assert(2 * h <= n < 2 * h + 2);
        assert(q <= n);
        assert(n < 2 * q);
    }
}

/// `a/b` is at least `2^e`.
pub open spec fn at_least_pow2(a: nat, b: nat, e: int) -> bool {
    if e >= 0 {
        a >= b * pow2(e as nat)
    } else {
        a * pow2((-e) as nat) >= b
    }
}

/// The exponent of the leading binary digit of `a/b`: the `e` with
/// `2^e <= a/b < 2^(e+1)` (see [`lemma_binade`]).
pub open spec fn binade(a: nat, b: nat) -> int {
    let k = bit_len(a) - bit_len(b);
    if at_least_pow2(a, b, k) {
        k
    } else {
        k - 1
    }
}

/// Below a power of two is below every higher one.
pub proof fn lemma_at_least_monotone(a: nat, b: nat, e1: int, e2: int)
    requires
        b >= 1,
        e1 <= e2,
        at_least_pow2(a, b, e2),
    ensures
        at_least_pow2(a, b, e1),
{
    if e1 >= 0 {
        lemma_pow2_monotone(e1 as nat, e2 as nat);
        let p1 = pow2(e1 as nat);
        let p2 = pow2(e2 as nat);
        assert(b * p1 <= b * p2) by (nonlinear_arith)
            requires
                p1 <= p2,
        ;
    } else if e2 >= 0 {
        lemma_pow2_positive(e2 as nat);
        lemma_pow2_positive((-e1) as nat);
        let p1 = pow2((-e1) as nat);
        let p2 = pow2(e2 as nat);
        assert(a * p1 >= b) by (nonlinear_arith)
            requires
                a >= b * p2,
                p1 >= 1,
                p2 >= 1,
                b >= 1,
        ;
    } else {
        lemma_pow2_monotone((-e2) as nat, (-e1) as nat);
        let p1 = pow2((-e1) as nat);
        let p2 = pow2((-e2) as nat);
        assert(a * p1 >= a * p2) by (nonlinear_arith)
            requires
                p1 >= p2,
        ;
    }
}

proof fn lemma_binade_bounds(a: nat, b: nat)
    requires
        a >= 1,
        b >= 1,
    ensures
        ({
            let k = bit_len(a) - bit_len(b);
            &&& at_least_pow2(a, b, k - 1)
            &&& !at_least_pow2(a, b, k + 1)
        }),
{
    lemma_bit_len(a);
    lemma_bit_len(b);
    let la = bit_len(a);
    let lb = bit_len(b);
    let k = la - lb;
    let pa1 = pow2((la - 1) as nat);
    let pa = pow2(la);
    let pb1 = pow2((lb - 1) as nat);
    let pb = pow2(lb);
    if k + 1 >= 0 {
        lemma_pow2_adds((lb - 1) as nat, (k + 1) as nat);
        assert((lb - 1) as nat + (k + 1) as nat == la);
        let e = pow2((k + 1) as nat);
        assert(b * e >= pb1 * e) by (nonlinear_arith)
            requires
                b >= pb1,
        ;
    } else {
        lemma_pow2_adds(la, (-(k + 1)) as nat);
        assert(la + (-(k + 1)) as nat == (lb - 1) as nat);
        let e = pow2((-(k + 1)) as nat);
        lemma_pow2_positive((-(k + 1)) as nat);
        assert(a * e < pa * e) by (nonlinear_arith)
            requires
                a < pa,
                e >= 1,
        ;
    }
    if k - 1 >= 0 {
        lemma_pow2_adds(lb, (k - 1) as nat);
        assert(lb + (k - 1) as nat == (la - 1) as nat);
        let e = pow2((k - 1) as nat);
        lemma_pow2_positive((k - 1) as nat);
        assert(b * e < pb * e) by (nonlinear_arith)
            requires
                b < pb,
                e >= 1,
        ;
    } else {
        lemma_pow2_adds((la - 1) as nat, (-(k - 1)) as nat);
        assert((la - 1) as nat + (-(k - 1)) as nat == lb);
        let e = pow2((-(k - 1)) as nat);
        assert(a * e >= pa1 * e) by (nonlinear_arith)
            requires
                a >= pa1,
        ;
    }
}

/// `2^binade(a, b) <= a/b < 2^(binade(a, b) + 1)`, and no other exponent has that.
pub proof fn lemma_binade(a: nat, b: nat, e: int)
    requires
        a >= 1,
        b >= 1,
    ensures
        at_least_pow2(a, b, binade(a, b)),
        !at_least_pow2(a, b, binade(a, b) + 1),
        at_least_pow2(a, b, e) && !at_least_pow2(a, b, e + 1) ==> e == binade(a, b),
{
    lemma_binade_bounds(a, b);
    let m = binade(a, b);
    if at_least_pow2(a, b, e) && !at_least_pow2(a, b, e + 1) {
        if e < m {
            lemma_at_least_monotone(a, b, e + 1, m);
        } else if e > m {
            lemma_at_least_monotone(a, b, m + 1, e);
        }
    }
}

/// `n/d` rounded to the nearest integer, ties to even.
pub open spec fn round_even(n: nat, d: nat) -> nat {
    let f = n / d;
    let r = n % d;
    if 2 * r < d {
        f
    } else if 2 * r > d {
        f + 1
    } else if f % 2 == 0 {
        f
    } else {
        f + 1
    }
}

/// Scaling both terms of a fraction does not move its rounding.
pub proof fn lemma_round_even_scale(n: nat, d: nat, c: nat)
    requires
        d >= 1,
        c >= 1,
    ensures
        round_even(n * c, d * c) == round_even(n, d),
{
    let f = n / d;
    let r = n % d;
    vstd::arithmetic::div_mod::lemma_fundamental_div_mod(n as int, d as int);
    assert(0 <= r < d);
    assert(n * c == f * (d * c) + r * c) by (nonlinear_arith)
        requires
            n == d * f + r,
    ;
    assert(0 <= r * c < d * c) by (nonlinear_arith)
        requires
            0 <= r < d,
            c >= 1,
    ;
    vstd::arithmetic::div_mod::lemma_fundamental_div_mod_converse(
        (n * c) as int,
        (d * c) as int,
        f as int,
        (r * c) as int,
    );
    assert(2 * (r * c) < d * c <==> 2 * r < d) by (nonlinear_arith)
        requires
            c >= 1,
    ;
    assert(2 * (r * c) > d * c <==> 2 * r > d) by (nonlinear_arith)
        requires
            c >= 1,
    ;
}

/// Where the last significand bit of a double near `a/b` sits: 52 bits below the
/// leading one, and never below `2^-1074`.
pub open spec fn quantum(a: nat, b: nat) -> int {
    let q = binade(a, b) - 52;
    if q < -1074 {
        -1074
    } else {
        q
    }
}

/// The double nearest the positive fraction `a/b`, ties to an even significand,
/// as its significand and exponent: the double is `m * 2^q`. Nothing caps the
/// exponent: where the result would be infinite is for the caller to rule out.
pub open spec fn to_double(a: nat, b: nat) -> (nat, int) {
    let q = quantum(a, b);
    if q >= 0 {
        (round_even(a, b * pow2(q as nat)), q)
    } else {
        (round_even(a * pow2((-q) as nat), b), q)
    }
}

/// `m * 2^q` rounded to the nearest integer, halves away from zero.
pub open spec fn round_half_away(m: nat, q: int) -> nat {
    if q >= 0 {
        m * pow2(q as nat)
    } else {
        (m + pow2((-q - 1) as nat)) / pow2((-q) as nat)
    }
}

/// What multiplying the positive amount `a/b` by 100 and rounding gives, done in
/// double precision: the amount is read as a double, the product is rounded to a
/// double, and that is rounded to an integer, halves away from zero.
pub open spec fn double_cents(a: nat, b: nat) -> nat {
    let (m, q) = to_double(a, b);
    let (m2, q2) = if q >= 0 {
        to_double(100 * m * pow2(q as nat), 1)
    } else {
        to_double(100 * m, pow2((-q) as nat))
    };
    round_half_away(m2, q2)
}

/// Below `2^k`, a number has at most `k` binary digits.
pub proof fn lemma_bit_len_below(n: nat, k: nat)
    requires
        n < pow2(k),
    ensures
        bit_len(n) <= k,
{
    if n >= 1 {
        lemma_bit_len(n);
        if bit_len(n) > k {
            lemma_pow2_monotone(k, (bit_len(n) - 1) as nat);
        }
    }
}

/// A digit string without a leading zero is empty exactly when it spells 0.
proof fn lemma_no_leading_zero(s: Seq<char>)
    requires
        all_digits(s),
        s.len() == 0 || digit_value(s[0]) > 0,
    ensures
        (s.len() == 0) == (digits_value(s) == 0),
{
    if s.len() > 0 {
        lemma_digits_bound(s);
        crate::decimal::lemma_pow10_positive((s.len() - 1) as nat);
    }
}

fn copy_digits(f: &Vec<char>) -> (r: Vec<char>)
    ensures
        r@ == f@,
{
    let mut r: Vec<char> = Vec::new();
    let mut i: usize = 0;
    while i < f.len()
        invariant
            i <= f@.len(),
            r@ == f@.take(i as int),
        decreases f.len() - i,
    {
        r.push(f[i]);
        assert(f@.take(i + 1) == f@.take(i as int).push(f@[i as int]));
        i += 1;
    }
    assert(f@.take(i as int) == f@);
    r
}

/// How many binary digits the number `f` spells.
pub fn bit_length(f: &Vec<char>) -> (b: u32)
    requires
        all_digits(f@),
        f@.len() == 0 || digit_value(f@[0]) > 0,
        digits_value(f@) < pow2(4000),
    ensures
        b == bit_len(digits_value(f@)),
{
    let mut g = copy_digits(f);
    let mut count: u32 = 0;
    proof {
        lemma_bit_len_below(digits_value(f@), 4000);
        lemma_no_leading_zero(g@);
    }
    while g.len() > 0
        invariant
            all_digits(g@),
            g@.len() == 0 || digit_value(g@[0]) > 0,
            (g@.len() == 0) == (digits_value(g@) == 0),
            count + bit_len(digits_value(g@)) == bit_len(digits_value(f@)),
            bit_len(digits_value(f@)) <= 4000,
        decreases digits_value(g@),
    {
        let (h, _odd) = halve(&g);
        proof {
            let v = digits_value(g@);
            assert(bit_len(v) == 1 + bit_len(v / 2));
            lemma_no_leading_zero(h@);
        }
        g = h;
        count += 1;
    }
    count
}

/// `f` divided by `2^t`, rounded down; whether the last bit shifted out was 1;
/// and whether any bit below that one was.
pub fn shift_right(f: &Vec<char>, t: u32) -> (r: (Vec<char>, bool, bool))
    requires
        all_digits(f@),
        t >= 1,
    ensures
        all_digits(r.0@),
        digits_value(r.0@) == digits_value(f@) / pow2(t as nat),
        r.1 == ((digits_value(f@) / pow2((t - 1) as nat)) % 2 == 1),
        r.2 == (digits_value(f@) % pow2((t - 1) as nat) != 0),
{
    let ghost n = digits_value(f@);
    let mut g = copy_digits(f);
    let mut sticky = false;
    let mut last_odd = false;
    let mut sticky_before = false;
    let mut i: u32 = 0;
    proof {
        assert(pow2(0) == 1);
        assert(n / 1 == n);
        assert(n % 1 == 0);
    }
    while i < t
        invariant
            i <= t,
            all_digits(g@),
            digits_value(g@) == n / pow2(i as nat),
            sticky == (n % pow2(i as nat) != 0),
            i >= 1 ==> last_odd == ((n / pow2((i - 1) as nat)) % 2 == 1),
            i >= 1 ==> sticky_before == (n % pow2((i - 1) as nat) != 0),
        decreases t - i,
    {
        let (h, odd) = halve(&g);
        proof {
            let p = pow2(i as nat);
            lemma_pow2_positive(i as nat);
            lemma_pow2_step(i as nat);
            vstd::arithmetic::div_mod::lemma_div_denominator(n as int, p as int, 2);
            vstd::arithmetic::div_mod::lemma_mod_breakdown(n as int, p as int, 2);
            let b = (n / p) % 2;
            let lo = n % p;
            assert(b < 2 && lo < p);
            assert(p * b + lo != 0 <==> (b != 0 || lo != 0)) by (nonlinear_arith)
                requires
                    p >= 1,
                    b >= 0,
                    lo >= 0,
            ;
            assert(((i + 1) - 1) as nat == i as nat);
        }
        sticky_before = sticky;
        last_odd = odd;
        sticky = sticky || odd;
        g = h;
        i += 1;
    }
    (g, last_odd, sticky_before)
}

/// For a whole `c`: `x` reaches `d * c` exactly when its quotient by `d` reaches `c`.
pub proof fn lemma_div_reaches(x: nat, d: nat, c: nat)
    requires
        d >= 1,
    ensures
        (x >= d * c) == (x / d >= c),
{
    vstd::arithmetic::div_mod::lemma_fundamental_div_mod(x as int, d as int);
    let q = x / d;
    let r = x % d;
    assert(0 <= r < d);
    if q >= c {
        assert(d * q >= d * c) by (nonlinear_arith)
            requires
                q >= c,
                d >= 1,
        ;
    } else {
        assert(d * q + d <= d * c) by (nonlinear_arith)
            requires
                q + 1 <= c,
                d >= 1,
        ;
    }
}

/// Scaled by `2^k`, a fraction is at least `2^e` exactly when the whole part of
/// its scaled value is at least `2^(e+k)`.
pub proof fn lemma_at_least_scaled(a: nat, b: nat, k: nat, e: int)
    requires
        b >= 1,
        e + k >= 0,
    ensures
        at_least_pow2(a, b, e) == ((a * pow2(k)) / b >= pow2((e + k) as nat)),
{
    let x = a * pow2(k);
    let ek = (e + k) as nat;
    lemma_div_reaches(x, b, pow2(ek));
    lemma_pow2_positive(k);
    if e >= 0 {
        lemma_pow2_adds(e as nat, k);
        assert(e as nat + k == ek);
        let pe = pow2(e as nat);
        let pk = pow2(k);
        assert((a >= b * pe) == (a * pk >= b * (pe * pk))) by (nonlinear_arith)
            requires
                pk >= 1,
        ;
    } else {
        let ne = (-e) as nat;
        lemma_pow2_adds(ne, ek);
        assert(ne + ek == k);
        let pn = pow2(ne);
        let pe = pow2(ek);
        lemma_pow2_positive(ek);
        assert((a * pn >= b) == (a * (pn * pe) >= b * pe)) by (nonlinear_arith)
            requires
                pe >= 1,
        ;
    }
}

/// Rounding `x / (d * 2^t)` from the whole part `f = x / d` and its bits: `m0`
/// is `f / 2^t`, `bit` the bit just below it, `low` what lies under that bit.
pub proof fn lemma_round_from_bits(x: nat, d: nat, t: nat)
    requires
        d >= 1,
        t >= 1,
    ensures
        ({
            let f = x / d;
            let m0 = f / pow2(t);
            let bit = (f / pow2((t - 1) as nat)) % 2;
            let low = f % pow2((t - 1) as nat);
            round_even(x, d * pow2(t)) == if bit == 0 {
                m0
            } else if low != 0 || x % d != 0 {
                m0 + 1
            } else if m0 % 2 == 0 {
                m0
            } else {
                m0 + 1
            }
        }),
{
    let f = x / d;
    let r0 = x % d;
    let h = pow2((t - 1) as nat);
    let p = pow2(t);
    lemma_pow2_step((t - 1) as nat);
    assert(((t - 1) as nat + 1) == t);
    assert(p == 2 * h);
    lemma_pow2_positive((t - 1) as nat);
    vstd::arithmetic::div_mod::lemma_fundamental_div_mod(x as int, d as int);
    vstd::arithmetic::div_mod::lemma_fundamental_div_mod(f as int, p as int);
    vstd::arithmetic::div_mod::lemma_mod_breakdown(f as int, h as int, 2);
    let m0 = f / p;
    let g = f % p;
    let bit = (f / h) % 2;
    let low = f % h;
    assert(g == h * bit + low);
    assert(0 <= low < h);
    assert(0 <= bit < 2);
    assert(0 <= r0 < d);
    let rr = d * g + r0;
    assert(x == (d * p) * m0 + rr) by (nonlinear_arith)
        requires
            x == d * f + r0,
            f == p * m0 + g,
            rr == d * g + r0,
    ;
    assert(0 <= rr < d * p) by (nonlinear_arith)
        requires
            rr == d * g + r0,
            0 <= r0 < d,
            0 <= g < p,
            d >= 1,
    ;
    assert(x == m0 * (d * p) + rr) by (nonlinear_arith)
        requires
            x == (d * p) * m0 + rr,
    ;
    vstd::arithmetic::div_mod::lemma_fundamental_div_mod_converse(
        x as int,
        (d * p) as int,
        m0 as int,
        rr as int,
    );
    if bit == 0 {
        assert(h * bit == 0) by (nonlinear_arith)
            requires
                bit == 0,
        ;
        assert(2 * rr < d * p) by (nonlinear_arith)
            requires
                rr == d * g + r0,
                g == low,
                0 <= low < h,
                0 <= r0 < d,
                p == 2 * h,
                d >= 1,
        ;
    } else {
        assert(bit == 1);
        assert(h * bit == h) by (nonlinear_arith)
            requires
                bit == 1,
        ;
        assert(2 * rr == d * p + 2 * (d * low + r0)) by (nonlinear_arith)
            requires
                rr == d * g + r0,
                g == h + low,
                p == 2 * h,
        ;
        assert(d * low + r0 != 0 <==> (low != 0 || r0 != 0)) by (nonlinear_arith)
            requires
                d >= 1,
                low >= 0,
                r0 >= 0,
        ;
    }
}

/// Nothing rounds to nothing.
pub proof fn lemma_round_zero_parts(d: nat, q: int)
    requires
        d >= 1,
    ensures
        round_even(0, d) == 0,
        round_half_away(0, q) == 0,
{
    assert(0nat / d == 0) by (nonlinear_arith)
        requires
            d >= 1,
    ;
    assert(0nat % d == 0) by (nonlinear_arith)
        requires
            d >= 1,
    ;
    if q < 0 {
        let s = (-q) as nat;
        lemma_pow2_step((s - 1) as nat);
        assert(((s - 1) as nat + 1) == s);
        lemma_pow2_positive((s - 1) as nat);
        let h = pow2((s - 1) as nat);
        assert((0 + h) / (2 * h) == 0) by (nonlinear_arith)
            requires
                h >= 1,
        ;
    } else {
        assert(0 * pow2(q as nat) == 0);
    }
}

/// The least amount that a double-precision read rounds to infinity:
/// 2^1024 - 2^970, halfway between the largest finite double and 2^1024.
pub open spec fn double_overflow() -> nat {
    (power(2, 1024) - power(2, 970)) as nat
}

pub proof fn lemma_double_overflow_large()
    ensures
        double_overflow() >= pow10(18),
        double_overflow() == power(2, 970) * 18014398509481983,
{
    assert(power(2, 54) == 18014398509481984nat) by {
        reveal_with_fuel(power, 55);
    }
    assert(power(2, 60) == 1152921504606846976nat) by {
        lemma_power_adds(2, 54, 6);
        reveal_with_fuel(power, 7);
    }
    assert(pow10(18) == 1000000000000000000nat) by {
        reveal_with_fuel(pow10, 19);
    }
    lemma_power_adds(2, 60, 910);
    lemma_power_adds(2, 970, 54);
    lemma_power_positive(2, 910);
    let p = power(2, 970);
    assert(p >= pow10(18)) by (nonlinear_arith)
        requires
            p == 1152921504606846976 * power(2, 910),
            power(2, 910) >= 1,
            pow10(18) == 1000000000000000000,
    ;
    assert(p * 18014398509481984 - p == p * 18014398509481983) by (nonlinear_arith);
}


pub proof fn lemma_double_overflow_range()
    ensures
        1 <= double_overflow() <= pow2(1024),
{
    lemma_double_overflow_large();
    lemma_pow10_positive(18);
    lemma_pow2_monotone(970, 1024);
}

/// `2^(3j) <= 10^j`.
pub proof fn lemma_pow2_below_pow10(j: nat)
    ensures
        pow2(3 * j) <= pow10(j),
    decreases j,
{
    if j > 0 {
        let j1 = (j - 1) as nat;
        lemma_pow2_below_pow10(j1);
        lemma_pow2_adds(3 * j1, 3);
        assert(3 * j1 + 3 == 3 * j);
        assert(pow2(3) == 8) by {
            reveal_with_fuel(power, 4);
        }
        assert(pow10(j) == 10 * pow10(j1));
        assert(pow2(3 * j1) * 8 <= 10 * pow10(j1)) by (nonlinear_arith)
            requires
                pow2(3 * j1) <= pow10(j1),
        ;
    } else {
        assert(pow2(0) == 1);
    }
}

/// `10^(3j) <= 2^(10j)`.
pub proof fn lemma_pow10_below_pow2(j: nat)
    ensures
        pow10(3 * j) <= pow2(10 * j),
    decreases j,
{
    if j > 0 {
        let j1 = (j - 1) as nat;
        lemma_pow10_below_pow2(j1);
        lemma_pow2_adds(10 * j1, 10);
        lemma_pow10_adds(3 * j1, 3);
        assert(10 * j1 + 10 == 10 * j);
        assert(3 * j1 + 3 == 3 * j);
        assert(pow2(10) == 1024) by {
            reveal_with_fuel(power, 11);
        }
        assert(pow10(3) == 1000) by {
            reveal_with_fuel(pow10, 4);
        }
        assert(pow10(3 * j1) * 1000 <= pow2(10 * j1) * 1024) by (nonlinear_arith)
            requires
                pow10(3 * j1) <= pow2(10 * j1),
        ;
    } else {
        assert(pow2(0) == 1);
    }
}

/// A leading part of a digit string spells no more than the whole.
pub proof fn lemma_prefix_le(s: Seq<char>, i: int)
    requires
        all_digits(s),
        0 <= i <= s.len(),
    ensures
        digits_value(s.take(i)) <= digits_value(s),
{
    assert(s == s.take(i) + s.skip(i));
    lemma_digits_split(s.take(i), s.skip(i));
    lemma_pow10_positive((s.len() - i) as nat);
    let a = digits_value(s.take(i));
    let p = pow10((s.len() - i) as nat);
    assert(a * p >= a) by (nonlinear_arith)
        requires
            p >= 1,
    ;
}

/// A digit string with a nonzero digit spells more than 0.
pub proof fn lemma_nonzero_digit(s: Seq<char>, k: int)
    requires
        all_digits(s),
        0 <= k < s.len(),
        s[k] != '0',
    ensures
        digits_value(s) > 0,
{
    let tail = s.skip(k);
    assert(s == s.take(k) + tail);
    lemma_digits_split(s.take(k), tail);
    assert(all_digits(tail)) by {
        assert forall|j: int| 0 <= j < tail.len() implies is_digit(#[trigger] tail[j]) by {
            assert(tail[j] == s[k + j]);
        }
    }
    assert(tail[0] == s[k]);
    assert(is_digit(s[k]));
    lemma_char_code_injective(s[k], '0');
    lemma_digits_bound(tail);
    lemma_pow10_positive((tail.len() - 1) as nat);
}

/// Reads a digit string whose value fits in 64 bits.
pub fn digits_to_u64(s: &Vec<char>) -> (r: u64)
    requires
        all_digits(s@),
        digits_value(s@) <= u64::MAX,
    ensures
        r == digits_value(s@),
{
    let mut acc: u64 = 0;
    let mut i: usize = 0;
    proof {
        assert(s@.take(0) =~= Seq::<char>::empty());
        assert(digits_value(Seq::<char>::empty()) == 0);
    }
    while i < s.len()
        invariant
            i <= s@.len(),
            all_digits(s@),
            digits_value(s@) <= u64::MAX,
            acc == digits_value(s@.take(i as int)),
        decreases s.len() - i,
    {
        proof {
            lemma_prefix_le(s@, i + 1);
            assert(s@.take(i + 1).drop_last() == s@.take(i as int));
            assert(s@.take(i + 1).last() == s@[i as int]);
            assert(is_digit(s@[i as int]));
        }
        let d = ((s[i] as u32) - 48) as u64;
        acc = acc * 10 + d;
        i += 1;
    }
    assert(s@.take(i as int) == s@);
    acc
}

/// `2^k` for `k <= 64`.
pub fn pow2_u128(k: u32) -> (r: u128)
    requires
        k <= 64,
    ensures
        r == pow2(k as nat),
{
    let mut r: u128 = 1;
    let mut i: u32 = 0;
    proof {
        assert(pow2(0) == 1);
        assert(pow2(64) == 0x1_0000_0000_0000_0000) by {
            reveal_with_fuel(power, 65);
        }
    }
    while i < k
        invariant
            i <= k,
            k <= 64,
            r == pow2(i as nat),
            pow2(64) == 0x1_0000_0000_0000_0000,
        decreases k - i,
    {
        proof {
            lemma_pow2_step(i as nat);
            lemma_pow2_monotone((i + 1) as nat, 64);
        }
        r = r * 2;
        i += 1;
    }
    r
}

/// How many binary digits `x` has.
pub fn bit_len_u64(x: u64) -> (b: u32)
    ensures
        b == bit_len(x as nat),
        b <= 64,
{
    let mut y = x;
    let mut count: u32 = 0;
    proof {
        lemma_bit_len_below(x as nat, 64);
        assert(pow2(64) == 0x1_0000_0000_0000_0000) by {
            reveal_with_fuel(power, 65);
        }
        lemma_bit_len_below(x as nat, 64);
    }
    while y > 0
        invariant
            count + bit_len(y as nat) == bit_len(x as nat),
            bit_len(x as nat) <= 64,
        decreases y,
    {
        assert(bit_len(y as nat) == 1 + bit_len((y / 2) as nat));
        y = y / 2;
        count += 1;
    }
    count
}

/// The amount `v * 10^e` as a fraction: its numerator...
pub open spec fn amount_num(v: nat, e: int) -> nat {
    if e >= 0 {
        v * pow10(e as nat)
    } else {
        v
    }
}

/// ... and its denominator.
pub open spec fn amount_den(e: int) -> nat {
    if e >= 0 {
        1
    } else {
        pow10((-e) as nat)
    }
}

/// Whether a run of digits spells 0.
fn all_zero(a: &Vec<char>, from: usize) -> (b: bool)
    requires
        all_digits(a@),
        from <= a@.len(),
    ensures
        b == (digits_value(a@.subrange(from as int, a@.len() as int)) == 0),
{
    let ghost s = a@.subrange(from as int, a@.len() as int);
    assert(all_digits(s)) by {
        assert forall|j: int| 0 <= j < s.len() implies is_digit(#[trigger] s[j]) by {
            assert(s[j] == a@[from + j]);
        }
    }
    let mut i = from;
    while i < a.len()
        invariant
            from <= i <= a@.len(),
            all_digits(s),
            s == a@.subrange(from as int, a@.len() as int),
            forall|j: int| 0 <= j < i - from ==> #[trigger] s[j] == '0',
        decreases a.len() - i,
    {
        if a[i] != '0' {
            assert(s[i - from] == a@[i as int]);
            proof {
                lemma_nonzero_digit(s, i - from);
            }
            return false;
        }
        assert(s[i - from] == a@[i as int]);
        i += 1;
    }
    proof {
        assert forall|j: int| 0 <= j < s.len() implies (#[trigger] s[j] as u32) == 48 by {
            assert(s[j] == '0');
        }
        lemma_zeros_value(s);
    }
    true
}

/// The whole part of `a * 10^e`, and whether nothing is left over.
fn scaled_whole(a: &Vec<char>, e: i128) -> (r: (Vec<char>, bool))
    requires
        all_digits(a@),
        a@.len() > 0,
        digit_value(a@[0]) > 0,
        e >= 0 ==> e <= 400 && a@.len() + 400 <= usize::MAX,
        e < 0 ==> -e < a@.len(),
    ensures
        all_digits(r.0@),
        r.0@.len() > 0,
        digit_value(r.0@[0]) > 0,
        digits_value(r.0@) == amount_num(digits_value(a@), e as int) / amount_den(e as int),
        r.1 == (amount_num(digits_value(a@), e as int) % amount_den(e as int) == 0),
{
    let ghost v = digits_value(a@);
    if e >= 0 {
        let mut f: Vec<char> = Vec::new();
        let mut i: usize = 0;
        while i < a.len()
            invariant
                i <= a@.len(),
                f@ == a@.take(i as int),
            decreases a.len() - i,
        {
            f.push(a[i]);
            assert(a@.take(i + 1) == a@.take(i as int).push(a@[i as int]));
            i += 1;
        }
        assert(a@.take(i as int) == a@);
        let ee = e as usize;
        let mut z: usize = 0;
        proof {
            assert(pow10(0) == 1);
        }
        while z < ee
            invariant
                z <= ee,
                ee <= 400,
                a@.len() + 400 <= usize::MAX,
                a@.len() > 0,
                f@.len() == a@.len() + z,
                all_digits(f@),
                f@[0] == a@[0],
                digits_value(f@) == v * pow10(z as nat),
            decreases ee - z,
        {
            let ghost before = f@;
            f.push('0');
            proof {
                assert(f@.drop_last() == before);
                assert(f@.last() == '0');
                assert(f@[0] == before[0]);
                assert forall|j: int| 0 <= j < f@.len() implies is_digit(#[trigger] f@[j]) by {
                    if j < before.len() {
                        assert(f@[j] == before[j]);
                    }
                }
                assert(pow10((z + 1) as nat) == 10 * pow10(z as nat));
                assert(v * pow10(z as nat) * 10 == v * (10 * pow10(z as nat))) by (nonlinear_arith);
            }
            z += 1;
        }
        proof {
            let x = v * pow10(ee as nat);
            assert(x / 1 == x);
            assert(x % 1 == 0);
        }
        (f, true)
    } else {
        let la = a.len();
        let d = (-e) as usize;
        let cut = la - d;
        let mut f: Vec<char> = Vec::new();
        let mut i: usize = 0;
        while i < cut
            invariant
                i <= cut,
                cut <= a@.len(),
                f@ == a@.take(i as int),
            decreases cut - i,
        {
            f.push(a[i]);
            assert(a@.take(i + 1) == a@.take(i as int).push(a@[i as int]));
            i += 1;
        }
        let whole = all_zero(a, cut);
        proof {
            let p = a@.take(cut as int);
            let rest = a@.subrange(cut as int, la as int);
            assert(a@ == p + rest);
            lemma_digits_split(p, rest);
            assert(all_digits(rest)) by {
                assert forall|j: int| 0 <= j < rest.len() implies is_digit(#[trigger] rest[j]) by {
                    assert(rest[j] == a@[cut + j]);
                }
            }
            lemma_digits_bound(rest);
            assert(rest.len() == d);
            assert(all_digits(p)) by {
                assert forall|j: int| 0 <= j < p.len() implies is_digit(#[trigger] p[j]) by {
                    assert(p[j] == a@[j]);
                }
            }
            assert(p[0] == a@[0]);
            vstd::arithmetic::div_mod::lemma_fundamental_div_mod_converse(
                v as int,
                pow10(d as nat) as int,
                digits_value(p) as int,
                digits_value(rest) as int,
            );
        }
        (f, whole)
    }
}

/// `p * 2^q` as a fraction: its numerator...
pub open spec fn shifted_num(p: nat, q: int) -> nat {
    if q >= 0 {
        p * pow2(q as nat)
    } else {
        p
    }
}

/// ... and its denominator.
pub open spec fn shifted_den(q: int) -> nat {
    if q >= 0 {
        1
    } else {
        pow2((-q) as nat)
    }
}

/// `p * 2^q` reaches `2^e` exactly when `p` reaches `2^(e - q)`.
pub proof fn lemma_at_least_shifted(p: nat, q: int, e: int)
    requires
        e >= q,
    ensures
        at_least_pow2(shifted_num(p, q), shifted_den(q), e) == (p >= pow2((e - q) as nat)),
{
    let d = (e - q) as nat;
    if q >= 0 {
        lemma_pow2_adds(d, q as nat);
        assert(d + q as nat == e as nat);
        lemma_pow2_positive(q as nat);
        let pq = pow2(q as nat);
        let pd = pow2(d);
        assert((p * pq >= 1 * (pd * pq)) == (p >= pd)) by (nonlinear_arith)
            requires
                pq >= 1,
        ;
    } else if e >= 0 {
        lemma_pow2_adds((-q) as nat, e as nat);
        assert((-q) as nat + e as nat == d);
    } else {
        lemma_pow2_adds(d, (-e) as nat);
        assert(d + (-e) as nat == (-q) as nat);
        lemma_pow2_positive((-e) as nat);
        let pe = pow2((-e) as nat);
        let pd = pow2(d);
        assert((p * pe >= pd * pe) == (p >= pd)) by (nonlinear_arith)
            requires
                pe >= 1,
        ;
    }
}

/// The nearest double to `p * 2^q` for a whole `p`, the quantum landing `t`
/// places above `q`: the significand is `p / 2^t` rounded to even.
pub proof fn lemma_second_to_double(p: nat, q: int, b: nat, t: nat)
    requires
        p >= 1,
        b == bit_len(p),
        q + t == (if b - 1 + q - 52 < -1074 {
            -1074
        } else {
            b - 1 + q - 52
        }),
    ensures
        to_double(shifted_num(p, q), shifted_den(q)) == (round_even(p, pow2(t)), q + t),
{
    let num = shifted_num(p, q);
    let den = shifted_den(q);
    lemma_pow2_positive(t);
    lemma_bit_len(p);
    lemma_pow2_positive((-q) as nat);
    lemma_pow2_positive(q as nat);
    assert(den >= 1);
    if q >= 0 {
        assert(num >= 1) by (nonlinear_arith)
            requires
                num == p * pow2(q as nat),
                p >= 1,
                pow2(q as nat) >= 1,
        ;
    }
    lemma_at_least_shifted(p, q, b - 1 + q);
    lemma_at_least_shifted(p, q, b + q);
    assert((b - 1 + q - q) as nat == (b - 1) as nat);
    assert((b + q - q) as nat == b);
    lemma_binade(num, den, b - 1 + q);
    assert(binade(num, den) == b - 1 + q);
    let q2 = q + t;
    assert(quantum(num, den) == q2);
    if q >= 0 {
        assert(q2 >= 0);
        lemma_pow2_adds(t, q as nat);
        assert(t + q as nat == q2 as nat);
        lemma_round_even_scale(p, pow2(t), pow2(q as nat));
        assert(den * pow2(q2 as nat) == pow2(t) * pow2(q as nat));
    } else if q2 >= 0 {
        lemma_pow2_adds((-q) as nat, q2 as nat);
        assert((-q) as nat + q2 as nat == t);
    } else {
        lemma_pow2_adds((-q2) as nat, t);
        assert((-q2) as nat + t == (-q) as nat);
        lemma_pow2_positive((-q2) as nat);
        lemma_round_even_scale(p, pow2(t), pow2((-q2) as nat));
        let c = pow2((-q2) as nat);
        let pt = pow2(t);
        assert(c * pt == pt * c) by (nonlinear_arith);
    }
}

/// The powers of two the rounding steps below compare against.
pub proof fn lemma_pow2_constants()
    ensures
        pow2(7) == 128,
        pow2(52) == 0x10_0000_0000_0000,
        pow2(53) == 0x20_0000_0000_0000,
        pow2(58) == 0x400_0000_0000_0000,
        pow2(60) == 0x1000_0000_0000_0000,
        pow2(62) == 0x4000_0000_0000_0000,
        pow2(63) == 0x8000_0000_0000_0000,
        pow2(64) == 0x1_0000_0000_0000_0000,
{
    assert(pow2(7) == 128) by {
        reveal_with_fuel(power, 8);
    }
    assert(pow2(52) == 0x10_0000_0000_0000) by {
        reveal_with_fuel(power, 53);
    }
    lemma_pow2_step(52);
    lemma_pow2_adds(52, 6);
    assert(pow2(6) == 64) by {
        reveal_with_fuel(power, 7);
    }
    lemma_pow2_step(58);
    lemma_pow2_step(59);
    lemma_pow2_step(60);
    lemma_pow2_step(61);
    lemma_pow2_step(62);
    lemma_pow2_step(63);
}

/// `p / 2^t` rounded to even, for `t <= 7`.
fn round_pow2(p: u64, t: u32) -> (r: u64)
    requires
        t <= 7,
        p < u64::MAX,
    ensures
        r == round_even(p as nat, pow2(t as nat)),
        r <= p + 1,
        p >= pow2(t as nat) ==> r >= 1,
{
    proof {
        lemma_pow2_constants();
        lemma_pow2_monotone(t as nat, 7);
        lemma_pow2_positive(t as nat);
    }
    let dd = pow2_u128(t) as u64;
    let fl = p / dd;
    let rm = p % dd;
    proof {
        lemma_div_reaches(p as nat, dd as nat, 1);
        assert(dd * 1 == dd);
        let pi = p as int;
        let di = dd as int;
        assert(pi / di <= pi) by (nonlinear_arith)
            requires
                di >= 1,
                pi >= 0,
        ;
    }
    if 2 * rm < dd {
        fl
    } else if 2 * rm > dd {
        fl + 1
    } else if fl % 2 == 0 {
        fl
    } else {
        fl + 1
    }
}

/// `m * 2^q` rounded to the nearest integer, halves away from zero, at most
/// `i64::MAX`.
fn cents_of_double(m: u64, q: i64) -> (r: i64)
    requires
        1 <= m <= 0x1000_0000_0000_0000,
        q >= -1074,
    ensures
        ({
            let c = round_half_away(m as nat, q as int);
            r == if c > i64::MAX {
                i64::MAX
            } else {
                c as i64
            }
        }),
{
    proof {
        lemma_pow2_constants();
    }
    if q >= 0 {
        if q >= 63 {
            proof {
                lemma_pow2_monotone(63, q as nat);
                let pq = pow2(q as nat);
                assert(m * pq >= pq) by (nonlinear_arith)
                    requires
                        m >= 1,
                ;
            }
            return i64::MAX;
        }
        let w = pow2_u128(q as u32);
        proof {
            lemma_pow2_monotone(q as nat, 62);
            assert((m as u128) * w <= 0x1000_0000_0000_0000 * 0x4000_0000_0000_0000) by (nonlinear_arith)
                requires
                    m <= 0x1000_0000_0000_0000,
                    w <= 0x4000_0000_0000_0000,
            ;
        }
        let c: u128 = (m as u128) * w;
        if c > 0x7fff_ffff_ffff_ffff {
            i64::MAX
        } else {
            c as i64
        }
    } else {
        let s = (-q) as u32;
        if s >= 64 {
            proof {
                let h = pow2((s - 1) as nat);
                lemma_pow2_step((s - 1) as nat);
                assert(((s - 1) as nat + 1) == s as nat);
                lemma_pow2_monotone(63, (s - 1) as nat);
                let hh = h as int;
                let mm = m as int;
                assert((mm + hh) / (2 * hh) == 0) by (nonlinear_arith)
                    requires
                        0 <= mm < hh,
                ;
            }
            return 0;
        }
        let h = pow2_u128(s - 1);
        let whole = pow2_u128(s);
        proof {
            lemma_pow2_step((s - 1) as nat);
            assert(((s - 1) as nat + 1) == s as nat);
            lemma_pow2_monotone(s as nat, 63);
            lemma_pow2_positive(s as nat);
        }
        let c: u128 = ((m as u128) + h) / whole;
        proof {
            let num = (m as u128 + h) as int;
            let den = whole as int;
            assert(num / den <= num) by (nonlinear_arith)
                requires
                    den >= 1,
                    num >= 0,
            ;
        }
        c as i64
    }
}

/// The cents of a double `m * 2^q`, once multiplied by 100 in double precision
/// and rounded, at most `i64::MAX`.
pub fn cents_of_product(m: u64, q: i64) -> (r: i64)
    requires
        1 <= m <= 0x20_0000_0000_0000,
        -1074 <= q <= 971,
        q > -1074 ==> m >= 0x10_0000_0000_0000,
    ensures
        ({
            let (m2, q2) = to_double(shifted_num((100 * m) as nat, q as int), shifted_den(q as int));
            let c = round_half_away(m2, q2);
            r == if c > i64::MAX {
                i64::MAX
            } else {
                c as i64
            }
        }),
{
    let p: u64 = 100 * m;
    let b2 = bit_len_u64(p);
    proof {
        lemma_pow2_constants();
        lemma_bit_len(p as nat);
        lemma_bit_len_below(p as nat, 60);
        if b2 <= 7 {
            lemma_pow2_monotone(b2 as nat, 7);
        }
        if q > -1074 && b2 <= 58 {
            lemma_pow2_monotone(b2 as nat, 58);
        }
    }
    let raw: i64 = (b2 as i64) - 53 + q;
    let q2: i64 = if raw < -1074 {
        -1074
    } else {
        raw
    };
    let t2 = (q2 - q) as u32;
    assert(t2 <= 7);
    proof {
        lemma_second_to_double(p as nat, q as int, b2 as nat, t2 as nat);
        lemma_pow2_monotone(t2 as nat, (b2 - 1) as nat);
    }
    let m2 = round_pow2(p, t2);
    cents_of_double(m2, q2)
}

/// `sig * 2^1400 * 10^e`: its whole part, and whether nothing is left over.
fn scaled_amount(sig: &Vec<char>, e: i128) -> (r: (Vec<char>, bool))
    requires
        all_digits(sig@),
        sig@.len() >= 1,
        digit_value(sig@[0]) > 0,
        sig@.len() <= isize::MAX,
        sig@.len() + e >= -400,
        e <= 400,
    ensures
        all_digits(r.0@),
        r.0@.len() > 0,
        digit_value(r.0@[0]) > 0,
        digits_value(r.0@) == (amount_num(digits_value(sig@), e as int) * pow2(1400)) / amount_den(
            e as int,
        ),
        r.1 == ((amount_num(digits_value(sig@), e as int) * pow2(1400)) % amount_den(e as int)
            == 0),
{
    let ghost v = digits_value(sig@);
    let n = sig.len();
    proof {
        lemma_pow2_constants();
    }
    let mut a = mul_small(sig, 0x4000_0000_0000_0000);
    let mut j: usize = 1;
    while j < 22
        invariant
            1 <= j <= 22,
            n == sig@.len(),
            n <= isize::MAX,
            all_digits(a@),
            a@.len() > 0,
            digit_value(a@[0]) > 0,
            a@.len() <= n + 20 * j,
            digits_value(a@) == v * pow2((62 * j) as nat),
            pow2(62) == 0x4000_0000_0000_0000,
        decreases 22 - j,
    {
        a = mul_small(&a, 0x4000_0000_0000_0000);
        proof {
            lemma_pow2_adds((62 * j) as nat, 62);
            assert((62 * j) as nat + 62 == (62 * (j + 1)) as nat);
            let x = pow2((62 * j) as nat);
            assert(v * x * 0x4000_0000_0000_0000 == v * (x * 0x4000_0000_0000_0000)) by (nonlinear_arith);
        }
        j += 1;
    }
    a = mul_small(&a, 68719476736);
    proof {
        assert(pow2(36) == 68719476736) by {
            reveal_with_fuel(power, 37);
        }
        lemma_pow2_adds(1364, 36);
        let x = pow2(1364);
        assert(v * x * 68719476736 == v * (x * 68719476736)) by (nonlinear_arith);
        assert(digits_value(a@) == v * pow2(1400));
        if e < 0 {
            lemma_digits_bound(sig@);
            lemma_digits_bound(a@);
            lemma_pow10_below_pow2(140);
            lemma_pow2_monotone(1400, 1400);
            lemma_pow10_adds((n - 1) as nat, 420);
            let lo = pow10((n - 1) as nat);
            assert(v * pow2(1400) >= lo * pow10(420)) by (nonlinear_arith)
                requires
                    v >= lo,
                    pow2(1400) >= pow10(420),
            ;
            if a@.len() <= n + 419 {
                crate::decimal::lemma_pow10_monotone(a@.len(), (n - 1 + 420) as nat);
            }
        }
    }
    let (f, whole) = scaled_whole(&a, e);
    proof {
        let p = pow2(1400);
        if e >= 0 {
            let z = pow10(e as nat);
            assert(v * p * z == v * z * p) by (nonlinear_arith);
        }
    }
    (f, whole)
}

/// The first rounding: the significand and exponent of the double nearest the
/// number whose whole part, scaled by `2^1400`, is `f` (`whole` if it had no
/// fractional part).
fn first_rounding(f: &Vec<char>, whole: bool) -> (r: (u64, i64))
    requires
        all_digits(f@),
        f@.len() > 0,
        digit_value(f@[0]) > 0,
        digits_value(f@) < pow2(2424),
    ensures
        ({
            let x = digits_value(f@);
            let b = bit_len(x);
            let q = if b - 1453 < -1074 {
                -1074
            } else {
                b - 1453
            };
            let t = (q + 1400) as nat;
            let m0 = x / pow2(t);
            let bit = (x / pow2((t - 1) as nat)) % 2;
            let low = x % pow2((t - 1) as nat);
            &&& r.1 == q
            &&& r.0 == if bit == 0 {
                m0
            } else if low != 0 || !whole {
                m0 + 1
            } else if m0 % 2 == 0 {
                m0
            } else {
                m0 + 1
            }
            &&& r.0 <= 0x20_0000_0000_0000
            &&& q > -1074 ==> r.0 >= 0x10_0000_0000_0000
            &&& b >= 1
            &&& b <= 2424
        }),
{
    let ghost x = digits_value(f@);
    proof {
        lemma_pow2_monotone(2424, 4000);
        lemma_digits_bound(f@);
        lemma_pow10_positive((f@.len() - 1) as nat);
        lemma_bit_len(x);
        lemma_bit_len_below(x, 2424);
        lemma_pow2_constants();
    }
    let b = bit_length(f);
    let raw: i64 = (b as i64) - 1453;
    let q: i64 = if raw < -1074 {
        -1074
    } else {
        raw
    };
    let t = (q + 1400) as u32;
    let (md, bit, low) = shift_right(f, t);
    proof {
        // the quotient has at most 53 bits
        lemma_pow2_monotone(b as nat, (t + 53) as nat);
        lemma_pow2_adds(t as nat, 53);
        lemma_pow2_positive(t as nat);
        lemma_div_reaches(x, pow2(t as nat), pow2(53));
        if q > -1074 {
            assert(t + 53 == b);
            lemma_pow2_adds(t as nat, 52);
            assert(t + 52 == b - 1);
            lemma_div_reaches(x, pow2(t as nat), pow2(52));
        }
    }
    let m0 = digits_to_u64(&md);
    let m: u64 = if !bit {
        m0
    } else if low || !whole {
        m0 + 1
    } else if m0 % 2 == 0 {
        m0
    } else {
        m0 + 1
    };
    (m, q)
}

/// The cents of the positive amount `sig * 10^e` as double precision computes
/// them (see [`double_cents`]), at most `i64::MAX`.
pub fn cents_in_double(sig: &Vec<char>, e: i128) -> (r: i64)
    requires
        all_digits(sig@),
        sig@.len() >= 1,
        digit_value(sig@[0]) > 0,
        sig@.len() <= isize::MAX,
        sig@.len() + e >= -400,
        amount_num(digits_value(sig@), e as int) < double_overflow() * amount_den(e as int),
    ensures
        ({
            let c = double_cents(
                amount_num(digits_value(sig@), e as int),
                amount_den(e as int),
            );
            r == if c > i64::MAX {
                i64::MAX
            } else {
                c as i64
            }
        }),
{
    let ghost v = digits_value(sig@);
    let ghost num = amount_num(v, e as int);
    let ghost den = amount_den(e as int);
    proof {
        lemma_digits_bound(sig@);
        lemma_pow10_positive((sig@.len() - 1) as nat);
        lemma_double_overflow_range();
        if e >= 0 {
            // the amount is below 2^1024 <= 2^1026 <= 10^342
            lemma_pow2_below_pow10(342);
            lemma_pow2_monotone(1024, 1026);
            let z = pow10(e as nat);
            assert(v * z >= z) by (nonlinear_arith)
                requires
                    v >= 1,
            ;
            if e > 400 {
                crate::decimal::lemma_pow10_monotone(342, e as nat);
            }
        } else {
            lemma_pow10_positive((-e) as nat);
        }
    }
    let (f, whole) = scaled_amount(sig, e);
    proof {
        let x = num * pow2(1400);
        lemma_pow2_positive(1400);
        lemma_pow2_adds(1024, 1400);
        assert(1024nat + 1400 == 2424);
        assert(x < den * pow2(2424)) by (nonlinear_arith)
            requires
                num < double_overflow() * den,
                double_overflow() <= pow2(1024),
                pow2(2424) == pow2(1024) * pow2(1400),
                x == num * pow2(1400),
                pow2(1400) >= 1,
        ;
        lemma_div_reaches(x, den, pow2(2424));
    }
    let (m, q) = first_rounding(&f, whole);
    proof {
        let x = num * pow2(1400);
        let fv = digits_value(f@);
        let b = bit_len(fv);
        let t = (q + 1400) as nat;
        if e >= 0 {
            lemma_pow10_positive(e as nat);
        }
        assert(num >= 1) by (nonlinear_arith)
            requires
                v >= 1,
                num == (if e >= 0 {
                    v * pow10(e as nat)
                } else {
                    v
                }),
                e >= 0 ==> pow10(e as nat) >= 1,
        ;
        // the leading bit
        lemma_bit_len(fv);
        lemma_at_least_scaled(num, den, 1400, b - 1 - 1400);
        lemma_at_least_scaled(num, den, 1400, b - 1400);
        assert((b - 1 - 1400 + 1400) as nat == (b - 1) as nat);
        assert((b - 1400 + 1400) as nat == b);
        lemma_binade(num, den, b - 1 - 1400);
        assert(quantum(num, den) == q);
        // the significand
        lemma_round_from_bits(x, den, t);
        lemma_pow2_positive(t);
        if q >= 0 {
            lemma_pow2_adds(q as nat, 1400);
            assert(q as nat + 1400 == t);
            lemma_pow2_positive(q as nat);
            assert(den * pow2(q as nat) >= 1) by (nonlinear_arith)
                requires
                    den >= 1,
                    pow2(q as nat) >= 1,
            ;
            lemma_round_even_scale(num, den * pow2(q as nat), pow2(1400));
            let a = den * pow2(q as nat);
            assert(a * pow2(1400) == den * pow2(t)) by (nonlinear_arith)
                requires
                    a == den * pow2(q as nat),
                    pow2(t) == pow2(q as nat) * pow2(1400),
            ;
        } else {
            lemma_pow2_adds((-q) as nat, t);
            assert((-q) as nat + t == 1400);
            lemma_round_even_scale(num * pow2((-q) as nat), den, pow2(t));
            let a = num * pow2((-q) as nat);
            assert(a * pow2(t) == x) by (nonlinear_arith)
                requires
                    a == num * pow2((-q) as nat),
                    pow2(1400) == pow2((-q) as nat) * pow2(t),
                    x == num * pow2(1400),
            ;
        }
        assert(to_double(num, den) == (m as nat, q as int));
    }
    if m == 0 {
        proof {
            if q < 0 {
                lemma_pow2_positive((-q) as nat);
            } else {
                lemma_pow2_positive(q as nat);
            }
            let num2 = shifted_num(0, q as int);
            let den2 = shifted_den(q as int);
            assert(num2 == 0);
            let (m2, q2) = to_double(num2, den2);
            if q2 < 0 {
                lemma_pow2_positive((-q2) as nat);
            } else {
                lemma_pow2_positive(q2 as nat);
            }
            let dd = if q2 >= 0 {
                den2 * pow2(q2 as nat)
            } else {
                den2
            };
            assert(dd >= 1) by (nonlinear_arith)
                requires
                    den2 >= 1,
                    q2 >= 0 ==> pow2(q2 as nat) >= 1,
                    dd == (if q2 >= 0 {
                        den2 * pow2(q2 as nat)
                    } else {
                        den2
                    }),
            ;
            assert(0 * pow2((-q2) as nat) == 0);
            lemma_round_zero_parts(dd, q2);
            if q >= 0 {
                assert(100 * 0 * pow2(q as nat) == 0);
            }
        }
        return 0;
    }
    cents_of_product(m, q)
}

/// A double of 0 stays 0 through the product and the final rounding.
pub proof fn lemma_product_of_zero(q: int)
    ensures
        ({
            let (m2, q2) = if q >= 0 {
                to_double(100 * 0 * pow2(q as nat), 1)
            } else {
                to_double(100 * 0, pow2((-q) as nat))
            };
            round_half_away(m2, q2) == 0
        }),
{
    let num2: nat = 0;
    let den2: nat = if q >= 0 {
        1
    } else {
        pow2((-q) as nat)
    };
    if q < 0 {
        lemma_pow2_positive((-q) as nat);
    } else {
        let pq = pow2(q as nat);
        assert(100 * 0 * pq == 0) by (nonlinear_arith);
    }
    let (m2, q2) = to_double(num2, den2);
    if q2 < 0 {
        lemma_pow2_positive((-q2) as nat);
        assert(0 * pow2((-q2) as nat) == 0);
        lemma_round_zero_parts(den2, q2);
    } else {
        lemma_pow2_positive(q2 as nat);
        let dd = den2 * pow2(q2 as nat);
        assert(dd >= 1) by (nonlinear_arith)
            requires
                den2 >= 1,
                pow2(q2 as nat) >= 1,
                dd == den2 * pow2(q2 as nat),
        ;
        lemma_round_zero_parts(dd, q2);
    }
}

/// No amount comes to no cents.
pub proof fn lemma_zero_amount(den: nat)
    requires
        den >= 1,
    ensures
        double_cents(0, den) == 0,
{
    let (m, q) = to_double(0, den);
    if q >= 0 {
        lemma_pow2_positive(q as nat);
        let dd = den * pow2(q as nat);
        assert(dd >= 1) by (nonlinear_arith)
            requires
                den >= 1,
                pow2(q as nat) >= 1,
                dd == den * pow2(q as nat),
        ;
        lemma_round_zero_parts(dd, q);
    } else {
        lemma_pow2_positive((-q) as nat);
        assert(0 * pow2((-q) as nat) == 0);
        lemma_round_zero_parts(den, q);
    }
    lemma_product_of_zero(q);
}

/// An amount below `10^-400` comes to no cents: its double is at most the
/// smallest subnormal's half, and rounds to 0.
pub proof fn lemma_tiny_amount(v: nat, n: nat, e: int)
    requires
        v < pow10(n),
        e < 0,
        n + e <= -401,
    ensures
        double_cents(amount_num(v, e), amount_den(e)) == 0,
{
    let num = amount_num(v, e);
    let den = amount_den(e);
    assert(num == v);
    lemma_pow10_positive((-e) as nat);
    let (m, q) = to_double(num, den);
    if v == 0 {
        lemma_zero_amount(den);
    } else {
        // v * 2^1075 < v * 10^401 <= 10^n * 10^401 <= den
        lemma_pow2_below_pow10(401);
        lemma_pow2_monotone(1075, 1203);
        lemma_pow2_positive(1075);
        crate::decimal::lemma_pow10_adds(n, 401);
        crate::decimal::lemma_pow10_monotone(n + 401, (-e) as nat);
        let big = pow2(1075);
        assert(v * big < pow10(n) * pow10(401)) by (nonlinear_arith)
            requires
                v < pow10(n),
                big <= pow10(401),
                v >= 1,
                big >= 1,
        ;
        assert(!at_least_pow2(num, den, -1075));
        lemma_binade(num, den, -1075);
        let b = binade(num, den);
        if b >= -1075 {
            lemma_at_least_monotone(num, den, -1075, b);
        }
        assert(quantum(num, den) == -1074);
        let x = v * pow2(1074);
        lemma_pow2_step(1074);
        assert(2 * x < den) by (nonlinear_arith)
            requires
                x == v * pow2(1074),
                v * pow2(1075) < den,
                pow2(1075) == 2 * pow2(1074),
        ;
        vstd::arithmetic::div_mod::lemma_fundamental_div_mod_converse(
            x as int,
            den as int,
            0,
            x as int,
        );
        assert(m == 0);
    }
    lemma_product_of_zero(q);
}

/// The overflow threshold has fewer than 343 decimal digits.
pub proof fn lemma_double_overflow_below()
    ensures
        double_overflow() < pow10(342),
{
    lemma_double_overflow_large();
    lemma_pow2_below_pow10(342);
    lemma_pow2_monotone(1024, 1026);
    lemma_pow2_positive(970);
    assert(power(2, 1024) >= power(2, 970)) by {
        lemma_pow2_monotone(970, 1024);
    }
}

/// The nearest-even rounding of `n/d` is within half of `d` of it.
pub proof fn lemma_round_even_close(n: nat, d: nat)
    requires
        d >= 1,
    ensures
        2 * n <= 2 * round_even(n, d) * d + d,
        2 * round_even(n, d) * d <= 2 * n + d,
        n / d <= round_even(n, d) <= n / d + 1,
{
    vstd::arithmetic::div_mod::lemma_fundamental_div_mod(n as int, d as int);
    let f = n / d;
    let r = n % d;
    let m = round_even(n, d);
    assert(0 <= r < d);
    assert(n == d * f + r);
    if m == f {
        assert(2 * r <= d);
        assert(2 * n <= 2 * m * d + d) by (nonlinear_arith)
            requires
                n == d * f + r,
                m == f,
                2 * r <= d,
        ;
        assert(2 * m * d <= 2 * n + d) by (nonlinear_arith)
            requires
                n == d * f + r,
                m == f,
                r >= 0,
        ;
    } else {
        assert(m == f + 1);
        assert(2 * r >= d);
        assert(2 * n <= 2 * m * d + d) by (nonlinear_arith)
            requires
                n == d * f + r,
                m == f + 1,
                r < d,
        ;
        assert(2 * m * d <= 2 * n + d) by (nonlinear_arith)
            requires
                n == d * f + r,
                m == f + 1,
                2 * r >= d,
        ;
    }
}

/// The double nearest `c / 100`, for whole cents below `2^50`: the significand
/// is `c * 2^s / 100` rounded to even, `s` places below the binary point.
proof fn lemma_hundredths_first(c: nat) -> (s: nat)
    requires
        1 <= c < pow2(50),
    ensures
        9 <= s <= 59,
        to_double(c, 100) == (round_even(c * pow2(s), 100), -(s as int)),
        pow2(52) <= (c * pow2(s)) / 100 < pow2(53),
{
    lemma_pow2_constants();
    assert(pow2(44) == 0x1000_0000_0000) by {
        reveal_with_fuel(power, 45);
    }
    assert(pow2(50) == 0x4_0000_0000_0000) by {
        reveal_with_fuel(power, 51);
    }
    let b = binade(c, 100);
    lemma_binade(c, 100, b);
    assert(at_least_pow2(c, 100, -7)) by {
        assert(c * pow2(7) >= 100);
    }
    if b < -7 {
        lemma_at_least_monotone(c, 100, b + 1, -7);
    }
    assert(!at_least_pow2(c, 100, 44));
    if b > 43 {
        lemma_at_least_monotone(c, 100, 44, b);
    }
    let s = (52 - b) as nat;
    lemma_at_least_scaled(c, 100, s, b);
    lemma_at_least_scaled(c, 100, s, b + 1);
    assert((b + s) as nat == 52);
    assert((b + 1 + s) as nat == 53);
    s
}

/// The last rounding of the round trip: a product within reach of `c * 2^s`
/// rounds back to `c`.
proof fn lemma_hundredths_last(c: nat, s: nat, m: nat, m2: nat, t2: nat)
    requires
        6 <= t2 <= 7,
        s >= t2 + 2,
        2 * (c * pow2(s)) <= 2 * m * 100 + 100,
        2 * m * 100 <= 2 * (c * pow2(s)) + 100,
        2 * (100 * m) <= 2 * m2 * pow2(t2) + pow2(t2),
        2 * m2 * pow2(t2) <= 2 * (100 * m) + pow2(t2),
    ensures
        round_half_away(m2, t2 - s) == c,
{
    let big_s = (s - t2) as nat;
    assert(-(t2 - s) == big_s);
    lemma_pow2_step((big_s - 1) as nat);
    assert(((big_s - 1) as nat + 1) == big_s);
    let h = pow2((big_s - 1) as nat);
    let w = pow2(big_s);
    lemma_pow2_adds(big_s, t2);
    assert(big_s + t2 == s);
    lemma_pow2_monotone(1, (big_s - 1) as nat);
    assert(pow2(1) == 2) by {
        reveal_with_fuel(power, 2);
    }
    lemma_pow2_step((t2 - 1) as nat);
    assert(((t2 - 1) as nat + 1) == t2);
    lemma_pow2_monotone(5, (t2 - 1) as nat);
    assert(pow2(5) == 32) by {
        reveal_with_fuel(power, 6);
    }
    let pt = pow2(t2);
    let ph = pow2((t2 - 1) as nat);
    let cs = c * pow2(s);
    assert(cs == c * (w * pt));
    assert(m2 * pt < cs + h * pt) by (nonlinear_arith)
        requires
            2 * m2 * pt <= 2 * (100 * m) + pt,
            2 * m * 100 <= 2 * cs + 100,
            pt == 2 * ph,
            ph >= 32,
            h >= 2,
            cs == c * (w * pt),
            w == 2 * h,
    ;
    assert(cs <= m2 * pt + h * pt) by (nonlinear_arith)
        requires
            2 * (100 * m) <= 2 * m2 * pt + pt,
            2 * cs <= 2 * m * 100 + 100,
            pt == 2 * ph,
            ph >= 32,
            h >= 2,
            cs == c * (w * pt),
            w == 2 * h,
    ;
    assert(c * w <= m2 + h) by (nonlinear_arith)
        requires
            c * (w * pt) <= m2 * pt + h * pt,
            pt >= 1,
    ;
    assert(m2 + h < (c + 1) * w) by (nonlinear_arith)
        requires
            m2 * pt < c * (w * pt) + h * pt,
            pt >= 1,
            w == 2 * h,
    ;
    assert((c + 1) * w == c * w + w) by (nonlinear_arith);
    vstd::arithmetic::div_mod::lemma_fundamental_div_mod_converse(
        (m2 + h) as int,
        w as int,
        c as int,
        (m2 + h - c * w) as int,
    );
}

proof fn lemma_pow2_50()
    ensures
        pow2(50) == 0x4_0000_0000_0000,
{
    reveal_with_fuel(power, 51);
}

/// An amount of whole cents, read as euros and multiplied back by 100 in double
/// precision, rounds to the same cents, up to `2^50` cents.
pub proof fn lemma_hundredths_round_trip(c: nat)
    requires
        c < 0x4_0000_0000_0000,
    ensures
        double_cents(c, 100) == c,
{
    lemma_pow2_50();
    if c == 0 {
        lemma_zero_amount(100);
        return;
    }
    lemma_pow2_constants();
    let s = lemma_hundredths_first(c);
    let q = -(s as int);
    let n = c * pow2(s);
    let m = round_even(n, 100);
    lemma_round_even_close(n, 100);
    let p = 100 * m;
    lemma_bit_len(p);
    let bl = bit_len(p);
    if bl <= 58 {
        lemma_pow2_monotone(bl, 58);
    }
    lemma_bit_len_below(p, 60);
    let t2 = (bl - 53) as nat;
    lemma_second_to_double(p, q, bl, t2);
    let m2 = round_even(p, pow2(t2));
    lemma_pow2_positive(t2);
    lemma_round_even_close(p, pow2(t2));
    lemma_hundredths_last(c, s, m, m2, t2);
}

} // verus!
