//! Money: integer cents in, French-formatted euros out, and the lenient reading
//! of what a person types into a price field.
use vstd::prelude::*;
use crate::decimal::{
    Decimal, all_digits, compare_padded, digit_value, digits_value, is_digit, is_exp_mark, is_point,
    lemma_digits_bound, lemma_digits_split, lemma_pow10_19, lemma_pow10_positive,
    lemma_scaled_aligned, lemma_scaled_above, lemma_scaled_below, lemma_single_digit,
    lemma_zeros_value, mul_small, parse_decimal, pow10, power, scaled_sign, sign_split,
};
use crate::double::{
    amount_den, amount_num, double_cents, double_overflow, lemma_double_overflow_below,
    lemma_double_overflow_large, lemma_hundredths_round_trip, lemma_tiny_amount, lemma_zero_amount,
};
use crate::order::lemma_first_index_is;
use crate::text::{chars_of, is_space, is_space_char, push_char, string_of};

verus! {

/// The character of a decimal digit.
pub open spec fn digit_char(d: nat) -> char {
    (48 + d) as char
}

/// `n` written in decimal, without leading zeros (`0` is `"0"`).
pub open spec fn decimal(n: nat) -> Seq<char>
    decreases n,
{
    if n < 10 {
        seq![digit_char(n)]
    } else {
        decimal(n / 10).push(digit_char(n % 10))
    }
}

/// `n` on exactly two digits, as `{:02}` writes a number below 100.
pub open spec fn two_digits(n: nat) -> Seq<char> {
    seq![digit_char(n / 10), digit_char(n % 10)]
}

/// How [`format_cents`] writes an amount: sign, euros, a comma, two digits of
/// cents, a space and the euro sign.
pub open spec fn cents_text(cents: int) -> Seq<char> {
    let a: nat = if cents < 0 {
        (-cents) as nat
    } else {
        cents as nat
    };
    (if cents < 0 {
        seq!['-']
    } else {
        Seq::<char>::empty()
    }) + decimal(a / 100) + seq![','] + two_digits(a % 100) + seq![' ', '\u{20ac}']
}

fn digit(d: u64) -> (c: char)
    requires
        d < 10,
    ensures
        c == digit_char(d as nat),
{
    ((48 + d) as u8) as char
}

/// Appends `n` in decimal.
fn push_decimal(s: &mut String, n: u64)
    ensures
        final(s)@ == old(s)@ + decimal(n as nat),
    decreases n,
{
    if n >= 10 {
        push_decimal(s, n / 10);
    }
    push_char(s, digit(n % 10));
    proof {
        if n >= 10 {
            assert(old(s)@ + decimal(n as nat) == old(s)@ + decimal((n / 10) as nat) + seq![
                digit_char((n % 10) as nat),
            ]);
        } else {
            assert(n % 10 == n);
        }
    }
}

/// `1234` -> `12,34 €`. The comma and the trailing symbol are French convention and
/// stay that way in the English locale too: the currency is the euro either way, and
/// a number that changes shape with the UI language is harder to compare, not easier.
pub fn format_cents(cents: i64) -> (s: String)
    requires
        cents > i64::MIN,
    ensures
        s@ == cents_text(cents as int),
{
    let mut s = String::new();
    if cents < 0 {
        push_char(&mut s, '-');
    }
    let a: u64 = if cents < 0 {
        (-cents) as u64
    } else {
        cents as u64
    };
    push_decimal(&mut s, a / 100);
    push_char(&mut s, ',');
    push_char(&mut s, digit((a % 100) / 10));
    push_char(&mut s, digit(a % 10));
    push_char(&mut s, ' ');
    push_char(&mut s, '\u{20ac}');
    proof {
        assert((a % 100) % 10 == a % 10);
    }
    s
}


/// Whether a character survives the cleaning of a typed number: whitespace always
/// goes, and in a price field the euro sign too.
pub open spec fn kept_in_number(drop_euro: bool) -> spec_fn(char) -> bool {
    |c: char| !is_space(c) && !(drop_euro && c == '\u{20ac}')
}

pub open spec fn point_for_comma(c: char) -> char {
    if c == ',' {
        '.'
    } else {
        c
    }
}

/// What is left of a typed number once the ignored characters are dropped and
/// every comma becomes a point.
pub open spec fn cleaned(s: Seq<char>, drop_euro: bool) -> Seq<char> {
    s.filter(kept_in_number(drop_euro)).map_values(|c: char| point_for_comma(c))
}

fn clean_chars(input: &str, drop_euro: bool) -> (r: Vec<char>)
    ensures
        r@ == cleaned(input@, drop_euro),
{
    let cs = chars_of(input);
    let ghost keep = kept_in_number(drop_euro);
    let mut out: Vec<char> = Vec::new();
    let mut i: usize = 0;
    while i < cs.len()
        invariant
            i <= cs@.len(),
            keep == kept_in_number(drop_euro),
            out@ == cs@.take(i as int).filter(keep).map_values(|c: char| point_for_comma(c)),
        decreases cs.len() - i,
    {
        let c = cs[i];
        let ghost before = cs@.take(i as int).filter(keep);
        proof {
            assert(cs@.take(i + 1) == cs@.take(i as int).push(c));
            cs@.take(i as int).lemma_filter_push(c, keep);
        }
        if !is_space_char(c) && !(drop_euro && c == '\u{20ac}') {
            let ghost prev = out@;
            out.push(if c == ',' { '.' } else { c });
            proof {
                assert(before.push(c).map_values(|c: char| point_for_comma(c)) =~= prev.push(
                    point_for_comma(c),
                ));
            }
        }
        i += 1;
    }
    assert(cs@.take(i as int) == cs@);
    out
}

/// What a quantity field holds once whitespace is dropped and decimal commas
/// become points — the text a float parser is then handed.
pub fn clean_quantity_input(input: &str) -> (r: String)
    ensures
        r@ == cleaned(input@, false),
{
    let cs = clean_chars(input, false);
    string_of(&cs)
}

/// The exponent is capped at this magnitude while it is read: beyond it, any
/// mantissa a string can hold is either far above or far below a cent.
pub const EXP_CAP: u128 = 0x40_0000_0000_0000_0000;

/// A number read off its characters.
struct NumberText {
    negative: bool,
    /// Every mantissa digit: the integer part, then the fraction.
    digits: Vec<char>,
    /// How many of `digits` follow the decimal point.
    frac_len: usize,
    exp_negative: bool,
    /// The exponent's magnitude, capped at [`EXP_CAP`].
    exp_magnitude: u128,
}

/// The shape every read number has.
spec fn number_wf(x: NumberText) -> bool {
    &&& all_digits(x.digits@)
    &&& x.frac_len <= x.digits@.len()
    &&& x.exp_magnitude <= EXP_CAP
}

/// `x` holds the digits and exponent of `d`.
spec fn reads_as(x: NumberText, d: Decimal) -> bool {
    let exp = x.frac_len - d.scale;
    &&& x.negative == d.negative
    &&& all_digits(x.digits@)
    &&& d.mantissa == digits_value(x.digits@)
    &&& x.frac_len <= x.digits@.len()
    &&& x.exp_negative ==> exp <= 0
    &&& !x.exp_negative ==> exp >= 0
    &&& x.exp_magnitude == if (if exp < 0 {
        -exp
    } else {
        exp
    }) >= EXP_CAP {
        EXP_CAP as int
    } else if exp < 0 {
        -exp
    } else {
        exp
    }
}

fn all_digits_in(t: &Vec<char>, from: usize, to: usize) -> (b: bool)
    requires
        from <= to <= t@.len(),
    ensures
        b == all_digits(t@.subrange(from as int, to as int)),
{
    let mut k = from;
    while k < to
        invariant
            from <= k <= to,
            to <= t@.len(),
            all_digits(t@.subrange(from as int, k as int)),
        decreases to - k,
    {
        if !(48 <= (t[k] as u32) && (t[k] as u32) <= 57) {
            assert(t@.subrange(from as int, to as int)[k - from] == t@[k as int]);
            return false;
        }
        assert forall|j: int| 0 <= j < k + 1 - from implies is_digit(
            #[trigger] t@.subrange(from as int, k + 1)[j],
        ) by {
            assert(t@.subrange(from as int, k + 1)[j] == t@[from + j]);
            if j < k - from {
                assert(t@.subrange(from as int, k as int)[j] == t@[from + j]);
            }
        }
        k += 1;
    }
    true
}

/// The first position in `from..to` holding `a` or `b`, or `to`.
fn find_either(t: &Vec<char>, from: usize, to: usize, a: char, b: char) -> (p: usize)
    requires
        from <= to <= t@.len(),
    ensures
        from <= p <= to,
        forall|k: int| from <= k < p ==> #[trigger] t@[k] != a && t@[k] != b,
        p < to ==> t@[p as int] == a || t@[p as int] == b,
{
    let mut p = from;
    while p < to && !(t[p] == a || t[p] == b)
        invariant
            from <= p <= to,
            to <= t@.len(),
            forall|k: int| from <= k < p ==> #[trigger] t@[k] != a && t@[k] != b,
        decreases to - p,
    {
        p += 1;
    }
    p
}

/// The digits of `t[from..to]` copied out.
fn copy_range(t: &Vec<char>, from: usize, to: usize, out: &mut Vec<char>)
    requires
        from <= to <= t@.len(),
    ensures
        final(out)@ == old(out)@ + t@.subrange(from as int, to as int),
{
    let mut k = from;
    while k < to
        invariant
            from <= k <= to,
            to <= t@.len(),
            out@ == old(out)@ + t@.subrange(from as int, k as int),
        decreases to - k,
    {
        out.push(t[k]);
        assert(t@.subrange(from as int, k + 1) == t@.subrange(from as int, k as int).push(
            t@[k as int],
        ));
        k += 1;
    }
}

/// The magnitude `digits_value(s)` capped at [`EXP_CAP`].
pub open spec fn capped(v: nat) -> nat {
    if v >= EXP_CAP {
        EXP_CAP as nat
    } else {
        v
    }
}

/// Reads the exponent `t[from..]`: an optional sign then at least one digit.
fn read_exponent(t: &Vec<char>, from: usize) -> (r: Option<(bool, u128)>)
    requires
        from <= t@.len(),
    ensures
        ({
            let (neg, digits) = sign_split(t@.subrange(from as int, t@.len() as int));
            match r {
                None => !(digits.len() > 0 && all_digits(digits)),
                Some((n, m)) => n == neg && digits.len() > 0 && all_digits(digits) && m == capped(
                    digits_value(digits),
                ),
            }
        }),
{
    let len = t.len();
    let mut j = from;
    let mut negative = false;
    if j < len && (t[j] == '+' || t[j] == '-') {
        negative = t[j] == '-';
        j += 1;
    }
    assert(sign_split(t@.subrange(from as int, len as int)) == (negative, t@.subrange(
        j as int,
        len as int,
    )));
    if j == len {
        return None;
    }
    let mut magnitude: u128 = 0;
    let mut k = j;
    while k < len
        invariant
            j <= k <= len,
            from <= j,
            len == t@.len(),
            sign_split(t@.subrange(from as int, len as int)) == (negative, t@.subrange(
                j as int,
                len as int,
            )),
            all_digits(t@.subrange(j as int, k as int)),
            magnitude == capped(digits_value(t@.subrange(j as int, k as int))),
        decreases len - k,
    {
        let c = t[k];
        if !(48 <= (c as u32) && (c as u32) <= 57) {
            assert(t@.subrange(j as int, len as int)[k - j] == c);
            return None;
        }
        let ghost prefix = t@.subrange(j as int, k as int);
        let ghost next = t@.subrange(j as int, k + 1);
        proof {
            assert(next.drop_last() == prefix);
            assert(next.last() == c);
            assert forall|i: int| 0 <= i < next.len() implies is_digit(#[trigger] next[i]) by {
                if i < prefix.len() {
                    assert(next[i] == prefix[i]);
                }
            }
        }
        let dv = ((c as u32) - 48) as u128;
        if magnitude < EXP_CAP {
            let grown = magnitude * 10 + dv;
            magnitude = if grown >= EXP_CAP {
                EXP_CAP
            } else {
                grown
            };
        }
        k += 1;
    }
    Some((negative, magnitude))
}

/// Reads `t` as [`parse_decimal`] does.
#[verifier::rlimit(60)]
fn read_number(t: &Vec<char>) -> (r: Option<NumberText>)
    ensures
        match r {
            None => parse_decimal(t@) is None,
            Some(x) => number_wf(x) && x.digits@.len() <= t@.len() && (parse_decimal(t@) matches Some(
                d,
            ) && reads_as(x, d)),
        },
{
    let len = t.len();
    let mut start: usize = 0;
    let mut negative = false;
    if len > 0 && (t[0] == '+' || t[0] == '-') {
        negative = t[0] == '-';
        start = 1;
    }
    let ghost body = t@.skip(start as int);
    assert(sign_split(t@) == (negative, body));
    let e = find_either(t, start, len, 'e', 'E');
    proof {
        assert forall|k: int| 0 <= k < e - start implies !is_exp_mark()(#[trigger] body[k]) by {
            assert(body[k] == t@[start + k]);
        }
        if e < len {
            assert(body[e - start] == t@[e as int]);
        }
        lemma_first_index_is(body, is_exp_mark(), e - start);
    }
    let ghost mant = body.take(e - start);
    assert(mant == t@.subrange(start as int, e as int));
    let d = find_either(t, start, e, '.', '.');
    proof {
        assert forall|k: int| 0 <= k < d - start implies !is_point()(#[trigger] mant[k]) by {
            assert(mant[k] == t@[start + k]);
        }
        if d < e {
            assert(mant[d - start] == t@[d as int]);
        }
        lemma_first_index_is(mant, is_point(), d - start);
    }
    let frac_start = if d < e {
        d + 1
    } else {
        e
    };
    let ghost int_part = mant.take(d - start);
    let ghost frac = if d < e {
        mant.skip(d - start + 1)
    } else {
        Seq::<char>::empty()
    };
    assert(int_part == t@.subrange(start as int, d as int));
    assert(frac == t@.subrange(frac_start as int, e as int));
    let ghost exp_text = if e < len {
        body.skip(e - start + 1)
    } else {
        Seq::<char>::empty()
    };
    let ghost parsed = parse_decimal(t@);
    if !all_digits_in(t, start, d) || !all_digits_in(t, frac_start, e) {
        return None;
    }
    if d - start + (e - frac_start) == 0 {
        return None;
    }
    let mut exp_negative = false;
    let mut magnitude: u128 = 0;
    if e < len {
        assert(exp_text == t@.subrange(e + 1, len as int));
        match read_exponent(t, e + 1) {
            None => {
                return None;
            },
            Some((n, m)) => {
                exp_negative = n;
                magnitude = m;
            },
        }
    }
    let mut digits: Vec<char> = Vec::new();
    copy_range(t, start, d, &mut digits);
    copy_range(t, frac_start, e, &mut digits);
    let x = NumberText {
        negative,
        digits,
        frac_len: e - frac_start,
        exp_negative,
        exp_magnitude: magnitude,
    };
    proof {
        assert(x.digits@ == int_part + frac);
        assert(all_digits(x.digits@)) by {
            assert forall|i: int| 0 <= i < x.digits@.len() implies is_digit(#[trigger] x.digits@[i]) by {
                if i < int_part.len() {
                    assert(x.digits@[i] == int_part[i]);
                } else {
                    assert(x.digits@[i] == frac[i - int_part.len()]);
                }
            }
        }
    }
    Some(x)
}

/// A double-precision read of `d` is infinite: `d` is at least [`double_overflow`].
pub open spec fn reads_as_infinite(d: Decimal) -> bool {
    scaled_sign(d.mantissa, -d.scale, double_overflow(), 0) >= 0
}

/// A double-precision read of `d` is zero: `d` is at most half the least positive
/// double, 2^-1075, which is 5^1075 / 10^1075.
pub open spec fn reads_as_zero(d: Decimal) -> bool {
    scaled_sign(d.mantissa, -d.scale, power(5, 1075), -1075) <= 0
}

/// The cents a typed amount comes to, all in double precision: `None` when the
/// amount reads as infinite, or as a negative number other than zero; `Some(0)`
/// for a negative amount so small that it reads as zero; otherwise the amount
/// read as a double, times 100 rounded to a double, rounded to a whole number
/// halves away from zero (see [`double_cents`]), at most `i64::MAX`.
pub open spec fn cents_of_decimal(d: Decimal) -> Option<i64> {
    if reads_as_infinite(d) {
        None
    } else if d.negative && d.mantissa > 0 {
        if reads_as_zero(d) {
            Some(0)
        } else {
            None
        }
    } else {
        let c = double_cents(amount_num(d.mantissa, -d.scale), amount_den(-d.scale));
        Some(
            if c > i64::MAX {
                i64::MAX
            } else {
                c as i64
            },
        )
    }
}

/// What [`parse_price_to_cents`] returns for `input`.
pub open spec fn price_cents_of(input: Seq<char>) -> Option<i64> {
    match parse_decimal(cleaned(input, true)) {
        None => None,
        Some(d) => cents_of_decimal(d),
    }
}

/// The digits of [`double_overflow`].
fn overflow_digits() -> (r: Vec<char>)
    ensures
        all_digits(r@),
        r@.len() > 0,
        digit_value(r@[0]) > 0,
        r@.len() <= 30000,
        digits_value(r@) == double_overflow(),
{
    let mut v: Vec<char> = Vec::new();
    v.push('1');
    proof {
        lemma_single_digit('1');
    }
    let mut i: usize = 0;
    while i < 970
        invariant
            i <= 970,
            all_digits(v@),
            v@.len() > 0,
            digit_value(v@[0]) > 0,
            v@.len() <= 1 + 20 * i,
            digits_value(v@) == power(2, i as nat),
        decreases 970 - i,
    {
        v = mul_small(&v, 2);
        assert(power(2, (i + 1) as nat) == 2 * power(2, i as nat));
        i += 1;
    }
    let r = mul_small(&v, 18014398509481983);
    proof {
        lemma_double_overflow_large();
    }
    r
}

/// The significant digits of half the least positive double: 5^1075.
fn half_least_double_digits() -> (r: Vec<char>)
    ensures
        all_digits(r@),
        r@.len() > 0,
        digit_value(r@[0]) > 0,
        r@.len() <= 30000,
        digits_value(r@) == power(5, 1075),
{
    let mut v: Vec<char> = Vec::new();
    v.push('1');
    proof {
        lemma_single_digit('1');
    }
    let mut i: usize = 0;
    while i < 1075
        invariant
            i <= 1075,
            all_digits(v@),
            v@.len() > 0,
            digit_value(v@[0]) > 0,
            v@.len() <= 1 + 20 * i,
            digits_value(v@) == power(5, i as nat),
        decreases 1075 - i,
    {
        v = mul_small(&v, 5);
        assert(power(5, (i + 1) as nat) == 5 * power(5, i as nat));
        i += 1;
    }
    v
}

/// The exponent a read number carries, as read.
spec fn read_exponent_of(x: NumberText) -> int {
    if x.exp_negative {
        -(x.exp_magnitude as int)
    } else {
        x.exp_magnitude as int
    }
}

/// A nonzero number's leading zeros and significant digits.
proof fn lemma_significant(x: NumberText, z: int)
    requires
        number_wf(x),
        0 <= z < x.digits@.len(),
        forall|k: int| 0 <= k < z ==> (#[trigger] x.digits@[k] as u32) == 48,
        (x.digits@[z] as u32) != 48,
    ensures
        ({
            let sig = x.digits@.skip(z);
            &&& all_digits(sig)
            &&& digit_value(sig[0]) > 0
            &&& digits_value(x.digits@) == digits_value(sig)
            &&& pow10((sig.len() - 1) as nat) <= digits_value(sig) < pow10(sig.len())
        }),
{
    let zeros = x.digits@.take(z);
    let sig = x.digits@.skip(z);
    assert(all_digits(sig)) by {
        assert forall|i: int| 0 <= i < sig.len() implies is_digit(#[trigger] sig[i]) by {
            assert(sig[i] == x.digits@[z + i]);
        }
    }
    assert(sig[0] == x.digits@[z]);
    assert(is_digit(x.digits@[z]));
    assert(x.digits@ == zeros + sig);
    assert forall|k: int| 0 <= k < zeros.len() implies (#[trigger] zeros[k] as u32) == 48 by {
        assert(zeros[k] == x.digits@[k]);
    }
    lemma_digits_split(zeros, sig);
    lemma_zeros_value(zeros);
    assert(0 * pow10(sig.len()) == 0);
    lemma_digits_bound(sig);
}

/// Where a nonzero read number stands against `t * 10^et`, whichever decimal it
/// reads as: the sign of the difference.
fn against(x: &NumberText, z: usize, ni: i128, t: &Vec<char>, et: i128) -> (r: i8)
    requires
        number_wf(*x),
        z < x.digits@.len(),
        forall|k: int| 0 <= k < z ==> (#[trigger] x.digits@[k] as u32) == 48,
        (x.digits@[z as int] as u32) != 48,
        ni == (x.digits@.len() - z) - x.frac_len + read_exponent_of(*x),
        all_digits(t@),
        t@.len() > 0,
        digit_value(t@[0]) > 0,
        t@.len() <= 30000,
        -2000 <= et <= 0,
    ensures
        forall|d: Decimal| #[trigger] reads_as(*x, d) ==> r as int == scaled_sign(
            d.mantissa,
            -d.scale,
            digits_value(t@),
            et as int,
        ),
{
    let n_all = x.digits.len();
    let n = n_all - z;
    let ghost sig = x.digits@.skip(z as int);
    let ghost v = digits_value(sig);
    let ghost tv = digits_value(t@);
    proof {
        lemma_significant(*x, z as int);
        lemma_digits_bound(t@);
    }
    let m = t.len() as i128;
    proof {
        assert forall|d: Decimal| #[trigger] reads_as(*x, d) implies ({
            let nt = n - d.scale;
            &&& ni > m + et ==> nt > m + et
            &&& ni < m + et ==> nt < m + et
            &&& ni == m + et ==> nt == ni
            &&& d.mantissa == v
        }) by {}
    }
    if ni > m + et {
        proof {
            assert forall|d: Decimal| #[trigger] reads_as(*x, d) implies 1 == scaled_sign(
                d.mantissa,
                -d.scale,
                tv,
                et as int,
            ) by {
                lemma_scaled_above(v, (n - 1) as nat, -d.scale, tv, m as nat, et as int);
            }
        }
        return 1;
    }
    if ni < m + et {
        proof {
            assert forall|d: Decimal| #[trigger] reads_as(*x, d) implies -1 == scaled_sign(
                d.mantissa,
                -d.scale,
                tv,
                et as int,
            ) by {
                lemma_scaled_below(v, n as nat, -d.scale, tv, (m - 1) as nat, et as int);
            }
        }
        return -1;
    }
    let mut s: Vec<char> = Vec::new();
    copy_range(&x.digits, z, n_all, &mut s);
    assert(s@ == sig);
    let r = compare_padded(&s, t);
    proof {
        assert forall|d: Decimal| #[trigger] reads_as(*x, d) implies r as int == scaled_sign(
            d.mantissa,
            -d.scale,
            tv,
            et as int,
        ) by {
            lemma_scaled_aligned(sig, -d.scale, t@, et as int);
        }
    }
    r
}

/// Below the overflow threshold, as a fraction.
proof fn lemma_finite_amount(v: nat, e: int)
    requires
        scaled_sign(v, e, double_overflow(), 0) < 0,
    ensures
        amount_num(v, e) < double_overflow() * amount_den(e),
{
    assert(pow10(0) == 1);
    assert(v * 1 == v);
    assert(double_overflow() * 1 == double_overflow());
    if e < 0 {
        let p = pow10((-e) as nat);
        assert(double_overflow() * p == p * double_overflow()) by (nonlinear_arith);
    }
}

proof fn lemma_zero_below(ev: int, t: nat, et: int)
    requires
        t >= 1,
    ensures
        scaled_sign(0, ev, t, et) == -1,
{
    let g = if ev <= et {
        ev
    } else {
        et
    };
    crate::decimal::lemma_pow10_positive((et - g) as nat);
    assert(0 * pow10((ev - g) as nat) == 0);
    assert(t * pow10((et - g) as nat) >= 1) by (nonlinear_arith)
        requires
            t >= 1,
            pow10((et - g) as nat) >= 1,
    ;
}

/// The cents a read number stands for, as [`cents_of_decimal`] states it.
#[verifier::spinoff_prover]
#[verifier::rlimit(40)]
fn cents_of_number(x: &NumberText) -> (r: Option<i64>)
    requires
        number_wf(*x),
        x.digits@.len() <= isize::MAX,
    ensures
        forall|d: Decimal| #[trigger] reads_as(*x, d) ==> r == cents_of_decimal(d),
{
    let n_all = x.digits.len();
    let mut z: usize = 0;
    while z < n_all && (x.digits[z] as u32) == 48
        invariant
            z <= n_all,
            n_all == x.digits@.len(),
            forall|k: int| 0 <= k < z ==> (#[trigger] x.digits@[k] as u32) == 48,
        decreases n_all - z,
    {
        z += 1;
    }
    let ghost zeros = x.digits@.take(z as int);
    let ghost sig = x.digits@.skip(z as int);
    proof {
        assert(all_digits(sig)) by {
            assert forall|i: int| 0 <= i < sig.len() implies is_digit(#[trigger] sig[i]) by {
                assert(sig[i] == x.digits@[z + i]);
            }
        }
        if z < n_all {
            assert(sig[0] == x.digits@[z as int]);
            assert((x.digits@[z as int] as u32) != 48);
            assert(is_digit(sig[0]));
            assert(digit_value(sig[0]) > 0);
        }
        assert(x.digits@ == zeros + sig);
        assert forall|k: int| 0 <= k < zeros.len() implies (#[trigger] zeros[k] as u32) == 48 by {
            assert(zeros[k] == x.digits@[k]);
        }
        lemma_digits_split(zeros, sig);
        lemma_zeros_value(zeros);
        assert(0 * pow10(sig.len()) == 0);
        assert(digits_value(x.digits@) == digits_value(sig));
    }
    if z == n_all {
        proof {
            assert(sig.len() == 0);
            lemma_double_overflow_large();
            lemma_pow10_positive(18);
            assert forall|d: Decimal| #[trigger] reads_as(*x, d) implies Some(0i64) == cents_of_decimal(d) by {
                lemma_zero_below(-d.scale, double_overflow(), 0);
                lemma_pow10_positive(d.scale as nat);
                lemma_pow10_positive((-d.scale) as nat);
                assert(amount_num(0, -d.scale) == 0);
                lemma_zero_amount(amount_den(-d.scale));
            }
        }
        return Some(0);
    }
    let n = n_all - z;
    proof {
        assert forall|d: Decimal| #[trigger] reads_as(*x, d) implies all_digits(sig) by {
            assert forall|i: int| 0 <= i < sig.len() implies is_digit(#[trigger] sig[i]) by {
                assert(sig[i] == x.digits@[z + i]);
            }
        }
    }
    let exp: i128 = if x.exp_negative {
        -(x.exp_magnitude as i128)
    } else {
        x.exp_magnitude as i128
    };
    let k: i128 = n as i128 - x.frac_len as i128 + exp + 2;
    proof {
        assert forall|d: Decimal| #[trigger] reads_as(*x, d) implies ({
            let kt = n - d.scale + 2;
            &&& k >= 20 ==> kt >= 20
            &&& k < 20 ==> kt <= k
            &&& 0 <= k < 20 ==> kt == k
        }) by {}
    }
    let ghost d0 = Decimal {
        negative: x.negative,
        mantissa: digits_value(x.digits@),
        scale: x.frac_len - exp,
    };
    assert(reads_as(*x, d0));
    if k >= 20 {
        let c = overflow_digits();
        let s = against(x, z, k - 2, &c, 0);
        if s >= 0 {
            return None;
        }
        proof {
            lemma_significant(*x, z as int);
            lemma_double_overflow_below();
            if k - 2 > 343 {
                lemma_scaled_above(
                    digits_value(sig),
                    (n - 1) as nat,
                    -d0.scale,
                    double_overflow(),
                    342,
                    0,
                );
            }
        }
    } else {
        proof {
            lemma_double_overflow_large();
            lemma_significant(*x, z as int);
            assert forall|d: Decimal| #[trigger] reads_as(*x, d) implies !reads_as_infinite(d) by {
                lemma_scaled_below(
                    digits_value(sig),
                    n as nat,
                    -d.scale,
                    double_overflow(),
                    18,
                    0,
                );
            }
        }
    }
    if x.negative {
        let t = half_least_double_digits();
        let s = against(x, z, k - 2, &t, -1075);
        proof {
            lemma_significant(*x, z as int);
            lemma_pow10_positive((n - 1) as nat);
        }
        if s <= 0 {
            return Some(0);
        }
        return None;
    }
    // A positive amount that no double-precision read makes infinite.
    assert(k - 2 <= 343);
    if k - 2 < -400 {
        proof {
            lemma_significant(*x, z as int);
            assert forall|d: Decimal| #[trigger] reads_as(*x, d) implies Some(0i64) == cents_of_decimal(
                d,
            ) by {
                lemma_tiny_amount(d.mantissa, n as nat, -d.scale);
            }
        }
        return Some(0);
    }
    let mut sig_v: Vec<char> = Vec::new();
    copy_range(&x.digits, z, n_all, &mut sig_v);
    let e10: i128 = exp - (x.frac_len as i128);
    proof {
        assert(sig_v@ == sig);
        lemma_significant(*x, z as int);
        assert(x.exp_magnitude < EXP_CAP);
        assert forall|d: Decimal| #[trigger] reads_as(*x, d) implies d == d0 by {}
        assert(!reads_as_infinite(d0));
        lemma_finite_amount(digits_value(sig), e10 as int);
    }
    let c = crate::double::cents_in_double(&sig_v, e10);
    proof {
        assert forall|d: Decimal| #[trigger] reads_as(*x, d) implies Some(c) == cents_of_decimal(d) by {
            assert(d == d0);
        }
    }
    Some(c)
}

/// Parses what a human types into a price field: `2,45`, `2.45`, `2` or `2,45 €`.
/// Returns `None` for anything that isn't a non-negative amount, so the form can
/// refuse it rather than silently store a zero.
///
/// The text is read as a double-precision number, sign, exponent and all; an
/// amount that the read makes infinite or negative is refused. The cents are that
/// double times 100, rounded to a double, then to a whole number of cents (halves
/// away from zero), at most `i64::MAX`: `2,445` reads as 2.44499999999999984...,
/// which comes to 244 cents.
pub fn parse_price_to_cents(input: &str) -> (r: Option<i64>)
    requires
        input@.len() <= isize::MAX,
    ensures
        r == price_cents_of(input@),
{
    let t = clean_chars(input, true);
    proof {
        input@.lemma_filter_len(kept_in_number(true));
    }
    match read_number(&t) {
        None => None,
        Some(x) => cents_of_number(&x),
    }
}


proof fn lemma_digit_char(d: nat)
    requires
        d < 10,
    ensures
        is_digit(digit_char(d)),
        digit_value(digit_char(d)) == d,
{
    assert((48 + d) as char as u32 == 48 + d);
}

proof fn lemma_decimal_digits(n: nat)
    ensures
        all_digits(decimal(n)),
        digits_value(decimal(n)) == n,
        decimal(n).len() > 0,
    decreases n,
{
    if n < 10 {
        lemma_digit_char(n);
        assert(decimal(n).drop_last() =~= Seq::<char>::empty());
        assert(digits_value(Seq::<char>::empty()) == 0);
        assert(decimal(n).last() == digit_char(n));
        assert(digits_value(decimal(n)) == 0 * 10 + n);
    } else {
        lemma_decimal_digits(n / 10);
        lemma_digit_char(n % 10);
        let d = decimal(n);
        assert(d.drop_last() == decimal(n / 10));
        assert(d.last() == digit_char(n % 10));
        assert(digits_value(d) == (n / 10) * 10 + n % 10);
        assert forall|k: int| 0 <= k < d.len() implies is_digit(#[trigger] d[k]) by {
            if k < d.len() - 1 {
                assert(d[k] == decimal(n / 10)[k]);
            }
        }
    }
}

proof fn lemma_cleaned_concat(a: Seq<char>, b: Seq<char>, drop_euro: bool)
    ensures
        cleaned(a + b, drop_euro) == cleaned(a, drop_euro) + cleaned(b, drop_euro),
{
    let keep = kept_in_number(drop_euro);
    Seq::<char>::filter_distributes_over_add(a, b, keep);
    assert(a.filter(keep).add(b.filter(keep)).map_values(|c: char| point_for_comma(c)) =~= a.filter(
        keep,
    ).map_values(|c: char| point_for_comma(c)) + b.filter(keep).map_values(
        |c: char| point_for_comma(c),
    ));
}

proof fn lemma_cleaned_digits(a: Seq<char>, drop_euro: bool)
    requires
        all_digits(a),
    ensures
        cleaned(a, drop_euro) == a,
    decreases a.len(),
{
    if a.len() > 0 {
        let p = a.drop_last();
        assert(all_digits(p)) by {
            assert forall|k: int| 0 <= k < p.len() implies is_digit(#[trigger] p[k]) by {
                assert(p[k] == a[k]);
            }
        }
        lemma_cleaned_digits(p, drop_euro);
        assert(is_digit(a.last()));
        assert(p + seq![a.last()] == a);
        lemma_cleaned_concat(p, seq![a.last()], drop_euro);
        let keep = kept_in_number(drop_euro);
        reveal_with_fuel(Seq::<char>::filter, 2);
        assert(seq![a.last()].filter(keep) =~= seq![a.last()]);
    }
}

/// Writing an amount and reading it back gives the same amount: whatever
/// [`format_cents`] prints for fewer than `2^50` cents, [`parse_price_to_cents`]
/// reads as those cents.
#[verifier::spinoff_prover]
#[verifier::rlimit(40)]
pub proof fn lemma_formatted_amount_parses_back(cents: int)
    requires
        0 <= cents < 0x4_0000_0000_0000,
    ensures
        price_cents_of(cents_text(cents)) == Some(cents as i64),
{
    let q = (cents / 100) as nat;
    let r = (cents % 100) as nat;
    let dq = decimal(q);
    let f = two_digits(r);
    lemma_decimal_digits(q);
    lemma_digit_char(r / 10);
    lemma_digit_char(r % 10);
    assert(all_digits(f)) by {
        assert forall|k: int| 0 <= k < f.len() implies is_digit(#[trigger] f[k]) by {}
    }
    let text = cents_text(cents);
    assert(text == dq + seq![','] + f + seq![' ', '\u{20ac}']);
    lemma_cleaned_concat(dq + seq![','] + f, seq![' ', '\u{20ac}'], true);
    lemma_cleaned_concat(dq + seq![','], f, true);
    lemma_cleaned_concat(dq, seq![','], true);
    lemma_cleaned_digits(dq, true);
    lemma_cleaned_digits(f, true);
    let keep = kept_in_number(true);
    reveal_with_fuel(Seq::<char>::filter, 3);
    assert(crate::text::is_space(' '));
    assert(seq![' ', '\u{20ac}'].filter(keep) =~= Seq::<char>::empty()) by {
        assert(seq![' ', '\u{20ac}'].drop_last() =~= seq![' ']);
        assert(seq![' '].drop_last() =~= Seq::<char>::empty());
    }
    assert(seq![','].filter(keep) =~= seq![',']) by {
        assert(seq![','].drop_last() =~= Seq::<char>::empty());
    }
    let t = dq + seq!['.'] + f;
    assert(cleaned(text, true) =~= t);
    // reading `t`
    assert(t[0] == dq[0]);
    assert(is_digit(dq[0]));
    assert(sign_split(t) == (false, t));
    assert forall|k: int| 0 <= k < t.len() implies !is_exp_mark()(#[trigger] t[k]) by {
        if k < dq.len() {
            assert(t[k] == dq[k]);
            assert(is_digit(dq[k]));
        } else if k > dq.len() {
            assert(t[k] == f[k - dq.len() - 1]);
            assert(is_digit(f[k - dq.len() - 1]));
        }
    }
    lemma_first_index_is(t, is_exp_mark(), t.len() as int);
    assert(t.take(t.len() as int) == t);
    assert forall|k: int| 0 <= k < dq.len() implies !is_point()(#[trigger] t[k]) by {
        assert(t[k] == dq[k]);
        assert(is_digit(dq[k]));
    }
    assert(t[dq.len() as int] == '.');
    lemma_first_index_is(t, is_point(), dq.len() as int);
    assert(t.take(dq.len() as int) == dq);
    assert(t.skip(dq.len() as int + 1) == f);
    lemma_digits_split(dq, f);
    assert(f.drop_last() =~= seq![digit_char(r / 10)]);
    assert(seq![digit_char(r / 10)].drop_last() =~= Seq::<char>::empty());
    assert(digits_value(Seq::<char>::empty()) == 0);
    assert(seq![digit_char(r / 10)].last() == digit_char(r / 10));
    assert(digits_value(seq![digit_char(r / 10)]) == r / 10);
    assert(f.last() == digit_char(r % 10));
    assert(digits_value(f) == (r / 10) * 10 + r % 10);
    assert(pow10(2) == 100) by {
        reveal_with_fuel(pow10, 3);
    }
    assert(f.len() == 2);
    assert(digits_value(dq) == q);
    assert(digits_value(dq + f) == q * 100 + r);
    assert(q * 100 + r == cents);
    assert(digits_value(dq + f) == cents);
    let d = parse_decimal(t).unwrap();
    assert(d.mantissa == cents);
    assert(d.scale == 2);
    lemma_hundredths_round_trip(cents as nat);
    assert(amount_num(cents as nat, -2) == cents);
    assert(amount_den(-2) == 100);
    lemma_double_overflow_large();
    lemma_pow10_19();
    lemma_scaled_below(cents as nat, 19, -2, double_overflow(), 18, 0);
}

} // verus!
