//! Decimal numbers as people type them: digits, an optional decimal point, an
//! optional exponent. The value is kept exact.
use vstd::prelude::*;

verus! {

pub open spec fn pow10(n: nat) -> nat
    decreases n,
{
    if n == 0 {
        1
    } else {
        10 * pow10((n - 1) as nat)
    }
}

pub proof fn lemma_pow10_positive(n: nat)
    ensures
        pow10(n) >= 1,
    decreases n,
{
    if n > 0 {
        lemma_pow10_positive((n - 1) as nat);
    }
}

pub proof fn lemma_pow10_adds(a: nat, b: nat)
    ensures
        pow10(a + b) == pow10(a) * pow10(b),
    decreases b,
{
    if b > 0 {
        let b1 = (b - 1) as nat;
        lemma_pow10_adds(a, b1);
        assert((a + b - 1) as nat == a + b1);
        assert(pow10(a + b) == 10 * pow10(a + b1));
        assert(pow10(a) * pow10(b) == pow10(a) * (10 * pow10((b - 1) as nat)));
        assert(pow10(a) * (10 * pow10((b - 1) as nat)) == 10 * (pow10(a) * pow10(
            (b - 1) as nat,
        ))) by (nonlinear_arith);
        assert(pow10(a + b) == pow10(a) * pow10(b));
    } else {
        assert(pow10(0) == 1);
        assert(a + b == a);
        assert(pow10(a) * 1 == pow10(a));
    }
}

pub proof fn lemma_pow10_monotone(a: nat, b: nat)
    requires
        a <= b,
    ensures
        pow10(a) <= pow10(b),
{
    lemma_pow10_adds(a, (b - a) as nat);
    lemma_pow10_positive((b - a) as nat);
    lemma_pow10_positive(a);
    assert(pow10(a) * pow10((b - a) as nat) >= pow10(a)) by (nonlinear_arith)
        requires
            pow10((b - a) as nat) >= 1,
            pow10(a) >= 1,
    ;
}

pub open spec fn is_digit(c: char) -> bool {
    48 <= (c as u32) <= 57
}

pub open spec fn digit_value(c: char) -> nat {
    ((c as u32) - 48) as nat
}

pub open spec fn all_digits(s: Seq<char>) -> bool {
    forall|k: int| 0 <= k < s.len() ==> is_digit(#[trigger] s[k])
}

/// The number a string of decimal digits spells.
pub open spec fn digits_value(s: Seq<char>) -> nat
    decreases s.len(),
{
    if s.len() == 0 {
        0
    } else {
        digits_value(s.drop_last()) * 10 + digit_value(s.last())
    }
}

pub proof fn lemma_digits_split(a: Seq<char>, b: Seq<char>)
    ensures
        digits_value(a + b) == digits_value(a) * pow10(b.len()) + digits_value(b),
    decreases b.len(),
{
    if b.len() == 0 {
        assert(a + b == a);
        assert(pow10(0) == 1);
        assert(digits_value(a) * 1 == digits_value(a));
    } else {
        let b2 = b.drop_last();
        lemma_digits_split(a, b2);
        assert((a + b).drop_last() == a + b2);
        assert((a + b).last() == b.last());
        let x = digits_value(a);
        let y = digits_value(b2);
        let p = pow10(b2.len());
        assert(pow10(b.len()) == 10 * p);
        assert(digits_value(b) == y * 10 + digit_value(b.last()));
        assert(digits_value(a + b) == digits_value(a + b2) * 10 + digit_value(b.last()));
        assert((x * p + y) * 10 + digit_value(b.last()) == x * (10 * p) + (y * 10 + digit_value(
            b.last(),
        ))) by (nonlinear_arith);
        assert(digits_value(a + b) == x * pow10(b.len()) + digits_value(b));
    }
}

pub proof fn lemma_digits_bound(s: Seq<char>)
    requires
        all_digits(s),
    ensures
        digits_value(s) < pow10(s.len()),
        s.len() > 0 && digit_value(s[0]) > 0 ==> digits_value(s) >= pow10((s.len() - 1) as nat),
    decreases s.len(),
{
    if s.len() > 0 {
        let p = s.drop_last();
        assert(is_digit(s.last()));
        assert(all_digits(p)) by {
            assert forall|k: int| 0 <= k < p.len() implies is_digit(#[trigger] p[k]) by {
                assert(p[k] == s[k]);
            }
        }
        lemma_digits_bound(p);
        let v = digits_value(p);
        let q = pow10(p.len());
        assert(v * 10 + digit_value(s.last()) < 10 * q) by (nonlinear_arith)
            requires
                v < q,
                digit_value(s.last()) <= 9,
        ;
        if digit_value(s[0]) > 0 {
            if s.len() == 1 {
                assert(p.len() == 0);
                assert(s.last() == s[0]);
            } else {
                assert(p[0] == s[0]);
                let r = pow10((p.len() - 1) as nat);
                assert(q == 10 * r);
                assert(v * 10 + digit_value(s.last()) >= 10 * r) by (nonlinear_arith)
                    requires
                        v >= r,
                ;
            }
        }
    }
}

/// A run of zero digits spells 0.
pub proof fn lemma_zeros_value(z: Seq<char>)
    requires
        forall|k: int| 0 <= k < z.len() ==> (#[trigger] z[k] as u32) == 48,
    ensures
        digits_value(z) == 0,
    decreases z.len(),
{
    if z.len() > 0 {
        lemma_zeros_value(z.drop_last());
    }
}

/// An exact decimal number: `mantissa / 10^scale`, the scale possibly negative.
pub struct Decimal {
    pub negative: bool,
    pub mantissa: nat,
    pub scale: int,
}

/// An optional leading `+` or `-`: whether it was `-`, and what follows it.
pub open spec fn sign_split(t: Seq<char>) -> (bool, Seq<char>) {
    if t.len() > 0 && (t[0] == '+' || t[0] == '-') {
        (t[0] == '-', t.drop_first())
    } else {
        (false, t)
    }
}

pub open spec fn is_exp_mark() -> spec_fn(char) -> bool {
    |c: char| c == 'e' || c == 'E'
}

pub open spec fn is_point() -> spec_fn(char) -> bool {
    |c: char| c == '.'
}

/// Reads `t` as Rust's float parser reads a finite number: an optional sign,
/// digits with at most one decimal point and at least one digit, then optionally
/// `e` or `E`, an optional sign and at least one digit.
pub open spec fn parse_decimal(t: Seq<char>) -> Option<Decimal> {
    let (negative, body) = sign_split(t);
    let e = crate::order::first_index(body, is_exp_mark());
    let mant = body.take(e);
    let d = crate::order::first_index(mant, is_point());
    let int_part = mant.take(d);
    let frac = if d < mant.len() {
        mant.skip(d + 1)
    } else {
        Seq::<char>::empty()
    };
    let has_exp = e < body.len();
    let (exp_negative, exp_digits) = sign_split(
        if has_exp {
            body.skip(e + 1)
        } else {
            Seq::<char>::empty()
        },
    );
    if all_digits(int_part) && all_digits(frac) && int_part.len() + frac.len() > 0 && (!has_exp
        || (exp_digits.len() > 0 && all_digits(exp_digits))) {
        let exp: int = if !has_exp {
            0
        } else if exp_negative {
            -digits_value(exp_digits)
        } else {
            digits_value(exp_digits) as int
        };
        Some(
            Decimal {
                negative,
                mantissa: digits_value(int_part + frac),
                scale: frac.len() - exp,
            },
        )
    } else {
        None
    }
}

pub proof fn lemma_pow10_19()
    ensures
        pow10(19) == 10_000_000_000_000_000_000nat,
{
    reveal_with_fuel(pow10, 20);
}

/// `b` to the power `e`.
pub open spec fn power(b: nat, e: nat) -> nat
    decreases e,
{
    if e == 0 {
        1
    } else {
        b * power(b, (e - 1) as nat)
    }
}

pub proof fn lemma_power_adds(b: nat, x: nat, y: nat)
    ensures
        power(b, x + y) == power(b, x) * power(b, y),
    decreases y,
{
    if y > 0 {
        let y1 = (y - 1) as nat;
        lemma_power_adds(b, x, y1);
        assert((x + y - 1) as nat == x + y1);
        assert(power(b, x + y) == b * power(b, x + y1));
        assert(power(b, y) == b * power(b, y1));
        assert(b * (power(b, x) * power(b, y1)) == power(b, x) * (b * power(b, y1)))
            by (nonlinear_arith);
    } else {
        assert(x + y == x);
        assert(power(b, x) * 1 == power(b, x));
    }
}

pub proof fn lemma_power_positive(b: nat, e: nat)
    requires
        b >= 1,
    ensures
        power(b, e) >= 1,
    decreases e,
{
    if e > 0 {
        lemma_power_positive(b, (e - 1) as nat);
        assert(b * power(b, (e - 1) as nat) >= 1) by (nonlinear_arith)
            requires
                b >= 1,
                power(b, (e - 1) as nat) >= 1,
        ;
    }
}

/// The sign of `v·10^ev − t·10^et`: `-1`, `0` or `1`.
pub open spec fn scaled_sign(v: nat, ev: int, t: nat, et: int) -> int {
    let g = if ev <= et {
        ev
    } else {
        et
    };
    let l = v * pow10((ev - g) as nat);
    let r = t * pow10((et - g) as nat);
    if l < r {
        -1
    } else if l == r {
        0
    } else {
        1
    }
}

/// Below `10^(p+ev)` is below anything of at least `10^(q+et)`.
pub proof fn lemma_scaled_below(v: nat, p: nat, ev: int, t: nat, q: nat, et: int)
    requires
        v < pow10(p),
        t >= pow10(q),
        p + ev <= q + et,
    ensures
        scaled_sign(v, ev, t, et) == -1,
{
    let g = if ev <= et {
        ev
    } else {
        et
    };
    let a = (ev - g) as nat;
    let b = (et - g) as nat;
    lemma_pow10_adds(p, a);
    lemma_pow10_adds(q, b);
    lemma_pow10_monotone(p + a, q + b);
    lemma_pow10_positive(a);
    lemma_pow10_positive(b);
    let pa = pow10(a);
    let pb = pow10(b);
    assert(v * pa < pow10(p) * pa) by (nonlinear_arith)
        requires
            v < pow10(p),
            pa >= 1,
    ;
    assert(t * pb >= pow10(q) * pb) by (nonlinear_arith)
        requires
            t >= pow10(q),
            pb >= 1,
    ;
}

/// At least `10^(p+ev)` is above anything below `10^(q+et)`.
pub proof fn lemma_scaled_above(v: nat, p: nat, ev: int, t: nat, q: nat, et: int)
    requires
        v >= pow10(p),
        t < pow10(q),
        p + ev >= q + et,
    ensures
        scaled_sign(v, ev, t, et) == 1,
{
    let g = if ev <= et {
        ev
    } else {
        et
    };
    let a = (ev - g) as nat;
    let b = (et - g) as nat;
    lemma_pow10_adds(p, a);
    lemma_pow10_adds(q, b);
    lemma_pow10_monotone(q + b, p + a);
    lemma_pow10_positive(a);
    lemma_pow10_positive(b);
    let pa = pow10(a);
    let pb = pow10(b);
    assert(v * pa >= pow10(p) * pa) by (nonlinear_arith)
        requires
            v >= pow10(p),
            pa >= 1,
    ;
    assert(t * pb < pow10(q) * pb) by (nonlinear_arith)
        requires
            t < pow10(q),
            pb >= 1,
    ;
}

/// `k` zero digits.
pub open spec fn zero_digits(k: nat) -> Seq<char> {
    Seq::new(k, |i: int| '0')
}

/// `s` padded on the right with zeros to length `l`.
pub open spec fn padded(s: Seq<char>, l: nat) -> Seq<char> {
    s + zero_digits((l - s.len()) as nat)
}

pub open spec fn sign_of(a: nat, b: nat) -> int {
    if a < b {
        -1
    } else if a == b {
        0
    } else {
        1
    }
}

proof fn lemma_padded(s: Seq<char>, l: nat)
    requires
        all_digits(s),
        s.len() <= l,
    ensures
        all_digits(padded(s, l)),
        padded(s, l).len() == l,
        digits_value(padded(s, l)) == digits_value(s) * pow10((l - s.len()) as nat),
{
    let z = zero_digits((l - s.len()) as nat);
    assert forall|k: int| 0 <= k < z.len() implies (#[trigger] z[k] as u32) == 48 by {}
    lemma_zeros_value(z);
    lemma_digits_split(s, z);
    let p = padded(s, l);
    assert forall|k: int| 0 <= k < p.len() implies is_digit(#[trigger] p[k]) by {
        if k < s.len() {
            assert(p[k] == s[k]);
        } else {
            assert(p[k] == z[k - s.len()]);
        }
    }
}

/// Two numbers whose leading digits sit at the same power of ten compare as
/// their digit strings padded to a common length.
pub proof fn lemma_scaled_aligned(a: Seq<char>, ev: int, b: Seq<char>, et: int)
    requires
        all_digits(a),
        all_digits(b),
        a.len() + ev == b.len() + et,
    ensures
        ({
            let l = if a.len() >= b.len() {
                a.len()
            } else {
                b.len()
            };
            scaled_sign(digits_value(a), ev, digits_value(b), et) == sign_of(
                digits_value(padded(a, l)),
                digits_value(padded(b, l)),
            )
        }),
{
    let l = if a.len() >= b.len() {
        a.len()
    } else {
        b.len()
    };
    lemma_padded(a, l);
    lemma_padded(b, l);
    assert(pow10(0) == 1);
    assert(digits_value(a) * 1 == digits_value(a));
    assert(digits_value(b) * 1 == digits_value(b));
}

/// Equal-length digit strings that first differ at `i` compare as their digits there.
pub proof fn lemma_digits_lex(a: Seq<char>, b: Seq<char>, i: int)
    requires
        all_digits(a),
        all_digits(b),
        a.len() == b.len(),
        0 <= i < a.len(),
        a.take(i) == b.take(i),
        digit_value(a[i]) < digit_value(b[i]),
    ensures
        digits_value(a) < digits_value(b),
{
    let a1 = a.take(i + 1);
    let b1 = b.take(i + 1);
    let ar = a.skip(i + 1);
    let br = b.skip(i + 1);
    assert(a == a1 + ar);
    assert(b == b1 + br);
    lemma_digits_split(a1, ar);
    lemma_digits_split(b1, br);
    assert(a1.drop_last() == a.take(i));
    assert(b1.drop_last() == b.take(i));
    assert(a1.last() == a[i]);
    assert(b1.last() == b[i]);
    assert(all_digits(ar)) by {
        assert forall|k: int| 0 <= k < ar.len() implies is_digit(#[trigger] ar[k]) by {
            assert(ar[k] == a[i + 1 + k]);
        }
    }
    assert(all_digits(br)) by {
        assert forall|k: int| 0 <= k < br.len() implies is_digit(#[trigger] br[k]) by {
            assert(br[k] == b[i + 1 + k]);
        }
    }
    lemma_digits_bound(ar);
    let p = pow10(ar.len());
    let va = digits_value(a1);
    let vb = digits_value(b1);
    assert(va + 1 <= vb);
    assert(va * p + digits_value(ar) < vb * p + digits_value(br)) by (nonlinear_arith)
        requires
            va + 1 <= vb,
            digits_value(ar) < p,
    ;
}

/// Two characters with the same code are the same character.
pub proof fn lemma_char_code_injective(a: char, b: char)
    ensures
        (a as u32) == (b as u32) ==> a == b,
{
    vstd::utf8::char_u32_cast(a, a as u32);
    vstd::utf8::char_u32_cast(b, b as u32);
}

/// A single digit spells its own value.
pub proof fn lemma_single_digit(c: char)
    ensures
        digits_value(seq![c]) == digit_value(c),
{
    assert(seq![c].drop_last() =~= Seq::<char>::empty());
    assert(seq![c].last() == c);
    assert(digits_value(Seq::<char>::empty()) == 0);
}

fn digit_char_of(d: u128) -> (c: char)
    requires
        d < 10,
    ensures
        is_digit(c),
        digit_value(c) == d,
{
    ((48 + d) as u8) as char
}

/// Compares two digit strings padded with zeros on the right to a common length.
pub fn compare_padded(a: &Vec<char>, b: &Vec<char>) -> (r: i8)
    requires
        all_digits(a@),
        all_digits(b@),
    ensures
        ({
            let l = if a@.len() >= b@.len() {
                a@.len()
            } else {
                b@.len()
            };
            r == sign_of(digits_value(padded(a@, l)), digits_value(padded(b@, l)))
        }),
{
    let la = a.len();
    let lb = b.len();
    let l = if la >= lb {
        la
    } else {
        lb
    };
    let ghost pa = padded(a@, l as nat);
    let ghost pb = padded(b@, l as nat);
    proof {
        lemma_padded(a@, l as nat);
        lemma_padded(b@, l as nat);
    }
    let mut i: usize = 0;
    while i < l
        invariant
            i <= l,
            la == a@.len(),
            lb == b@.len(),
            l == (if la >= lb {
                la
            } else {
                lb
            }),
            pa == padded(a@, l as nat),
            pb == padded(b@, l as nat),
            pa.len() == l,
            pb.len() == l,
            all_digits(pa),
            all_digits(pb),
            pa.take(i as int) == pb.take(i as int),
        decreases l - i,
    {
        let ca = if i < la {
            a[i]
        } else {
            '0'
        };
        let cb = if i < lb {
            b[i]
        } else {
            '0'
        };
        assert(pa[i as int] == ca);
        assert(pb[i as int] == cb);
        let ua = ca as u32;
        let ub = cb as u32;
        if ua < ub {
            proof {
                lemma_digits_lex(pa, pb, i as int);
            }
            return -1;
        }
        if ub < ua {
            proof {
                lemma_digits_lex(pb, pa, i as int);
            }
            return 1;
        }
        proof {
            lemma_char_code_injective(ca, cb);
        }
        assert(pa.take(i + 1) == pa.take(i as int).push(ca));
        assert(pb.take(i + 1) == pb.take(i as int).push(cb));
        i += 1;
    }
    assert(pa == pa.take(l as int));
    assert(pb == pb.take(l as int));
    0
}

/// `v` times `k`, written in decimal without leading zeros.
pub fn mul_small(v: &Vec<char>, k: u64) -> (r: Vec<char>)
    requires
        all_digits(v@),
        v@.len() > 0,
        digit_value(v@[0]) > 0,
        k >= 1,
        v@.len() + 20 <= usize::MAX,
    ensures
        all_digits(r@),
        r@.len() > 0,
        digit_value(r@[0]) > 0,
        r@.len() <= v@.len() + 20,
        digits_value(r@) == digits_value(v@) * k,
{
    let n = v.len();
    let w = n + 20;
    let mut out: Vec<char> = Vec::new();
    let mut j: usize = 0;
    while j < w
        invariant
            j <= w,
            out@.len() == j,
            forall|q: int| 0 <= q < j ==> out@[q] == '0',
        decreases w - j,
    {
        out.push('0');
        j += 1;
    }
    proof {
        assert(v@.subrange(n as int, n as int) =~= Seq::<char>::empty());
        assert(out@.subrange(n + 20, w as int) =~= Seq::<char>::empty());
        assert(digits_value(Seq::<char>::empty()) == 0);
        assert(pow10(0) == 1);
        assert forall|q: int| 0 <= q < w implies is_digit(#[trigger] out@[q]) by {
            assert(out@[q] == '0');
        }
    }
    let mut carry: u128 = 0;
    let mut i: usize = n;
    while i > 0
        invariant
            i <= n,
            w == n + 20,
            n == v@.len(),
            all_digits(v@),
            k >= 1,
            out@.len() == w,
            forall|q: int| 0 <= q < i + 20 ==> out@[q] == '0',
            forall|q: int| 0 <= q < w ==> is_digit(#[trigger] out@[q]),
            carry < k,
            digits_value(v@.subrange(i as int, n as int)) * k == digits_value(
                out@.subrange(i + 20, w as int),
            ) + carry * pow10((n - i) as nat),
        decreases i,
    {
        let j = i - 1;
        assert(is_digit(v@[j as int]));
        let dv: u128 = ((v[j] as u32) - 48) as u128;
        assert(dv * (k as u128) <= 9 * (k as u128)) by (nonlinear_arith)
            requires
                dv <= 9,
        ;
        let c: u128 = dv * (k as u128) + carry;
        assert(c < 10 * (k as u128)) by (nonlinear_arith)
            requires
                dv <= 9,
                carry < k,
                c == dv * (k as u128) + carry,
        ;
        let ghost old_out = out@;
        let ch = digit_char_of(c % 10);
        out.set(j + 20, ch);
        proof {
            let s = (n - i) as nat;
            let tail_v = v@.subrange(i as int, n as int);
            let tail_o = old_out.subrange(i + 20, w as int);
            assert(v@.subrange(j as int, n as int) == seq![v@[j as int]] + tail_v);
            assert(out@.subrange(j + 20, w as int) == seq![ch] + tail_o);
            lemma_digits_split(seq![v@[j as int]], tail_v);
            lemma_digits_split(seq![ch], tail_o);
            assert(seq![v@[j as int]].drop_last() =~= Seq::<char>::empty());
            assert(seq![ch].drop_last() =~= Seq::<char>::empty());
            lemma_single_digit(v@[j as int]);
            lemma_single_digit(ch);
            assert(digits_value(seq![v@[j as int]]) == dv);
            assert(digits_value(seq![ch]) == c % 10);
            assert(tail_v.len() == s);
            assert(tail_o.len() == s);
            assert(pow10((n - j) as nat) == 10 * pow10(s));
            let x = digits_value(tail_v);
            let y = digits_value(tail_o);
            let p = pow10(s);
            assert((dv * p + x) * k == (c % 10) * p + y + (c / 10) * (10 * p)) by (nonlinear_arith)
                requires
                    x * k == y + carry * p,
                    c == dv * k + carry,
            ;
            assert(c / 10 < k) by (nonlinear_arith)
                requires
                    c < 10 * k,
            ;
        }
        carry = c / 10;
        i = j;
    }
    assert(v@.subrange(0, n as int) == v@);
    proof {
        assert(pow10(20) == 100_000_000_000_000_000_000nat) by {
            reveal_with_fuel(pow10, 21);
        }
    }
    let mut p: usize = 20;
    while p > 0
        invariant
            p <= 20,
            w == n + 20,
            out@.len() == w,
            forall|q: int| 0 <= q < p ==> out@[q] == '0',
            forall|q: int| 0 <= q < w ==> is_digit(#[trigger] out@[q]),
            carry < pow10(p as nat),
            digits_value(v@) * k == digits_value(out@.subrange(p as int, w as int)) + carry * pow10(
                (w - p) as nat,
            ),
        decreases p,
    {
        let q = p - 1;
        let ghost old_out = out@;
        let ch = digit_char_of(carry % 10);
        out.set(q, ch);
        proof {
            let s = (w - p) as nat;
            let tail_o = old_out.subrange(p as int, w as int);
            assert(out@.subrange(q as int, w as int) == seq![ch] + tail_o);
            lemma_digits_split(seq![ch], tail_o);
            assert(seq![ch].drop_last() =~= Seq::<char>::empty());
            lemma_single_digit(ch);
            assert(digits_value(seq![ch]) == carry % 10);
            let y = digits_value(tail_o);
            let pp = pow10(s);
            assert(pow10((w - q) as nat) == 10 * pp);
            assert(carry * pp == (carry % 10) * pp + (carry / 10) * (10 * pp)) by (nonlinear_arith);
            assert(pow10(p as nat) == 10 * pow10(q as nat));
            assert(carry / 10 < pow10(q as nat)) by (nonlinear_arith)
                requires
                    carry < 10 * pow10(q as nat),
            ;
        }
        carry = carry / 10;
        p = q;
    }
    assert(out@.subrange(0, w as int) == out@);
    assert(pow10(0) == 1);
    proof {
        lemma_digits_bound(v@);
        lemma_pow10_positive((n - 1) as nat);
        assert(digits_value(v@) * k >= 1) by (nonlinear_arith)
            requires
                digits_value(v@) >= 1,
                k >= 1,
        ;
    }
    let mut z: usize = 0;
    while z < w && out[z] == '0'
        invariant
            z <= w,
            out@.len() == w,
            forall|q: int| 0 <= q < z ==> out@[q] == '0',
        decreases w - z,
    {
        z += 1;
    }
    let ghost lead = out@.take(z as int);
    let ghost rest = out@.skip(z as int);
    proof {
        assert(out@ == lead + rest);
        assert forall|q: int| 0 <= q < lead.len() implies (#[trigger] lead[q] as u32) == 48 by {
            assert(lead[q] == out@[q]);
        }
        lemma_zeros_value(lead);
        lemma_digits_split(lead, rest);
        if z == w {
            assert(rest.len() == 0);
        }
    }
    let mut r: Vec<char> = Vec::new();
    let mut t: usize = z;
    while t < w
        invariant
            z <= t <= w,
            out@.len() == w,
            r@ == out@.subrange(z as int, t as int),
        decreases w - t,
    {
        r.push(out[t]);
        assert(out@.subrange(z as int, t + 1) == out@.subrange(z as int, t as int).push(
            out@[t as int],
        ));
        t += 1;
    }
    proof {
        assert(r@ == rest);
        assert(z < w);
        assert(out@[z as int] != '0');
        assert(is_digit(out@[z as int]));
        lemma_char_code_injective(out@[z as int], '0');
        assert(r@[0] == out@[z as int]);
        assert forall|q: int| 0 <= q < r@.len() implies is_digit(#[trigger] r@[q]) by {
            assert(r@[q] == out@[z + q]);
        }
    }
    r
}


/// Half of `v`, rounded down, without leading zeros, and whether `v` was odd.
pub fn halve(v: &Vec<char>) -> (r: (Vec<char>, bool))
    requires
        all_digits(v@),
    ensures
        all_digits(r.0@),
        r.0@.len() == 0 || digit_value(r.0@[0]) > 0,
        r.0@.len() <= v@.len(),
        digits_value(r.0@) == digits_value(v@) / 2,
        r.1 == (digits_value(v@) % 2 == 1),
{
    let mut out: Vec<char> = Vec::new();
    let mut rem: u32 = 0;
    let mut i: usize = 0;
    proof {
        assert(v@.take(0) =~= Seq::<char>::empty());
        assert(digits_value(Seq::<char>::empty()) == 0);
    }
    while i < v.len()
        invariant
            i <= v@.len(),
            all_digits(v@),
            all_digits(out@),
            out@.len() == 0 || digit_value(out@[0]) > 0,
            out@.len() <= i,
            rem < 2,
            digits_value(v@.take(i as int)) == 2 * digits_value(out@) + rem,
        decreases v.len() - i,
    {
        assert(is_digit(v@[i as int]));
        let d = (v[i] as u32) - 48;
        let cur = rem * 10 + d;
        let half = cur / 2;
        let ghost before = out@;
        proof {
            assert(v@.take(i + 1).drop_last() == v@.take(i as int));
            assert(v@.take(i + 1).last() == v@[i as int]);
        }
        if out.len() > 0 || half > 0 {
            let c = digit_char_of(half as u128);
            out.push(c);
            proof {
                assert(out@.drop_last() == before);
                assert(out@.last() == c);
                assert forall|k: int| 0 <= k < out@.len() implies is_digit(#[trigger] out@[k]) by {
                    if k < before.len() {
                        assert(out@[k] == before[k]);
                    }
                }
                if before.len() == 0 {
                    assert(out@[0] == c);
                } else {
                    assert(out@[0] == before[0]);
                }
            }
        } else {
            proof {
                assert(digits_value(before) == 0);
            }
        }
        rem = cur % 2;
        i += 1;
    }
    assert(v@.take(i as int) == v@);
    let odd = rem == 1;
    proof {
        vstd::arithmetic::div_mod::lemma_fundamental_div_mod_converse(
            digits_value(v@) as int,
            2,
            digits_value(out@) as int,
            rem as int,
        );
    }
    (out, odd)
}

} // verus!
