use vstd::prelude::*;

verus! {

broadcast use vstd::string::group_string_axioms;

/// The characters of `s`, one by one.
pub fn chars_of(s: &str) -> (v: Vec<char>)
    ensures
        v@ == s@,
{
    let mut v: Vec<char> = Vec::new();
    for c in it: s.chars()
        invariant
            v@ == it.seq().take(it.index() as int),
            it.seq() == s@,
    {
        v.push(c);
    }
    v
}

/// A string holding exactly `chars`.
pub fn string_of(chars: &Vec<char>) -> (s: String)
    ensures
        s@ == chars@,
{
    let mut s = String::new();
    let mut i: usize = 0;
    while i < chars.len()
        invariant
            i <= chars.len(),
            s@ == chars@.take(i as int),
        decreases chars.len() - i,
    {
        push_char(&mut s, chars[i]);
        assert(chars@.take(i + 1) == chars@.take(i as int).push(chars@[i as int]));
        i += 1;
    }
    assert(chars@.take(chars.len() as int) == chars@);
    s
}

/// `String::push`: appends one character.
#[verifier::external_body]
pub(crate) fn push_char(s: &mut String, c: char)
    ensures
        final(s)@ == old(s)@.push(c),
{
    s.push(c);
}

/// `char::is_whitespace`: the characters with Unicode's `White_Space` property.
pub open spec fn is_space(c: char) -> bool {
    let u = c as u32;
    ||| 0x09 <= u <= 0x0d
    ||| u == 0x20
    ||| u == 0x85
    ||| u == 0xa0
    ||| u == 0x1680
    ||| 0x2000 <= u <= 0x200a
    ||| u == 0x2028
    ||| u == 0x2029
    ||| u == 0x202f
    ||| u == 0x205f
    ||| u == 0x3000
}

pub fn is_space_char(c: char) -> (b: bool)
    ensures
        b == is_space(c),
{
    let u = c as u32;
    (0x09 <= u && u <= 0x0d) || u == 0x20 || u == 0x85 || u == 0xa0 || u == 0x1680 || (0x2000 <= u
        && u <= 0x200a) || u == 0x2028 || u == 0x2029 || u == 0x202f || u == 0x205f || u == 0x3000
}

/// The whitespace-separated words of `s`, in order: each maximal run of
/// non-whitespace characters, read left to right.
pub open spec fn words(s: Seq<char>) -> Seq<Seq<char>>
    decreases s.len(),
{
    if s.len() == 0 {
        seq![]
    } else {
        let before = words(s.drop_last());
        let c = s.last();
        if is_space(c) {
            before
        } else if s.len() >= 2 && !is_space(s[s.len() - 2]) {
            before.update(before.len() - 1, before.last().push(c))
        } else {
            before.push(seq![c])
        }
    }
}

/// Words joined by single spaces.
pub open spec fn join_words(ws: Seq<Seq<char>>) -> Seq<char>
    decreases ws.len(),
{
    if ws.len() == 0 {
        seq![]
    } else if ws.len() == 1 {
        ws[0]
    } else {
        join_words(ws.drop_last()) + seq![' '] + ws.last()
    }
}

/// `s` with its whitespace collapsed: its words, joined by single spaces.
pub open spec fn normalized(s: Seq<char>) -> Seq<char> {
    join_words(words(s))
}

/// A word is never empty and never holds whitespace.
pub open spec fn is_word(w: Seq<char>) -> bool {
    w.len() > 0 && forall|k: int| 0 <= k < w.len() ==> !is_space(#[trigger] w[k])
}

pub proof fn lemma_words_are_words(s: Seq<char>)
    ensures
        forall|j: int| 0 <= j < words(s).len() ==> is_word(#[trigger] words(s)[j]),
        s.len() > 0 && !is_space(s.last()) ==> words(s).len() > 0,
    decreases s.len(),
{
    if s.len() > 0 {
        let p = s.drop_last();
        lemma_words_are_words(p);
        let before = words(p);
        let c = s.last();
        if is_space(c) {
        } else if s.len() >= 2 && !is_space(s[s.len() - 2]) {
            assert(p.last() == s[s.len() - 2]);
            let w = before.last().push(c);
            assert(is_word(before[before.len() - 1]));
            assert forall|k: int| 0 <= k < w.len() implies !is_space(#[trigger] w[k]) by {
                if k < w.len() - 1 {
                    assert(w[k] == before[before.len() - 1][k]);
                }
            }
        } else {
            let w: Seq<char> = seq![c];
            assert forall|k: int| 0 <= k < w.len() implies !is_space(#[trigger] w[k]) by {}
        }
    }
}

proof fn lemma_join_empty(ws: Seq<Seq<char>>)
    requires
        forall|j: int| 0 <= j < ws.len() ==> is_word(#[trigger] ws[j]),
    ensures
        (join_words(ws).len() == 0) == (ws.len() == 0),
    decreases ws.len(),
{
    if ws.len() == 1 {
        assert(is_word(ws[0]));
    }
}

proof fn lemma_join_extend_last(ws: Seq<Seq<char>>, c: char)
    requires
        ws.len() > 0,
    ensures
        join_words(ws.update(ws.len() - 1, ws.last().push(c))) == join_words(ws).push(c),
{
    let ws2 = ws.update(ws.len() - 1, ws.last().push(c));
    if ws.len() > 1 {
        assert(ws2.drop_last() == ws.drop_last());
    }
}

/// Collapses runs of whitespace so `"  Lait   demi "` and `"Lait demi"` are one product.
pub fn normalize(value: &str) -> (r: String)
    ensures
        r@ == normalized(value@),
{
    let cs = chars_of(value);
    let mut out = String::new();
    let mut i: usize = 0;
    while i < cs.len()
        invariant
            i <= cs.len(),
            out@ == normalized(cs@.take(i as int)),
        decreases cs.len() - i,
    {
        let c = cs[i];
        let ghost p = cs@.take(i as int);
        let ghost q = cs@.take(i + 1);
        proof {
            assert(q.drop_last() == p);
            assert(q.last() == c);
            lemma_words_are_words(p);
        }
        if is_space_char(c) {
        } else if i > 0 && !is_space_char(cs[i - 1]) {
            proof {
                assert(q[q.len() - 2] == cs@[i - 1]);
                assert(p.last() == cs@[i - 1]);
                lemma_join_extend_last(words(p), c);
            }
            push_char(&mut out, c);
        } else {
            proof {
                lemma_join_empty(words(p));
            }
            if !out.as_str().is_empty() {
                push_char(&mut out, ' ');
            }
            push_char(&mut out, c);
            proof {
                let w = words(p);
                let w2 = w.push(seq![c]);
                assert(w2.drop_last() == w);
            }
        }
        i += 1;
    }
    assert(cs@.take(cs.len() as int) == cs@);
    out
}


/// Joining the words of an already collapsed string gives back the same words.
proof fn lemma_words_single(b: Seq<char>)
    requires
        is_word(b),
    ensures
        words(b) == seq![b],
    decreases b.len(),
{
    if b.len() > 1 {
        let p = b.drop_last();
        assert(is_word(p)) by {
            assert forall|k: int| 0 <= k < p.len() implies !is_space(#[trigger] p[k]) by {
                assert(p[k] == b[k]);
            }
        }
        lemma_words_single(p);
        assert(b[b.len() - 2] == p.last());
        assert(!is_space(b[b.len() - 1]));
        assert(p.push(b.last()) == b);
        assert(seq![p].update(0, p.push(b.last())) == seq![b]);
    } else {
        assert(!is_space(b[0]));
        assert(b.drop_last().len() == 0);
        assert(words(b.drop_last()) == Seq::<Seq<char>>::empty());
        assert(seq![b.last()] == b);
        assert(Seq::<Seq<char>>::empty().push(seq![b.last()]) == seq![b]);
    }
}

proof fn lemma_words_after_space(x: Seq<char>, b: Seq<char>)
    requires
        is_word(b),
    ensures
        words(x + seq![' '] + b) == words(x).push(b),
    decreases b.len(),
{
    let s = x + seq![' '] + b;
    assert(is_space(' '));
    assert((x + seq![' ']).drop_last() == x);
    assert(!is_space(b.last()));
    if b.len() == 1 {
        assert(s.drop_last() == x + seq![' ']);
        assert(s[s.len() - 2] == ' ');
        assert(s.last() == b[0]);
        assert(seq![b[0]] == b);
        assert(words(x + seq![' ']) == words(x));
    } else {
        let p = b.drop_last();
        assert(is_word(p)) by {
            assert forall|k: int| 0 <= k < p.len() implies !is_space(#[trigger] p[k]) by {
                assert(p[k] == b[k]);
            }
        }
        lemma_words_after_space(x, p);
        assert(s.drop_last() == x + seq![' '] + p);
        assert(s[s.len() - 2] == b[b.len() - 2]);
        assert(s.last() == b.last());
        assert(p.push(b.last()) == b);
        assert(words(s.drop_last()) == words(x).push(p));
        assert(words(x).push(p).update(words(x).len() as int, p.push(b.last())) == words(x).push(b));
    }
}

proof fn lemma_words_of_join(ws: Seq<Seq<char>>)
    requires
        forall|j: int| 0 <= j < ws.len() ==> is_word(#[trigger] ws[j]),
    ensures
        words(join_words(ws)) == ws,
    decreases ws.len(),
{
    if ws.len() == 1 {
        lemma_words_single(ws[0]);
        assert(seq![ws[0]] == ws);
    } else if ws.len() > 1 {
        let front = ws.drop_last();
        lemma_words_of_join(front);
        assert(is_word(ws[ws.len() - 1]));
        lemma_words_after_space(join_words(front), ws.last());
        assert(front.push(ws.last()) == ws);
    }
}

/// Collapsing whitespace twice changes nothing more than collapsing it once.
pub proof fn lemma_normalized_idempotent(s: Seq<char>)
    ensures
        normalized(normalized(s)) == normalized(s),
{
    lemma_words_are_words(s);
    lemma_words_of_join(words(s));
}

/// The lowercase mapping of a string, as `str::to_lowercase` computes it from
/// Unicode's case tables.
pub uninterp spec fn lowercase(s: Seq<char>) -> Seq<char>;

/// An ASCII capital letter lowered; every other character as it is.
pub open spec fn ascii_lower(c: char) -> char {
    if 'A' <= c && c <= 'Z' {
        ((c as u32) + 32) as char
    } else {
        c
    }
}

/// `s` with its ASCII capitals lowered.
pub open spec fn lower_ascii(s: Seq<char>) -> Seq<char> {
    s.map_values(|c: char| ascii_lower(c))
}

/// Every character of `s` is ASCII.
pub open spec fn is_ascii_text(s: Seq<char>) -> bool {
    forall|k: int| 0 <= k < s.len() ==> (#[trigger] s[k] as u32) < 128
}

/// `str::to_lowercase`. What it returns is named, not spelled out: it follows
/// Unicode's case-mapping tables, which are data rather than a few lines. Of
/// ASCII text it lowers the capitals `A` to `Z` and keeps every other character,
/// as its documentation and that of `str::to_ascii_lowercase` give.
#[verifier::external_body]
fn to_lowercase(s: &str) -> (r: String)
    ensures
        r@ == lowercase(s@),
        is_ascii_text(s@) ==> r@ == lower_ascii(s@),
{
    s.to_lowercase()
}

/// The grouping key of a name: collapsed, then lowercased.
pub open spec fn folded(s: Seq<char>) -> Seq<char> {
    lowercase(normalized(s))
}

/// Grouping key: normalized and case-folded, so `Lidl` and `lidl` are one store.
/// The spelling shown to the user is always the most recent one entered.
pub fn fold_key(value: &str) -> (r: String)
    ensures
        r@ == folded(value@),
        is_ascii_text(value@) ==> r@ == lower_ascii(normalized(value@)),
{
    let n = normalize(value);
    proof {
        if is_ascii_text(value@) {
            lemma_words_ascii(value@);
            lemma_join_ascii(words(value@));
        }
    }
    to_lowercase(n.as_str())
}

pub const FNV_OFFSET: u64 = 0xcbf2_9ce4_8422_2325;

pub const FNV_PRIME: u64 = 0x0000_0100_0000_01b3;

/// 64-bit FNV-1a over `bytes`.
pub open spec fn fnv1a(bytes: Seq<u8>) -> u64
    decreases bytes.len(),
{
    if bytes.len() == 0 {
        FNV_OFFSET
    } else {
        vstd::wrapping::u64_specs::wrapping_mul(fnv1a(bytes.drop_last()) ^ (bytes.last() as u64), FNV_PRIME)
    }
}

/// The identity of a product name: FNV-1a over the UTF-8 bytes of its folded key.
pub open spec fn key_of(product: Seq<char>) -> u64 {
    fnv1a(vstd::utf8::encode_utf8(folded(product)))
}

/// Stable, URL-safe identity for a product name (FNV-1a over its folded key).
///
/// The detail route needs to name a product, and the router does not
/// percent-encode plain `:param` segments — a product called `Lait 1/2 écrémé`
/// would produce a URL that no longer round-trips. A number always does, and
/// unlike a purchase id it survives that purchase being deleted.
pub fn product_key(product: &str) -> (k: u64)
    ensures
        k == key_of(product@),
{
    let key = fold_key(product);
    let bytes = key.as_str().as_bytes();
    let mut hash: u64 = FNV_OFFSET;
    let mut i: usize = 0;
    while i < bytes.len()
        invariant
            i <= bytes@.len(),
            bytes@ == vstd::utf8::encode_utf8(folded(product@)),
            hash == fnv1a(bytes@.take(i as int)),
        decreases bytes.len() - i,
    {
        let ghost t = bytes@.take(i + 1);
        assert(t.drop_last() == bytes@.take(i as int));
        hash = (hash ^ (bytes[i] as u64)).wrapping_mul(FNV_PRIME);
        i += 1;
    }
    assert(bytes@.take(bytes@.len() as int) == bytes@);
    hash
}

/// One FNV-1a step: mix a byte into the hash, then multiply by the prime.
pub open spec fn fnv_step(h: u64, b: u8) -> u64 {
    vstd::wrapping::u64_specs::wrapping_mul(h ^ (b as u64), FNV_PRIME)
}

/// The FNV prime has an inverse modulo 2^64, `0xce965057aff6957b`: multiplying
/// by the one and then by the other gives back what was there.
proof fn lemma_prime_inverse(x: u64)
    ensures
        ((x as int * FNV_PRIME as int) % 0x1_0000_0000_0000_0000int) * 0xce96_5057_aff6_957bint
            % 0x1_0000_0000_0000_0000int == x as int,
{
    let m: int = 0x1_0000_0000_0000_0000;
    let p: int = FNV_PRIME as int;
    let inv: int = 0xce96_5057_aff6_957b;
    let k: int = 887285111055;
    assert(p * inv == 1 + k * m);
    vstd::arithmetic::div_mod::lemma_mul_mod_noop_left(x as int * p, inv, m);
    assert((x as int * p) * inv == m * (x as int * k) + x as int) by (nonlinear_arith)
        requires
            p * inv == 1 + k * m,
    ;
    vstd::arithmetic::div_mod::lemma_mod_multiples_vanish(x as int * k, x as int, m);
    vstd::arithmetic::div_mod::lemma_small_mod(x as nat, m as nat);
}

/// Multiplying by the FNV prime modulo 2^64 loses nothing.
proof fn lemma_prime_mul_injective(a: u64, b: u64)
    requires
        vstd::wrapping::u64_specs::wrapping_mul(a, FNV_PRIME)
            == vstd::wrapping::u64_specs::wrapping_mul(b, FNV_PRIME),
    ensures
        a == b,
{
    let m: int = 0x1_0000_0000_0000_0000;
    let p: int = FNV_PRIME as int;
    lemma_prime_inverse(a);
    lemma_prime_inverse(b);
    assert(((a as int * p) % m) == ((b as int * p) % m));
}

/// Equal steps over the same byte came from equal hashes; equal steps from the
/// same hash mixed equal bytes.
proof fn lemma_fnv_step_injective(h1: u64, x1: u8, h2: u64, x2: u8)
    requires
        fnv_step(h1, x1) == fnv_step(h2, x2),
    ensures
        x1 == x2 ==> h1 == h2,
        h1 == h2 ==> x1 == x2,
{
    lemma_prime_mul_injective(h1 ^ (x1 as u64), h2 ^ (x2 as u64));
    let a = h1 ^ (x1 as u64);
    let b = h2 ^ (x2 as u64);
    assert(a == b && x1 == x2 ==> h1 == h2) by (bit_vector)
        requires
            a == h1 ^ (x1 as u64),
            b == h2 ^ (x2 as u64),
    ;
    assert(a == b && h1 == h2 ==> x1 == x2) by (bit_vector)
        requires
            a == h1 ^ (x1 as u64),
            b == h2 ^ (x2 as u64),
    ;
}

/// Hashes that differ keep differing once the same bytes follow.
proof fn lemma_fnv_suffix_keeps_apart(u: Seq<u8>, v: Seq<u8>, t: Seq<u8>)
    requires
        fnv1a(u) != fnv1a(v),
    ensures
        fnv1a(u + t) != fnv1a(v + t),
    decreases t.len(),
{
    if t.len() == 0 {
        assert(u + t == u);
        assert(v + t == v);
    } else {
        let t0 = t.drop_last();
        lemma_fnv_suffix_keeps_apart(u, v, t0);
        assert((u + t).drop_last() == u + t0);
        assert((v + t).drop_last() == v + t0);
        assert((u + t).last() == t.last());
        assert((v + t).last() == t.last());
        if fnv1a(u + t) == fnv1a(v + t) {
            lemma_fnv_step_injective(fnv1a(u + t0), t.last(), fnv1a(v + t0), t.last());
        }
    }
}

/// A product's key is FNV-1a run over every UTF-8 byte of its folded name: it
/// starts from the offset basis, and each byte is one step.
pub proof fn lemma_product_key_is_fnv1a(product: Seq<char>)
    ensures
        ({
            let b = vstd::utf8::encode_utf8(folded(product));
            &&& key_of(product) == fnv1a(b)
            &&& fnv1a(Seq::<u8>::empty()) == FNV_OFFSET
            &&& forall|i: int|
                0 <= i < b.len() ==> fnv1a(#[trigger] b.take(i + 1)) == fnv_step(
                    fnv1a(b.take(i)),
                    b[i],
                )
        }),
{
    let b = vstd::utf8::encode_utf8(folded(product));
    assert forall|i: int| 0 <= i < b.len() implies fnv1a(#[trigger] b.take(i + 1)) == fnv_step(
        fnv1a(b.take(i)),
        b[i],
    ) by {
        assert(b.take(i + 1).drop_last() == b.take(i));
        assert(b.take(i + 1).last() == b[i]);
    }
}

/// Every byte of the folded name counts: two names whose folded UTF-8 bytes are
/// the same but for one position get different keys, wherever that position is.
pub proof fn lemma_product_key_sees_every_byte(
    a: Seq<char>,
    b: Seq<char>,
    before: Seq<u8>,
    x: u8,
    y: u8,
    after: Seq<u8>,
)
    requires
        vstd::utf8::encode_utf8(folded(a)) == before + seq![x] + after,
        vstd::utf8::encode_utf8(folded(b)) == before + seq![y] + after,
        x != y,
    ensures
        key_of(a) != key_of(b),
{
    let u = before.push(x);
    let v = before.push(y);
    assert(u.drop_last() == before && u.last() == x);
    assert(v.drop_last() == before && v.last() == y);
    if fnv1a(u) == fnv1a(v) {
        lemma_fnv_step_injective(fnv1a(before), x, fnv1a(before), y);
    }
    assert(before + seq![x] == u);
    assert(before + seq![y] == v);
    lemma_fnv_suffix_keeps_apart(u, v, after);
}

/// Two spellings of one product share one key.
pub proof fn lemma_product_key_ignores_spelling(a: Seq<char>, b: Seq<char>)
    requires
        folded(a) == folded(b),
    ensures
        key_of(a) == key_of(b),
{
}

/// Strict lexicographic order on strings, character by character — the order of
/// `String`'s `Ord`, since UTF-8 keeps code-point order byte by byte.
pub open spec fn lex_less(a: Seq<char>, b: Seq<char>) -> bool {
    exists|k: int|
        #![trigger a.take(k), b.take(k)]
        0 <= k <= a.len() && k <= b.len() && a.take(k) == b.take(k) && ((k == a.len() && k
            < b.len()) || (k < a.len() && k < b.len() && (a[k] as u32) < (b[k] as u32)))
}

/// The lexicographic order is a strict order.
pub proof fn lemma_lex_less_strict()
    ensures
        forall|a: Seq<char>| !#[trigger] lex_less(a, a),
        forall|a: Seq<char>, b: Seq<char>, c: Seq<char>|
            #[trigger] lex_less(a, b) && #[trigger] lex_less(b, c) ==> lex_less(a, c),
{
    assert forall|a: Seq<char>, b: Seq<char>, c: Seq<char>|
        #[trigger] lex_less(a, b) && #[trigger] lex_less(b, c) implies lex_less(a, c) by {
        let k1 = choose|k: int|
            #![trigger a.take(k), b.take(k)]
            0 <= k <= a.len() && k <= b.len() && a.take(k) == b.take(k) && ((k == a.len() && k
                < b.len()) || (k < a.len() && k < b.len() && (a[k] as u32) < (b[k] as u32)));
        let k2 = choose|k: int|
            #![trigger b.take(k), c.take(k)]
            0 <= k <= b.len() && k <= c.len() && b.take(k) == c.take(k) && ((k == b.len() && k
                < c.len()) || (k < b.len() && k < c.len() && (b[k] as u32) < (c[k] as u32)));
        if k1 < k2 {
            assert(b.take(k1) == b.take(k2).take(k1));
            assert(c.take(k1) == c.take(k2).take(k1));
            assert(b.take(k2)[k1] == c.take(k2)[k1]);
            assert(a.take(k1) == c.take(k1));
        } else if k1 > k2 {
            assert(a.take(k2) == a.take(k1).take(k2));
            assert(b.take(k2) == b.take(k1).take(k2));
            assert(a.take(k1)[k2] == b.take(k1)[k2]);
            assert(a.take(k2) == c.take(k2));
        } else {
            assert(a.take(k1) == c.take(k1));
        }
    }
}

/// Compares two strings given as characters.
pub fn chars_less(a: &Vec<char>, b: &Vec<char>) -> (r: bool)
    ensures
        r == lex_less(a@, b@),
{
    let mut i: usize = 0;
    while i < a.len() && i < b.len() && a[i] == b[i]
        invariant
            i <= a.len(),
            i <= b.len(),
            a@.take(i as int) == b@.take(i as int),
        decreases a.len() - i,
    {
        assert(a@.take(i + 1) == a@.take(i as int).push(a@[i as int]));
        assert(b@.take(i + 1) == b@.take(i as int).push(b@[i as int]));
        i += 1;
    }
    let r = if i < a.len() && i < b.len() {
        (a[i] as u32) < (b[i] as u32)
    } else {
        i == a.len() && i < b.len()
    };
    proof {
        if r {
            assert(a@.take(i as int) == b@.take(i as int));
        } else {
            assert forall|k: int|
                0 <= k <= a@.len() && k <= b@.len() && #[trigger] a@.take(k) == #[trigger] b@.take(k)
                implies !((k == a@.len() && k < b@.len()) || (k < a@.len() && k < b@.len() && (
            a@[k] as u32) < (b@[k] as u32))) by {
                if k > i {
                    assert(a@.take(k)[i as int] == b@.take(k)[i as int]);
                } else if k < i {
                    assert(a@.take(i as int)[k] == b@.take(i as int)[k]);
                }
            }
        }
    }
    r
}

proof fn lemma_ascii_lower_keeps_space(c: char)
    ensures
        is_space(ascii_lower(c)) == is_space(c),
        (c as u32) < 128 ==> (ascii_lower(c) as u32) < 128,
        ascii_lower(' ') == ' ',
{
}

/// The words of a text with its capitals lowered are its words, lowered.
proof fn lemma_words_lower(s: Seq<char>)
    ensures
        words(lower_ascii(s)) == words(s).map_values(|w: Seq<char>| lower_ascii(w)),
    decreases s.len(),
{
    let wl = |w: Seq<char>| lower_ascii(w);
    if s.len() > 0 {
        let p = s.drop_last();
        let t = lower_ascii(s);
        lemma_words_lower(p);
        assert(t.drop_last() == lower_ascii(p));
        assert(t.last() == ascii_lower(s.last()));
        lemma_ascii_lower_keeps_space(s.last());
        let before = words(p);
        let c = s.last();
        if is_space(c) {
        } else if s.len() >= 2 && !is_space(s[s.len() - 2]) {
            assert(t[t.len() - 2] == ascii_lower(s[s.len() - 2]));
            lemma_ascii_lower_keeps_space(s[s.len() - 2]);
            lemma_words_are_words(p);
            assert(p.last() == s[s.len() - 2]);
            assert(before.len() > 0);
            let after = before.update(before.len() - 1, before.last().push(c));
            assert(lower_ascii(before.last().push(c)) == lower_ascii(before.last()).push(
                ascii_lower(c),
            ));
            assert(words(t) == after.map_values(wl));
        } else {
            if s.len() >= 2 {
                assert(t[t.len() - 2] == ascii_lower(s[s.len() - 2]));
                lemma_ascii_lower_keeps_space(s[s.len() - 2]);
            }
            assert(lower_ascii(seq![c]) == seq![ascii_lower(c)]);
            assert(words(t) == before.push(seq![c]).map_values(wl));
        }
    } else {
        assert(lower_ascii(s) == s);
    }
}

/// Joining lowered words is lowering their join.
proof fn lemma_join_lower(ws: Seq<Seq<char>>)
    ensures
        join_words(ws.map_values(|w: Seq<char>| lower_ascii(w))) == lower_ascii(join_words(ws)),
    decreases ws.len(),
{
    let wl = |w: Seq<char>| lower_ascii(w);
    let m = ws.map_values(wl);
    if ws.len() == 0 {
        assert(lower_ascii(Seq::<char>::empty()) == Seq::<char>::empty());
    } else if ws.len() > 1 {
        lemma_join_lower(ws.drop_last());
        assert(m.drop_last() == ws.drop_last().map_values(wl));
        lemma_ascii_lower_keeps_space(' ');
        let j = join_words(ws.drop_last());
        assert(lower_ascii(j + seq![' '] + ws.last()) == lower_ascii(j) + seq![' '] + lower_ascii(
            ws.last(),
        ));
    }
}

/// Collapsing whitespace and lowering ASCII capitals can be done in either order.
pub proof fn lemma_normalized_lower(s: Seq<char>)
    ensures
        normalized(lower_ascii(s)) == lower_ascii(normalized(s)),
{
    lemma_words_lower(s);
    lemma_join_lower(words(s));
}

/// Collapsing whitespace in ASCII text leaves ASCII text.
proof fn lemma_words_ascii(s: Seq<char>)
    requires
        is_ascii_text(s),
    ensures
        forall|j: int| 0 <= j < words(s).len() ==> is_ascii_text(#[trigger] words(s)[j]),
    decreases s.len(),
{
    if s.len() > 0 {
        let p = s.drop_last();
        assert(is_ascii_text(p)) by {
            assert forall|k: int| 0 <= k < p.len() implies (#[trigger] p[k] as u32) < 128 by {
                assert(p[k] == s[k]);
            }
        }
        lemma_words_ascii(p);
        let before = words(p);
        let c = s.last();
        assert((c as u32) < 128);
        if is_space(c) {
        } else if s.len() >= 2 && !is_space(s[s.len() - 2]) {
            assert(p.last() == s[s.len() - 2]);
            lemma_words_are_words(p);
            let w = before.last().push(c);
            assert(is_ascii_text(before[before.len() - 1]));
            assert forall|k: int| 0 <= k < w.len() implies (#[trigger] w[k] as u32) < 128 by {
                if k < w.len() - 1 {
                    assert(w[k] == before[before.len() - 1][k]);
                }
            }
        } else {
            let w: Seq<char> = seq![c];
            assert forall|k: int| 0 <= k < w.len() implies (#[trigger] w[k] as u32) < 128 by {}
        }
    }
}

proof fn lemma_join_ascii(ws: Seq<Seq<char>>)
    requires
        forall|j: int| 0 <= j < ws.len() ==> is_ascii_text(#[trigger] ws[j]),
    ensures
        is_ascii_text(join_words(ws)),
    decreases ws.len(),
{
    if ws.len() == 1 {
        assert(is_ascii_text(ws[0]));
    } else if ws.len() > 1 {
        let p = ws.drop_last();
        assert forall|j: int| 0 <= j < p.len() implies is_ascii_text(#[trigger] p[j]) by {
            assert(p[j] == ws[j]);
        }
        lemma_join_ascii(p);
        let j = join_words(p);
        let l = ws.last();
        assert(is_ascii_text(l));
        let r = j + seq![' '] + l;
        assert forall|k: int| 0 <= k < r.len() implies (#[trigger] r[k] as u32) < 128 by {
            if k < j.len() {
                assert(r[k] == j[k]);
            } else if k > j.len() {
                assert(r[k] == l[k - j.len() - 1]);
            }
        }
    }
}

/// `needle` occurs in `hay`, as a run of consecutive characters.
pub open spec fn contains_text(hay: Seq<char>, needle: Seq<char>) -> bool {
    exists|k: int|
        0 <= k && k + needle.len() <= hay.len() && #[trigger] hay.subrange(k, k + needle.len())
            == needle
}

fn occurs_at(hay: &Vec<char>, needle: &Vec<char>, k: usize) -> (b: bool)
    requires
        k + needle@.len() <= hay@.len(),
    ensures
        b == (hay@.subrange(k as int, k + needle@.len()) == needle@),
{
    let hay_len = hay.len();
    let mut j: usize = 0;
    while j < needle.len()
        invariant
            j <= needle@.len(),
            hay_len == hay@.len(),
            k + needle@.len() <= hay@.len(),
            forall|i: int| 0 <= i < j ==> hay@[k + i] == needle@[i],
        decreases needle.len() - j,
    {
        if hay[k + j] != needle[j] {
            assert(hay@.subrange(k as int, k + needle@.len())[j as int] == hay@[k + j]);
            return false;
        }
        j += 1;
    }
    assert(hay@.subrange(k as int, k + needle@.len()) =~= needle@);
    true
}

/// Whether the search text matches a name: the name's grouping key holds the
/// search's grouping key (an empty search matches every name).
pub fn name_matches(name: &str, search: &str) -> (b: bool)
    ensures
        b == contains_text(folded(name@), folded(search@)),
{
    let hay = chars_of(fold_key(name).as_str());
    let needle = chars_of(fold_key(search).as_str());
    let ghost h = folded(name@);
    let ghost n = folded(search@);
    if needle.len() == 0 {
        assert(h.subrange(0int, 0int + n.len()) =~= n);
        return true;
    }
    if needle.len() > hay.len() {
        return false;
    }
    let count = hay.len() - needle.len() + 1;
    let mut k: usize = 0;
    while k < count
        invariant
            k <= count,
            hay@ == h,
            needle@ == n,
            h == folded(name@),
            n == folded(search@),
            count + needle@.len() == hay@.len() + 1,
            forall|i: int| 0 <= i < k ==> #[trigger] hay@.subrange(i, i + needle@.len()) != needle@,
        decreases count - k,
    {
        if occurs_at(&hay, &needle, k) {
            assert(h.subrange(k as int, k + n.len()) == n);
            return true;
        }
        k += 1;
    }
    false
}

} // verus!
