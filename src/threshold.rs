//! Parsing of a size given as text, such as a reporting threshold (`"1.5M"`).
use vstd::prelude::*;
use vstd::string::StringSliceAdditionalSpecFns;
use crate::format::{all_digits, digits_value, is_digit, letter_unit, unit_div, NUM_UNITS};

verus! {

/// An ASCII White_Space character: tab, line feed, vertical tab, form feed,
/// carriage return or space.
pub open spec fn is_space(c: u8) -> bool {
    c == 32 || (9 <= c <= 13)
}

/// The two-byte UTF-8 encoding of a White_Space character: U+0085 or U+00A0.
pub open spec fn is_space2(a: u8, b: u8) -> bool {
    a == 0xC2 && (b == 0x85 || b == 0xA0)
}

/// The three-byte UTF-8 encoding of a White_Space character: U+1680,
/// U+2000 to U+200A, U+2028, U+2029, U+202F, U+205F or U+3000.
pub open spec fn is_space3(a: u8, b: u8, c: u8) -> bool {
    (a == 0xE1 && b == 0x9A && c == 0x80) || (a == 0xE2 && b == 0x80 && ((0x80 <= c <= 0x8A)
        || c == 0xA8 || c == 0xA9 || c == 0xAF)) || (a == 0xE2 && b == 0x81 && c == 0x9F) || (a
        == 0xE3 && b == 0x80 && c == 0x80)
}

/// Length of the encoded White_Space character that `s` starts with, or 0.
pub open spec fn space_len_at_start(s: Seq<u8>) -> nat {
    if s.len() >= 1 && is_space(s[0]) {
        1
    } else if s.len() >= 2 && is_space2(s[0], s[1]) {
        2
    } else if s.len() >= 3 && is_space3(s[0], s[1], s[2]) {
        3
    } else {
        0
    }
}

/// Length of the encoded White_Space character that `s` ends with, or 0.
pub open spec fn space_len_at_end(s: Seq<u8>) -> nat {
    let n = s.len();
    if n >= 1 && is_space(s[n - 1]) {
        1
    } else if n >= 2 && is_space2(s[n - 2], s[n - 1]) {
        2
    } else if n >= 3 && is_space3(s[n - 3], s[n - 2], s[n - 1]) {
        3
    } else {
        0
    }
}

pub open spec fn trim_start(s: Seq<u8>) -> Seq<u8>
    decreases s.len(),
{
    let k = space_len_at_start(s);
    if k > 0 && k <= s.len() {
        trim_start(s.skip(k as int))
    } else {
        s
    }
}

pub open spec fn trim_end(s: Seq<u8>) -> Seq<u8>
    decreases s.len(),
{
    let k = space_len_at_end(s);
    if k > 0 && k <= s.len() {
        trim_end(s.take(s.len() - k))
    } else {
        s
    }
}

/// `s` without leading and trailing whitespace.
pub open spec fn trim(s: Seq<u8>) -> Seq<u8> {
    trim_end(trim_start(s))
}

/// Length of the leading run of digits and dots.
pub open spec fn number_len(t: Seq<u8>) -> nat
    decreases t.len(),
{
    if t.len() == 0 || !(is_digit(t[0]) || t[0] == 46) {
        0
    } else {
        1 + number_len(t.skip(1))
    }
}

/// Index of the first dot, or the length when there is none.
pub open spec fn dot_index(t: Seq<u8>) -> nat
    decreases t.len(),
{
    if t.len() == 0 || t[0] == 46 {
        0
    } else {
        1 + dot_index(t.skip(1))
    }
}

pub open spec fn pow10(n: nat) -> nat
    decreases n,
{
    if n == 0 {
        1
    } else {
        10 * pow10((n - 1) as nat)
    }
}

/// Value of a string of decimal digits read from the front: the digits after
/// a decimal point, scaled by `10` to the power of their count.
pub open spec fn frac_value(t: Seq<u8>) -> nat
    decreases t.len(),
{
    if t.len() == 0 {
        0
    } else {
        (t[0] - 48) as nat * pow10((t.len() - 1) as nat) + frac_value(t.skip(1))
    }
}

/// ASCII upper case of a byte.
pub open spec fn upper(c: u8) -> u8 {
    if 97 <= c <= 122 {
        (c - 32) as u8
    } else {
        c
    }
}

/// The factor that a unit suffix stands for: a letter of the ladder, in
/// either case, or 1 for anything else.
pub open spec fn unit_multiplier(u: Seq<u8>) -> nat {
    if u.len() == 1 && letter_unit(upper(u[0])) is Some {
        unit_div(letter_unit(upper(u[0])).unwrap())
    } else {
        1
    }
}

/// Meaning of a size text: after trimming, a decimal number (digits with at
/// most one dot, at least one digit) followed by a unit suffix; the value is
/// the number times the unit, rounded down and capped at the largest signed
/// 64-bit integer. `None` when the number is malformed.
pub open spec fn size_of_text(s: Seq<u8>) -> Option<i64> {
    let t = trim(s);
    let num = t.take(number_len(t) as int);
    let unit = t.skip(number_len(t) as int);
    let p = dot_index(num);
    let ip = num.take(p as int);
    let fp = if p < num.len() {
        num.skip(p + 1 as int)
    } else {
        Seq::empty()
    };
    let m = unit_multiplier(unit);
    if all_digits(ip) && all_digits(fp) && ip.len() + fp.len() > 0 {
        let v = digits_value(ip) * m + (frac_value(fp) * (m as nat)) / pow10(fp.len());
        Some(
            if v > 0x7fff_ffff_ffff_ffff {
                0x7fff_ffff_ffff_ffff
            } else {
                v as i64
            },
        )
    } else {
        None
    }
}

proof fn lemma_pow10_positive(n: nat)
    ensures
        pow10(n) >= 1,
    decreases n,
{
    if n > 0 {
        lemma_pow10_positive((n - 1) as nat);
    }
}

/// One step of reading a fraction from its last digit: prepending digit `d`
/// to `t` turns the floored scaled value `(f * m) / 10^len` into
/// `(m * d + that) / 10`.
proof fn lemma_frac_step(d: nat, t: Seq<u8>, m: nat)
    ensures
        ((d * pow10(t.len()) + frac_value(t)) * m) / pow10(t.len() + 1) == (m * d + (
        frac_value(t) * m) / pow10(t.len())) / 10,
{
    let p = pow10(t.len());
    lemma_pow10_positive(t.len());
    let f = frac_value(t);
    let x = (d * p + f) * m;
    assert(x == p * (m * d) + f * m) by (nonlinear_arith)
        requires
            x == (d * p + f) * m,
    ;
    assert(pow10(t.len() + 1) == p * 10);
    vstd::arithmetic::div_mod::lemma_div_denominator(x as int, p as int, 10);
    vstd::arithmetic::div_mod::lemma_hoist_over_denominator(
        (frac_value(t) * m) as int,
        (m * d) as int,
        p,
    );
    assert((x as int) / (p as int) == (m * d) as int + ((f * m) as int) / (p as int)) by {
        assert((f * m) as int + (m * d) as int * (p as int) == x as int) by (nonlinear_arith)
            requires
                x == p * (m * d) + f * m,
        ;
    }
}

fn upper_byte(c: u8) -> (r: u8)
    ensures
        r == upper(c),
{
    if 97 <= c && c <= 122 {
        c - 32
    } else {
        c
    }
}

fn space_at_start(b: &[u8], lo: usize, hi: usize) -> (r: usize)
    requires
        lo <= hi <= b@.len(),
    ensures
        r == space_len_at_start(b@.subrange(lo as int, hi as int)),
        r <= hi - lo,
{
    let n = hi - lo;
    if n >= 1 && (b[lo] == 32 || (9 <= b[lo] && b[lo] <= 13)) {
        1
    } else if n >= 2 && b[lo] == 0xC2 && (b[lo + 1] == 0x85 || b[lo + 1] == 0xA0) {
        2
    } else if n >= 3 && is_space3_bytes(b[lo], b[lo + 1], b[lo + 2]) {
        3
    } else {
        0
    }
}

fn space_at_end(b: &[u8], lo: usize, hi: usize) -> (r: usize)
    requires
        lo <= hi <= b@.len(),
    ensures
        r == space_len_at_end(b@.subrange(lo as int, hi as int)),
        r <= hi - lo,
{
    let n = hi - lo;
    if n >= 1 && (b[hi - 1] == 32 || (9 <= b[hi - 1] && b[hi - 1] <= 13)) {
        1
    } else if n >= 2 && b[hi - 2] == 0xC2 && (b[hi - 1] == 0x85 || b[hi - 1] == 0xA0) {
        2
    } else if n >= 3 && is_space3_bytes(b[hi - 3], b[hi - 2], b[hi - 1]) {
        3
    } else {
        0
    }
}

fn is_space3_bytes(a: u8, b: u8, c: u8) -> (r: bool)
    ensures
        r == is_space3(a, b, c),
{
    (a == 0xE1 && b == 0x9A && c == 0x80) || (a == 0xE2 && b == 0x80 && ((0x80 <= c && c
        <= 0x8A) || c == 0xA8 || c == 0xA9 || c == 0xAF)) || (a == 0xE2 && b == 0x81 && c
        == 0x9F) || (a == 0xE3 && b == 0x80 && c == 0x80)
}

/// Bounds of `b` without its leading and trailing White_Space characters.
pub fn trim_bounds(b: &[u8]) -> (r: (usize, usize))
    ensures
        r.0 <= r.1 <= b@.len(),
        trim(b@) == b@.subrange(r.0 as int, r.1 as int),
{
    let ghost s = b@;
    let len = b.len();
    let mut lo: usize = 0;
    assert(s.subrange(0, len as int) == s);
    let mut k = space_at_start(b, 0, len);
    while k > 0
        invariant
            lo <= len,
            len == s.len(),
            s == b@,
            k == space_len_at_start(s.subrange(lo as int, len as int)),
            k <= len - lo,
            trim_start(s) == trim_start(s.subrange(lo as int, len as int)),
        decreases len - lo,
    {
        assert(s.subrange(lo as int, len as int).skip(k as int) == s.subrange(lo + k, len as int));
        lo = lo + k;
        k = space_at_start(b, lo, len);
    }
    let mut hi: usize = len;
    let mut j = space_at_end(b, lo, hi);
    while j > 0
        invariant
            lo <= hi <= len,
            len == s.len(),
            s == b@,
            j == space_len_at_end(s.subrange(lo as int, hi as int)),
            j <= hi - lo,
            trim(s) == trim_end(s.subrange(lo as int, hi as int)),
        decreases hi,
    {
        assert(s.subrange(lo as int, hi as int).take(hi - lo - j) == s.subrange(lo as int, hi - j));
        hi = hi - j;
        j = space_at_end(b, lo, hi);
    }
    (lo, hi)
}

/// Value of the digits `b[lo..hi]`, capped at `cap`; `None` if one is not a
/// digit.
fn capped_digits_value(b: &[u8], lo: usize, hi: usize, cap: u128) -> (r: Option<u128>)
    requires
        lo <= hi <= b@.len(),
        cap <= 0x1_0000_0000_0000_0000,
    ensures
        r is Some <==> all_digits(b@.subrange(lo as int, hi as int)),
        r is Some ==> r.unwrap() == if digits_value(b@.subrange(lo as int, hi as int)) < cap {
            digits_value(b@.subrange(lo as int, hi as int))
        } else {
            cap as nat
        },
{
    let ghost ip = b@.subrange(lo as int, hi as int);
    let mut acc: u128 = 0;
    let mut i: usize = lo;
    assert(ip.take(0) =~= Seq::<u8>::empty());
    while i < hi
        invariant
            lo <= i <= hi <= b@.len(),
            ip == b@.subrange(lo as int, hi as int),
            all_digits(ip.take(i - lo)),
            cap <= 0x1_0000_0000_0000_0000,
            acc <= cap,
            acc == if digits_value(ip.take(i - lo)) < cap {
                digits_value(ip.take(i - lo))
            } else {
                cap as nat
            },
        decreases hi - i,
    {
        let c = b[i];
        if !is_digit_byte(c) {
            assert(!is_digit(ip[i - lo]));
            return None;
        }
        let ghost next = ip.take(i + 1 - lo);
        assert(next.drop_last() == ip.take(i - lo));
        assert(next.last() == c);
        assert(all_digits(next)) by {
            assert forall|j: int| 0 <= j < next.len() implies is_digit(#[trigger] next[j]) by {
                if j < next.len() - 1 {
                    assert(next[j] == ip.take(i - lo)[j]);
                }
            }
        }
        let v = if acc >= cap { cap } else { acc * 10 + (c - 48u8) as u128 };
        acc = if v < cap {
            v
        } else {
            cap
        };
        i += 1;
    }
    assert(ip.take(hi - lo) == ip);
    Some(acc)
}

/// `(f * m) / 10^len` for the fraction digits `f = b[lo..hi]`, read from the
/// last digit; `None` if one is not a digit.
fn scaled_fraction(b: &[u8], lo: usize, hi: usize, m: u128) -> (r: Option<u128>)
    requires
        lo <= hi <= b@.len(),
        1 <= m <= 1180591620717411303424,
    ensures
        r is Some <==> all_digits(b@.subrange(lo as int, hi as int)),
        r is Some ==> r.unwrap() == (frac_value(b@.subrange(lo as int, hi as int)) * (m as nat))
            / pow10((hi - lo) as nat),
        r is Some ==> r.unwrap() < m,
{
    let ghost fp = b@.subrange(lo as int, hi as int);
    let mut q: u128 = 0;
    let mut j: usize = hi;
    assert(fp.skip(hi - lo) =~= Seq::<u8>::empty());
    while j > lo
        invariant
            lo <= j <= hi <= b@.len(),
            fp == b@.subrange(lo as int, hi as int),
            all_digits(fp.skip(j - lo)),
            1 <= m <= 1180591620717411303424,
            q == (frac_value(fp.skip(j - lo)) * (m as nat)) / pow10(fp.skip(j - lo).len()),
            q < m,
        decreases j,
    {
        let c = b[j - 1];
        if !is_digit_byte(c) {
            assert(!is_digit(fp[j - 1 - lo]));
            return None;
        }
        let d = (c - 48u8) as u128;
        let ghost tail = fp.skip(j - lo);
        let ghost whole = fp.skip(j - 1 - lo);
        assert(whole.skip(1) == tail);
        assert(whole[0] == c);
        assert(all_digits(whole)) by {
            assert forall|k: int| 0 <= k < whole.len() implies is_digit(#[trigger] whole[k]) by {
                if k > 0 {
                    assert(whole[k] == tail[k - 1]);
                }
            }
        }
        proof {
            lemma_frac_step(d as nat, tail, m as nat);
            lemma_frac_bound(whole, m as nat);
        }
        assert(m * d + q < 10 * m) by (nonlinear_arith)
            requires
                d <= 9,
                q < m,
        ;
        q = (m * d + q) / 10;
        j -= 1;
    }
    assert(fp.skip(0) == fp);
    Some(q)
}

/// Parses a size text such as `"512"`, `"1.5M"` or `" 2k "` into bytes.
pub fn parse_size_to_bytes(size_str: &str) -> (r: Option<i64>)
    ensures
        r == size_of_text(size_str.spec_bytes()),
{
    let b = size_str.as_bytes();
    let ghost s = b@;
    let (lo, hi) = trim_bounds(b);
    let ghost t = s.subrange(lo as int, hi as int);
    // the number: a run of digits and dots
    let mut e: usize = lo;
    assert(t.skip(0) == t);
    while e < hi && (is_digit_byte(b[e]) || b[e] == 46u8)
        invariant
            lo <= e <= hi <= s.len(),
            s == b@,
            t == s.subrange(lo as int, hi as int),
            number_len(t) == (e - lo) + number_len(t.skip(e - lo)),
        decreases hi - e,
    {
        assert(t.skip(e - lo).skip(1) == t.skip(e - lo + 1));
        e += 1;
    }
    assert(number_len(t.skip(e - lo)) == 0);
    let ghost num = t.take(number_len(t) as int);
    assert(num == s.subrange(lo as int, e as int));
    // the first dot
    let mut p: usize = lo;
    assert(num.skip(0) == num);
    while p < e && b[p] != 46u8
        invariant
            lo <= p <= e <= hi <= s.len(),
            s == b@,
            num == s.subrange(lo as int, e as int),
            dot_index(num) == (p - lo) + dot_index(num.skip(p - lo)),
        decreases e - p,
    {
        assert(num.skip(p - lo).skip(1) == num.skip(p - lo + 1));
        p += 1;
    }
    assert(dot_index(num.skip(p - lo)) == 0);
    let frac_start: usize = if p < e {
        p + 1
    } else {
        e
    };
    assert(num.take(dot_index(num) as int) == s.subrange(lo as int, p as int));
    if p < e {
        assert(num.skip(dot_index(num) + 1 as int) == s.subrange(frac_start as int, e as int));
    }
    // the unit
    let mut m: u128 = 1;
    if hi - e == 1 {
        if let Some(i) = crate::format::letter_to_unit(upper_byte(b[e])) {
            m = crate::format::unit_divisor(i);
        }
    }
    assert(t.skip(number_len(t) as int) == s.subrange(e as int, hi as int));
    assert(m == unit_multiplier(s.subrange(e as int, hi as int)));
    let cap: u128 = 0x8000_0000_0000_0000;
    let ip = capped_digits_value(b, lo, p, cap);
    let fq = scaled_fraction(b, frac_start, e, m);
    let ghost iv = digits_value(s.subrange(lo as int, p as int));
    let ghost fv = (frac_value(s.subrange(frac_start as int, e as int)) * (m as nat)) / pow10(
        (e - frac_start) as nat,
    );
    match (ip, fq) {
        (Some(acc), Some(q)) => {
            if p == lo && frac_start == e {
                return None;
            }
            Some(saturating_value(acc, q, m, Ghost(iv)))
        },
        _ => None,
    }
}

/// `iv * m + q`, capped at the largest signed 64-bit integer, from `iv`
/// capped at 2^63.
fn saturating_value(acc: u128, q: u128, m: u128, Ghost(iv): Ghost<nat>) -> (r: i64)
    requires
        acc == if iv < 0x8000_0000_0000_0000 {
            iv
        } else {
            0x8000_0000_0000_0000
        },
        1 <= m <= 1180591620717411303424,
        q < m,
    ensures
        r == (if iv * m + q > 0x7fff_ffff_ffff_ffff {
            0x7fff_ffff_ffff_ffff
        } else {
            iv * m + q
        }),
{
    let cap: u128 = 0x8000_0000_0000_0000;
    if acc >= cap {
        proof { lemma_saturates(iv, m as nat, q as nat); }
        return 0x7fff_ffff_ffff_ffff;
    }
    if acc > cap / m {
        assert(acc * m >= cap) by (nonlinear_arith)
            requires
                acc > cap / m,
                m >= 1,
        ;
        proof { lemma_saturates((iv * m) as nat, 1, q as nat); }
        return 0x7fff_ffff_ffff_ffff;
    }
    assert(acc * m <= cap) by (nonlinear_arith)
        requires
            acc <= cap / m,
            m >= 1,
    ;
    let v = acc * m + q;
    if v > 0x7fff_ffff_ffff_ffff {
        0x7fff_ffff_ffff_ffff
    } else {
        v as i64
    }
}

proof fn lemma_saturates(a: nat, m: nat, f: nat)
    requires
        a >= 0x8000_0000_0000_0000,
        m >= 1,
    ensures
        a * m + f > 0x7fff_ffff_ffff_ffff,
{
    assert(a * m >= a) by (nonlinear_arith)
        requires
            m >= 1,
    ;
}

/// A scaled fraction stays below one whole unit.
proof fn lemma_frac_bound(t: Seq<u8>, m: nat)
    requires
        all_digits(t),
        m >= 1,
    ensures
        frac_value(t) < pow10(t.len()),
        (frac_value(t) * m) / pow10(t.len()) < m,
    decreases t.len(),
{
    lemma_pow10_positive(t.len());
    if t.len() > 0 {
        let u = t.skip(1);
        assert(all_digits(u)) by {
            assert forall|k: int| 0 <= k < u.len() implies is_digit(#[trigger] u[k]) by {
                assert(u[k] == t[k + 1]);
            }
        }
        lemma_frac_bound(u, m);
        assert(is_digit(t[0]));
        let p = pow10(u.len());
        assert(pow10(t.len()) == 10 * p);
        let d = (t[0] - 48) as nat;
        assert(d * p + frac_value(u) < 10 * p) by (nonlinear_arith)
            requires
                d <= 9,
                frac_value(u) < p,
        ;
    }
    let f = frac_value(t);
    let p = pow10(t.len());
    assert((f * m) / p < m) by (nonlinear_arith)
        requires
            f < p,
            p >= 1,
            m >= 1,
    ;
}

fn is_digit_byte(c: u8) -> (r: bool)
    ensures
        r == is_digit(c),
{
    48 <= c && c <= 57
}

} // verus!
