//! Coercion of a raw value string into a typed scalar, trying in a fixed
//! order: signed 64-bit integer, floating-point literal, boolean literal,
//! and otherwise the string itself, unchanged.

use vstd::prelude::*;
use core::str::FromStr;
use crate::Error;
use crate::chars::chars_vec;
use crate::chars::sub_chars;
use crate::value::Value;
use crate::value::ValueView;

verus! {

pub open spec fn is_digit(c: char) -> bool {
    48 <= c as u32 <= 57
}

pub open spec fn digit_val(c: char) -> int {
    c as u32 - 48
}

pub open spec fn all_digits(s: Seq<char>) -> bool {
    forall|i: int| 0 <= i < s.len() ==> is_digit(#[trigger] s[i])
}

/// The number denoted by a string of decimal digits, most significant first.
pub open spec fn digits_val(s: Seq<char>) -> int
    decreases s.len(),
{
    if s.len() == 0 {
        0
    } else {
        10 * digits_val(s.drop_last()) + digit_val(s.last())
    }
}

pub proof fn lemma_digits_val_nonneg(s: Seq<char>)
    requires
        all_digits(s),
    ensures
        digits_val(s) >= 0,
    decreases s.len(),
{
    if s.len() > 0 {
        assert(all_digits(s.drop_last()));
        lemma_digits_val_nonneg(s.drop_last());
    }
}

/// A longer digit string never denotes a smaller number.
pub proof fn lemma_digits_val_take_le(s: Seq<char>, j: int)
    requires
        all_digits(s),
        0 <= j <= s.len(),
    ensures
        digits_val(s.take(j)) <= digits_val(s),
    decreases s.len() - j,
{
    if j < s.len() {
        assert(all_digits(s.take(j))) by {
            assert(forall|i: int| 0 <= i < j ==> s.take(j)[i] == #[trigger] s[i]);
        }
        lemma_digits_val_nonneg(s.take(j));
        assert(s.take(j + 1).drop_last() =~= s.take(j));
        assert(digits_val(s.take(j + 1)) == 10 * digits_val(s.take(j)) + digit_val(s.take(j + 1).last()));
        assert(is_digit(s[j]));
        lemma_digits_val_take_le(s, j + 1);
    } else {
        assert(s.take(j) =~= s);
    }
}

/// Reads an unsigned decimal number from `v[start..]`; `None` where that
/// range is empty, holds a non-digit, or denotes more than `limit`.
fn parse_u64_digits(v: &Vec<char>, start: usize, limit: u64) -> (r: Option<u64>)
    requires
        start <= v@.len(),
    ensures
        match r {
            Some(n) => {
                &&& start < v@.len()
                &&& all_digits(v@.skip(start as int))
                &&& digits_val(v@.skip(start as int)) == n as int
                &&& n <= limit
            },
            None => {
                ||| start == v@.len()
                ||| !all_digits(v@.skip(start as int))
                ||| digits_val(v@.skip(start as int)) > limit
            },
        },
{
    let ghost b = v@.skip(start as int);
    if start == v.len() {
        return None;
    }
    let mut acc: u64 = 0;
    let mut i: usize = start;
    while i < v.len()
        invariant
            start <= i <= v@.len(),
            b == v@.skip(start as int),
            all_digits(b.take(i - start)),
            acc == digits_val(b.take(i - start)),
            acc <= limit,
        decreases v@.len() - i,
    {
        let c = v[i];
        let cu = c as u32;
        proof {
            assert(b[i - start] == v@[i as int]);
        }
        if cu < 48 || cu > 57 {
            proof {
                assert(!is_digit(b[i - start]));
            }
            return None;
        }
        let d = (cu - 48) as u64;
        if d > limit || acc > (limit - d) / 10 {
            proof {
                assert(b.take(i - start + 1).drop_last() =~= b.take(i - start));
                assert(all_digits(b.take(i - start + 1)));
                assert(digits_val(b.take(i - start + 1)) == 10 * acc + d);
                assert(10 * acc + d > limit) by (nonlinear_arith)
                    requires
                        d > limit || acc > (limit - d) / 10,
                        d <= 9,
                        acc >= 0,
                {
                }
                if all_digits(b) {
                    lemma_digits_val_take_le(b, i - start + 1);
                }
            }
            return None;
        }
        proof {
            assert(10 * acc + d <= limit) by (nonlinear_arith)
                requires
                    acc <= (limit - d) / 10,
                    d <= 9,
                    d <= limit,
                    acc >= 0,
            {
            }
            assert(b.take(i - start + 1).drop_last() =~= b.take(i - start));
        }
        acc = acc * 10 + d;
        i += 1;
    }
    proof {
        assert(b.take(v@.len() - start) =~= b);
    }
    Some(acc)
}

/// Rust-style unsigned parse: an optional leading `+`, then decimal digits.
pub open spec fn uint_body(s: Seq<char>) -> Seq<char> {
    if s.len() > 0 && s[0] == '+' {
        s.skip(1)
    } else {
        s
    }
}

/// What `str::parse::<usize>` accepts and yields: an optional `+` sign,
/// one or more decimal digits, and a value no larger than `usize::MAX`.
pub open spec fn parse_usize_spec(s: Seq<char>) -> Option<int> {
    let b = uint_body(s);
    if b.len() > 0 && all_digits(b) && digits_val(b) <= usize::MAX {
        Some(digits_val(b))
    } else {
        None
    }
}

/// Decides `parse_usize_spec` on a character vector.
pub fn parse_usize_chars(v: &Vec<char>) -> (r: Option<usize>)
    ensures
        match r {
            Some(n) => parse_usize_spec(v@) == Some(n as int),
            None => parse_usize_spec(v@) is None,
        },
{
    let start: usize = if v.len() > 0 && v[0] == '+' {
        1
    } else {
        0
    };
    proof {
        if start == 0 {
            assert(uint_body(v@) =~= v@.skip(0));
        }
        if all_digits(uint_body(v@)) {
            lemma_digits_val_nonneg(uint_body(v@));
        }
    }
    match parse_u64_digits(v, start, usize::MAX as u64) {
        Some(n) => Some(n as usize),
        None => None,
    }
}

/// What `str::parse::<i64>` accepts and yields: an optional sign, one or
/// more decimal digits, and a value within the signed 64-bit range.
pub open spec fn parse_i64_spec(s: Seq<char>) -> Option<int> {
    if s.len() == 0 {
        None
    } else {
        let neg = s[0] == '-';
        let b = if s[0] == '-' || s[0] == '+' {
            s.skip(1)
        } else {
            s
        };
        if b.len() > 0 && all_digits(b) {
            let m = digits_val(b);
            if neg && -m >= i64::MIN {
                Some(-m)
            } else if !neg && m <= i64::MAX {
                Some(m)
            } else {
                None
            }
        } else {
            None
        }
    }
}

/// Decides `parse_i64_spec` on a character vector.
pub fn parse_i64_chars(v: &Vec<char>) -> (r: Option<i64>)
    ensures
        match r {
            Some(n) => parse_i64_spec(v@) == Some(n as int),
            None => parse_i64_spec(v@) is None,
        },
{
    if v.len() == 0 {
        return None;
    }
    let neg = v[0] == '-';
    let start: usize = if v[0] == '-' || v[0] == '+' {
        1
    } else {
        0
    };
    proof {
        if start == 0 {
            assert(v@.skip(0) =~= v@);
        }
        if all_digits(v@.skip(start as int)) {
            lemma_digits_val_nonneg(v@.skip(start as int));
        }
    }
    let limit: u64 = if neg {
        9223372036854775808
    } else {
        9223372036854775807
    };
    match parse_u64_digits(v, start, limit) {
        Some(mag) => {
            if neg {
                if mag == 9223372036854775808 {
                    Some(i64::MIN)
                } else {
                    Some(-(mag as i64))
                }
            } else {
                Some(mag as i64)
            }
        },
        None => None,
    }
}

pub open spec fn is_sign(c: char) -> bool {
    c == '+' || c == '-'
}

pub open spec fn strip_sign(s: Seq<char>) -> Seq<char> {
    if s.len() > 0 && is_sign(s[0]) {
        s.skip(1)
    } else {
        s
    }
}

/// `c` matches the lowercase letter `l`, ignoring case.
pub open spec fn ci_eq(c: char, l: char) -> bool {
    c == l || c as u32 + 32 == l as u32
}

pub open spec fn seq_ci_eq(s: Seq<char>, w: Seq<char>) -> bool {
    s.len() == w.len() && forall|i: int| 0 <= i < s.len() ==> ci_eq(#[trigger] s[i], w[i])
}

pub open spec fn inf_chars() -> Seq<char> {
    seq!['i', 'n', 'f']
}

pub open spec fn infinity_chars() -> Seq<char> {
    seq!['i', 'n', 'f', 'i', 'n', 'i', 't', 'y']
}

pub open spec fn nan_chars() -> Seq<char> {
    seq!['n', 'a', 'n']
}

/// The word forms the standard float parser accepts that denote no finite
/// number: `inf`, `infinity` and `nan`, in any case.
pub open spec fn is_nonfinite_body(b: Seq<char>) -> bool {
    seq_ci_eq(b, inf_chars()) || seq_ci_eq(b, infinity_chars()) || seq_ci_eq(b, nan_chars())
}

pub open spec fn is_dot_or_digit(c: char) -> bool {
    c == '.' || is_digit(c)
}

/// A mantissa: digits with at most one decimal point somewhere among them,
/// and at least one digit.
pub open spec fn is_mantissa(m: Seq<char>) -> bool {
    &&& m.len() > 0
    &&& (forall|i: int| 0 <= i < m.len() ==> is_dot_or_digit(#[trigger] m[i]))
    &&& (forall|i: int, j: int|
        0 <= i < m.len() && 0 <= j < m.len() && #[trigger] m[i] == '.' && #[trigger] m[j] == '.'
            ==> i == j)
    &&& (exists|i: int| 0 <= i < m.len() && is_digit(#[trigger] m[i]))
}

/// An exponent body: an optional sign, then one or more digits.
pub open spec fn is_exp_part(x: Seq<char>) -> bool {
    strip_sign(x).len() > 0 && all_digits(strip_sign(x))
}

pub open spec fn is_e(c: char) -> bool {
    c == 'e' || c == 'E'
}

/// First exponent marker at or after position `i`.
pub open spec fn find_e(s: Seq<char>, i: int) -> Option<int>
    decreases s.len() - i,
{
    if i < 0 || i >= s.len() {
        None
    } else if is_e(s[i]) {
        Some(i)
    } else {
        find_e(s, i + 1)
    }
}

/// First decimal point at or after position `i`.
pub open spec fn find_dot(s: Seq<char>, i: int) -> Option<int>
    decreases s.len() - i,
{
    if i < 0 || i >= s.len() {
        None
    } else if s[i] == '.' {
        Some(i)
    } else {
        find_dot(s, i + 1)
    }
}

/// A numeric float body: a mantissa, optionally followed by an exponent
/// marker and an exponent.
pub open spec fn is_number_body(b: Seq<char>) -> bool {
    match find_e(b, 0) {
        Some(j) => is_mantissa(b.take(j)) && is_exp_part(b.skip(j + 1)),
        None => is_mantissa(b),
    }
}

/// The grammar `str::parse::<f64>` documents: an optional sign, then either
/// one of the non-finite words or a numeric body.
pub open spec fn is_float_literal(s: Seq<char>) -> bool {
    is_nonfinite_body(strip_sign(s)) || is_number_body(strip_sign(s))
}

pub open spec fn strip_lead0(s: Seq<char>) -> Seq<char>
    decreases s.len(),
{
    if s.len() > 0 && s[0] == '0' {
        strip_lead0(s.skip(1))
    } else {
        s
    }
}

pub open spec fn norm_int_part(ip: Seq<char>) -> Seq<char> {
    if strip_lead0(ip).len() == 0 {
        seq!['0']
    } else {
        strip_lead0(ip)
    }
}

/// Rewrites a numeric float body into the JSON number denoting the same
/// value: the `+` sign dropped, leading zeros of the integer part stripped,
/// an empty integer or fraction part completed or dropped.
pub open spec fn normalize_float(s: Seq<char>) -> Seq<char> {
    let sign: Seq<char> = if s.len() > 0 && s[0] == '-' {
        seq!['-']
    } else {
        Seq::empty()
    };
    let b = strip_sign(s);
    let m = match find_e(b, 0) {
        Some(j) => b.take(j),
        None => b,
    };
    let ex: Seq<char> = match find_e(b, 0) {
        Some(j) => seq!['e'].add(b.skip(j + 1)),
        None => Seq::empty(),
    };
    let ip = match find_dot(m, 0) {
        Some(k) => m.take(k),
        None => m,
    };
    let fp: Seq<char> = match find_dot(m, 0) {
        Some(k) => m.skip(k + 1),
        None => Seq::empty(),
    };
    let frac: Seq<char> = if fp.len() > 0 {
        seq!['.'].add(fp)
    } else {
        Seq::empty()
    };
    sign.add(norm_int_part(ip)).add(frac).add(ex)
}

/// What the JSON number parser yields on a given character sequence, as
/// IEEE 754 double bits; `None` where the characters are no JSON number or
/// its value overflows the double range.
pub uninterp spec fn float_bits_of(s: Seq<char>) -> Option<u64>;

/// Relies on `serde_json::Number::from_str`, which refuses a numeric
/// literal whose value overflows the double range, and `Number::as_f64`:
/// the bits of the parsed number depend on the characters alone.
#[verifier::external_body]
fn json_number_bits(s: &Vec<char>) -> (r: Option<u64>)
    ensures
        r == float_bits_of(s@),
{
    let t: String = s.iter().collect();
    match serde_json::Number::from_str(&t) {
        Ok(n) => n.as_f64().map(|x| x.to_bits()),
        Err(_) => None,
    }
}

/// Decides `seq_ci_eq` against a lowercase word.
fn eq_ci_chars(v: &Vec<char>, w: &Vec<char>) -> (r: bool)
    ensures
        r == seq_ci_eq(v@, w@),
{
    if v.len() != w.len() {
        return false;
    }
    let mut i: usize = 0;
    while i < v.len()
        invariant
            v@.len() == w@.len(),
            i <= v@.len(),
            forall|j: int| 0 <= j < i ==> ci_eq(#[trigger] v@[j], w@[j]),
        decreases v@.len() - i,
    {
        let c = v[i];
        let l = w[i];
        let cu = c as u32;
        let lu = l as u32;
        if !(c == l || (lu >= 32 && cu == lu - 32)) {
            proof {
                assert(!ci_eq(v@[i as int], w@[i as int]));
            }
            return false;
        }
        i += 1;
    }
    true
}

/// Decides `is_nonfinite_body`.
fn is_nonfinite_chars(b: &Vec<char>) -> (r: bool)
    ensures
        r == is_nonfinite_body(b@),
{
    let inf = chars_vec("inf");
    let infinity = chars_vec("infinity");
    let nan = chars_vec("nan");
    proof {
        reveal_strlit("inf");
        reveal_strlit("infinity");
        reveal_strlit("nan");
        assert(inf@ =~= inf_chars());
        assert(infinity@ =~= infinity_chars());
        assert(nan@ =~= nan_chars());
    }
    eq_ci_chars(b, &inf) || eq_ci_chars(b, &infinity) || eq_ci_chars(b, &nan)
}

/// Decides `is_mantissa`.
fn is_mantissa_chars(m: &Vec<char>) -> (r: bool)
    ensures
        r == is_mantissa(m@),
{
    if m.len() == 0 {
        return false;
    }
    let mut i: usize = 0;
    let mut dot: Option<usize> = None;
    let mut digit_seen = false;
    let ghost mut digit_at: int = 0;
    while i < m.len()
        invariant
            i <= m@.len(),
            forall|j: int| 0 <= j < i ==> is_dot_or_digit(#[trigger] m@[j]),
            match dot {
                Some(k) => k < i && m@[k as int] == '.' && forall|j: int|
                    0 <= j < i && j != k ==> #[trigger] m@[j] != '.',
                None => forall|j: int| 0 <= j < i ==> #[trigger] m@[j] != '.',
            },
            digit_seen ==> 0 <= digit_at < i && is_digit(m@[digit_at]),
            !digit_seen ==> forall|j: int| 0 <= j < i ==> !is_digit(#[trigger] m@[j]),
        decreases m@.len() - i,
    {
        let c = m[i];
        if c == '.' {
            if dot.is_some() {
                return false;
            }
            dot = Some(i);
        } else if (c as u32) >= 48 && (c as u32) <= 57 {
            digit_seen = true;
            proof {
                digit_at = i as int;
            }
        } else {
            proof {
                assert(!is_dot_or_digit(m@[i as int]));
            }
            return false;
        }
        i += 1;
    }
    if digit_seen {
        proof {
            assert(is_digit(m@[digit_at]));
        }
    }
    digit_seen
}

/// Decides `is_exp_part`.
fn is_exp_chars(x: &Vec<char>) -> (r: bool)
    ensures
        r == is_exp_part(x@),
{
    let start: usize = if x.len() > 0 && (x[0] == '+' || x[0] == '-') {
        1
    } else {
        0
    };
    proof {
        if start == 0 {
            assert(x@.skip(0) =~= x@);
        }
    }
    if start == x.len() {
        return false;
    }
    let mut i: usize = start;
    while i < x.len()
        invariant
            start <= i <= x@.len(),
            strip_sign(x@) == x@.skip(start as int),
            forall|j: int| start <= j < i ==> is_digit(#[trigger] x@[j]),
        decreases x@.len() - i,
    {
        let c = x[i];
        if (c as u32) < 48 || (c as u32) > 57 {
            proof {
                assert(strip_sign(x@)[i - start] == x@[i as int]);
                assert(!is_digit(strip_sign(x@)[i - start]));
            }
            return false;
        }
        i += 1;
    }
    proof {
        assert forall|j: int| 0 <= j < x@.skip(start as int).len() implies is_digit(
            #[trigger] x@.skip(start as int)[j],
        ) by {
            assert(x@.skip(start as int)[j] == x@[j + start]);
        }
    }
    true
}

/// First exponent marker in `v`, if any.
fn find_e_chars(v: &Vec<char>) -> (r: Option<usize>)
    ensures
        match r {
            Some(j) => j < v@.len() && find_e(v@, 0) == Some(j as int),
            None => find_e(v@, 0) is None,
        },
{
    let mut i: usize = 0;
    while i < v.len()
        invariant
            i <= v@.len(),
            find_e(v@, 0) == find_e(v@, i as int),
        decreases v@.len() - i,
    {
        let c = v[i];
        if c == 'e' || c == 'E' {
            return Some(i);
        }
        i += 1;
    }
    None
}

/// First decimal point in `v`, if any.
fn find_dot_chars(v: &Vec<char>) -> (r: Option<usize>)
    ensures
        match r {
            Some(j) => j < v@.len() && find_dot(v@, 0) == Some(j as int),
            None => find_dot(v@, 0) is None,
        },
{
    let mut i: usize = 0;
    while i < v.len()
        invariant
            i <= v@.len(),
            find_dot(v@, 0) == find_dot(v@, i as int),
        decreases v@.len() - i,
    {
        if v[i] == '.' {
            return Some(i);
        }
        i += 1;
    }
    None
}

/// Decides `is_float_literal`.
fn is_float_chars(v: &Vec<char>) -> (r: bool)
    ensures
        r == is_float_literal(v@),
{
    let sign_len: usize = if v.len() > 0 && (v[0] == '+' || v[0] == '-') {
        1
    } else {
        0
    };
    let b = sub_chars(v, sign_len, v.len());
    proof {
        assert(b@ =~= strip_sign(v@));
    }
    if is_nonfinite_chars(&b) {
        return true;
    }
    match find_e_chars(&b) {
        Some(j) => {
            let m = sub_chars(&b, 0, j);
            let x = sub_chars(&b, j + 1, b.len());
            proof {
                assert(m@ =~= b@.take(j as int));
                assert(x@ =~= b@.skip(j as int + 1));
            }
            is_mantissa_chars(&m) && is_exp_chars(&x)
        },
        None => is_mantissa_chars(&b),
    }
}

/// The integer part with leading zeros stripped, or `0` where nothing is
/// left; decides `norm_int_part`.
fn norm_int_chars(ip: &Vec<char>) -> (r: Vec<char>)
    ensures
        r@ == norm_int_part(ip@),
{
    proof {
        assert(ip@.skip(0) =~= ip@);
    }
    let mut z: usize = 0;
    while z < ip.len() && ip[z] == '0'
        invariant
            z <= ip@.len(),
            strip_lead0(ip@) == strip_lead0(ip@.skip(z as int)),
        decreases ip@.len() - z,
    {
        proof {
            assert(ip@.skip(z as int).skip(1) =~= ip@.skip(z as int + 1));
        }
        z += 1;
    }
    proof {
        assert(strip_lead0(ip@) == ip@.skip(z as int));
    }
    if z == ip.len() {
        let mut r: Vec<char> = Vec::new();
        r.push('0');
        proof {
            assert(ip@.skip(z as int) =~= Seq::<char>::empty());
            assert(r@ =~= seq!['0']);
        }
        r
    } else {
        let r = sub_chars(ip, z, ip.len());
        proof {
            assert(r@ =~= ip@.skip(z as int));
        }
        r
    }
}

/// Rewrites a numeric float body into its JSON number form; decides
/// `normalize_float`.
#[verifier::rlimit(100)]
fn normalize_chars(v: &Vec<char>) -> (r: Vec<char>)
    ensures
        r@ == normalize_float(v@),
{
    let ghost sign_part: Seq<char> = if v@.len() > 0 && v@[0] == '-' {
        seq!['-']
    } else {
        Seq::empty()
    };
    let mut out: Vec<char> = Vec::new();
    if v.len() > 0 && v[0] == '-' {
        out.push('-');
    }
    proof {
        assert(out@ =~= sign_part);
    }
    let sign_len: usize = if v.len() > 0 && (v[0] == '+' || v[0] == '-') {
        1
    } else {
        0
    };
    let b = sub_chars(v, sign_len, v.len());
    proof {
        assert(b@ =~= strip_sign(v@));
    }
    let (m_end, has_e): (usize, bool) = match find_e_chars(&b) {
        Some(j) => (j, true),
        None => (b.len(), false),
    };
    let m = sub_chars(&b, 0, m_end);
    proof {
        if has_e {
            assert(m@ =~= b@.take(m_end as int));
        } else {
            assert(m@ =~= b@);
        }
    }
    let (ip_end, fp_start, has_dot): (usize, usize, bool) = match find_dot_chars(&m) {
        Some(k) => (k, k + 1, true),
        None => (m.len(), m.len(), false),
    };
    let ip = sub_chars(&m, 0, ip_end);
    let mut fp = sub_chars(&m, fp_start, m.len());
    proof {
        if has_dot {
            assert(ip@ =~= m@.take(ip_end as int));
            assert(fp@ =~= m@.skip(ip_end as int + 1));
        } else {
            assert(ip@ =~= m@);
            assert(fp@ =~= Seq::<char>::empty());
        }
        assert(ip@.skip(0) =~= ip@);
    }
    let mut ipn = norm_int_chars(&ip);
    out.append(&mut ipn);
    proof {
        assert(out@ =~= sign_part.add(norm_int_part(ip@)));
    }
    let ghost after_int = out@;
    let ghost fp0 = fp@;
    if fp.len() > 0 {
        out.push('.');
        out.append(&mut fp);
    }
    proof {
        if fp0.len() > 0 {
            assert(out@ =~= after_int.add(seq!['.'].add(fp0)));
        } else {
            assert(out@ =~= after_int);
        }
    }
    let ghost after_frac = out@;
    if has_e {
        out.push('e');
        let mut x = sub_chars(&b, m_end + 1, b.len());
        proof {
            assert(x@ =~= b@.skip(m_end as int + 1));
        }
        out.append(&mut x);
        proof {
            assert(out@ =~= after_frac.add(seq!['e'].add(b@.skip(m_end as int + 1))));
        }
    }
    proof {
        assert(out@ =~= normalize_float(v@));
    }
    out
}

pub open spec fn true_chars() -> Seq<char> {
    seq!['t', 'r', 'u', 'e']
}

pub open spec fn false_chars() -> Seq<char> {
    seq!['f', 'a', 'l', 's', 'e']
}

/// What coercion makes of a raw value string, trying in order: a signed
/// 64-bit integer; a floating-point literal, which must denote a finite
/// representable number or the whole pair is in error; a boolean literal;
/// otherwise the string itself, unchanged.
pub open spec fn coerce_spec(s: Seq<char>) -> Result<ValueView, Error> {
    match parse_i64_spec(s) {
        Some(n) => Ok(ValueView::Int(n as i64)),
        None => if is_float_literal(s) {
            if is_nonfinite_body(strip_sign(s)) {
                Err(Error::InvalidScalar)
            } else {
                match float_bits_of(normalize_float(s)) {
                    Some(b) => Ok(ValueView::Float(b)),
                    None => Err(Error::InvalidScalar),
                }
            }
        } else if s == true_chars() {
            Ok(ValueView::Bool(true))
        } else if s == false_chars() {
            Ok(ValueView::Bool(false))
        } else {
            Ok(ValueView::Text(s))
        },
    }
}

/// Coerces one raw value string into a typed scalar.
pub fn coerce(s: &String) -> (r: Result<Value, Error>)
    ensures
        match r {
            Ok(v) => coerce_spec(s@) == Ok::<ValueView, Error>(v@),
            Err(e) => coerce_spec(s@) == Err::<ValueView, Error>(e),
        },
{
    let cs = chars_vec(s.as_str());
    if let Some(n) = parse_i64_chars(&cs) {
        return Ok(Value::Int(n));
    }
    if is_float_chars(&cs) {
        let sign_len: usize = if cs.len() > 0 && (cs[0] == '+' || cs[0] == '-') {
            1
        } else {
            0
        };
        let b = sub_chars(&cs, sign_len, cs.len());
        proof {
            assert(b@ =~= strip_sign(cs@));
        }
        if is_nonfinite_chars(&b) {
            return Err(Error::InvalidScalar);
        }
        let norm = normalize_chars(&cs);
        return match json_number_bits(&norm) {
            Some(bits) => Ok(Value::Float(bits)),
            None => Err(Error::InvalidScalar),
        };
    }
    let tru = chars_vec("true");
    let fal = chars_vec("false");
    proof {
        reveal_strlit("true");
        reveal_strlit("false");
        assert(tru@ =~= true_chars());
        assert(fal@ =~= false_chars());
    }
    if eq_chars(&cs, &tru) {
        return Ok(Value::Bool(true));
    }
    if eq_chars(&cs, &fal) {
        return Ok(Value::Bool(false));
    }
    Ok(Value::Text(s.clone()))
}

/// Plain elementwise equality of character vectors.
fn eq_chars(a: &Vec<char>, b: &Vec<char>) -> (r: bool)
    ensures
        r == (a@ == b@),
{
    if a.len() != b.len() {
        proof {
            assert(a@ != b@) by {
                if a@ == b@ {
                    assert(a@.len() == b@.len());
                }
            }
        }
        return false;
    }
    let mut i: usize = 0;
    while i < a.len()
        invariant
            a@.len() == b@.len(),
            i <= a@.len(),
            forall|j: int| 0 <= j < i ==> a@[j] == b@[j],
        decreases a@.len() - i,
    {
        if a[i] != b[i] {
            return false;
        }
        i += 1;
    }
    proof {
        assert(a@ =~= b@);
    }
    true
}

} // verus!
