//! Decimal text for the wire protocol: formatting of unsigned and signed
//! integers, parsing of integer fields, and the grammar of floating-point
//! literals as `core`'s `FromStr` for `f64` documents it. The codec carries
//! doubles as validated text, so no floating-point value is ever computed here.

use vstd::prelude::*;
use crate::ascii::{MINUS, PLUS, DIGIT_ZERO, DIGIT_NINE, DOT, LOWER_E, UPPER_E};

verus! {

pub open spec fn is_digit(b: u8) -> bool {
    DIGIT_ZERO <= b <= DIGIT_NINE
}

pub open spec fn all_digits(s: Seq<u8>) -> bool {
    forall|i: int| 0 <= i < s.len() ==> is_digit(#[trigger] s[i])
}

/// The numeric value of a sequence of decimal digit bytes.
pub open spec fn digits_val(s: Seq<u8>) -> int
    decreases s.len(),
{
    if s.len() == 0 {
        0
    } else {
        digits_val(s.drop_last()) * 10 + (s.last() - DIGIT_ZERO)
    }
}

/// Decimal representation of a natural number, without sign or padding.
pub open spec fn spec_fmt_nat(n: nat) -> Seq<u8>
    decreases n,
{
    if n < 10 {
        seq![(DIGIT_ZERO + n) as u8]
    } else {
        spec_fmt_nat(n / 10).push((DIGIT_ZERO + n % 10) as u8)
    }
}

/// Decimal representation of an integer: a leading `-` for negatives.
pub open spec fn spec_fmt_int(n: int) -> Seq<u8> {
    if n >= 0 {
        spec_fmt_nat(n as nat)
    } else {
        seq![MINUS] + spec_fmt_nat((-n) as nat)
    }
}

pub proof fn lemma_fmt_nat_digits(n: nat)
    ensures
        spec_fmt_nat(n).len() >= 1,
        all_digits(spec_fmt_nat(n)),
        digits_val(spec_fmt_nat(n)) == n,
    decreases n,
{
    if n < 10 {
        let s = spec_fmt_nat(n);
        assert(s =~= seq![(DIGIT_ZERO + n) as u8]);
        assert(s.drop_last() =~= Seq::<u8>::empty());
        assert(digits_val(Seq::<u8>::empty()) == 0);
        assert(digits_val(s) == digits_val(s.drop_last()) * 10 + (s.last() - DIGIT_ZERO));
    } else {
        lemma_fmt_nat_digits(n / 10);
        let prev = spec_fmt_nat(n / 10);
        let whole = spec_fmt_nat(n);
        assert(whole == prev.push((DIGIT_ZERO + n % 10) as u8));
        assert(whole.drop_last() =~= prev);
        assert(whole.last() == (DIGIT_ZERO + n % 10) as u8);
        assert(forall|i: int| 0 <= i < whole.len() ==> is_digit(#[trigger] whole[i])) by {
            assert(forall|i: int|
                0 <= i < prev.len() ==> whole[i] == #[trigger] prev[i] && is_digit(prev[i]));
        }
        assert(digits_val(whole) == digits_val(prev) * 10 + (n % 10));
        assert((n / 10) * 10 + n % 10 == n) by (nonlinear_arith);
    }
}

/// The sign-stripped body of a signed decimal or float literal.
pub open spec fn signed_body(s: Seq<u8>) -> Seq<u8> {
    if s.len() > 0 && (s[0] == PLUS || s[0] == MINUS) {
        s.skip(1)
    } else {
        s
    }
}

pub open spec fn signed_neg(s: Seq<u8>) -> bool {
    s.len() > 0 && s[0] == MINUS
}

/// Text accepted by `FromStr` for the integer types: an optional sign
/// followed by at least one digit (the range check is separate).
pub open spec fn is_int_text(s: Seq<u8>) -> bool {
    signed_body(s).len() > 0 && all_digits(signed_body(s))
}

/// The mathematical value of a signed decimal literal.
pub open spec fn int_text_val(s: Seq<u8>) -> int {
    if signed_neg(s) {
        -digits_val(signed_body(s))
    } else {
        digits_val(signed_body(s))
    }
}

/// Text that `str::parse::<i64>` accepts: well-formed and in range.
pub open spec fn is_i64_text(s: Seq<u8>) -> bool {
    is_int_text(s) && i64::MIN <= int_text_val(s) <= i64::MAX
}

/// Text that `str::parse::<u64>` accepts: no minus sign, in range.
pub open spec fn is_u64_text(s: Seq<u8>) -> bool {
    is_int_text(s) && !signed_neg(s) && int_text_val(s) <= u64::MAX
}

/// A digit string's value is nonnegative and no smaller than the value of
/// any of its prefixes, so an overflowing prefix overflows the whole.
pub proof fn lemma_digits_prefix_monotone(s: Seq<u8>, k: int)
    requires
        all_digits(s),
        0 <= k <= s.len(),
    ensures
        digits_val(s.take(k)) >= 0,
        digits_val(s) >= digits_val(s.take(k)),
    decreases s.len() - k,
{
    lemma_digits_nonneg(s.take(k));
    if k < s.len() {
        let t = s.take(k + 1);
        assert(t.drop_last() =~= s.take(k));
        assert(t.last() == s[k]);
        assert(digits_val(t) == digits_val(s.take(k)) * 10 + (s[k] - DIGIT_ZERO));
        assert(digits_val(t) >= digits_val(s.take(k))) by (nonlinear_arith)
            requires
                digits_val(t) == digits_val(s.take(k)) * 10 + (s[k] - DIGIT_ZERO),
                digits_val(s.take(k)) >= 0,
                s[k] >= DIGIT_ZERO,
        ;
        lemma_digits_prefix_monotone(s, k + 1);
    } else {
        assert(s.take(k) =~= s);
    }
}

pub proof fn lemma_digits_nonneg(s: Seq<u8>)
    requires
        all_digits(s),
    ensures
        digits_val(s) >= 0,
    decreases s.len(),
{
    if s.len() > 0 {
        assert(all_digits(s.drop_last())) by {
            assert(forall|i: int|
                0 <= i < s.len() - 1 ==> s.drop_last()[i] == #[trigger] s[i]);
        }
        lemma_digits_nonneg(s.drop_last());
        assert(digits_val(s) >= 0) by (nonlinear_arith)
            requires
                digits_val(s) == digits_val(s.drop_last()) * 10 + (s.last() - DIGIT_ZERO),
                digits_val(s.drop_last()) >= 0,
                s.last() >= DIGIT_ZERO,
        ;
    }
}

/// Decimal formatting of a `u64`.
pub fn fmt_u64(n: u64) -> (r: Vec<u8>)
    ensures
        r@ == spec_fmt_nat(n as nat),
    decreases n,
{
    if n < 10 {
        let mut v: Vec<u8> = Vec::new();
        v.push(DIGIT_ZERO + n as u8);
        proof {
            assert(v@ =~= spec_fmt_nat(n as nat));
        }
        v
    } else {
        let mut v = fmt_u64(n / 10);
        v.push(DIGIT_ZERO + (n % 10) as u8);
        proof {
            assert(v@ =~= spec_fmt_nat(n as nat));
        }
        v
    }
}

/// Decimal formatting of an `i64`, with a leading `-` for negatives.
pub fn fmt_i64(n: i64) -> (r: Vec<u8>)
    ensures
        r@ == spec_fmt_int(n as int),
{
    if n >= 0 {
        fmt_u64(n as u64)
    } else {
        let mag: u64 = if n == i64::MIN {
            9223372036854775808
        } else {
            (-n) as u64
        };
        let mut v: Vec<u8> = Vec::new();
        v.push(MINUS);
        let mut digits = fmt_u64(mag);
        let dn = digits.len();
        let mut i: usize = 0;
        while i < dn
            invariant
                dn == digits@.len(),
                i <= dn,
                digits@ == spec_fmt_nat(mag as nat),
                v@ =~= seq![MINUS] + digits@.take(i as int),
            decreases dn - i,
        {
            let b = digits[i];
            v.push(b);
            assert(v@ =~= seq![MINUS] + digits@.take(i + 1 as int));
            i = i + 1;
        }
        proof {
            assert(digits@.take(dn as int) =~= digits@);
            assert(v@ =~= spec_fmt_int(n as int));
        }
        v
    }
}

/// Parsing and formatting of decimal integers agree: the formatted text of
/// any `i64` value parses back to that value.
pub proof fn lemma_fmt_parse_int(n: int)
    requires
        i64::MIN <= n <= i64::MAX,
    ensures
        is_i64_text(spec_fmt_int(n)),
        int_text_val(spec_fmt_int(n)) == n,
{
    if n >= 0 {
        lemma_fmt_nat_digits(n as nat);
        let s = spec_fmt_int(n);
        assert(s == spec_fmt_nat(n as nat));
        assert(is_digit(s[0]));
        assert(s[0] != PLUS && s[0] != MINUS);
        assert(signed_body(s) =~= s);
        assert(!signed_neg(s));
    } else {
        lemma_fmt_nat_digits((-n) as nat);
        let d = spec_fmt_nat((-n) as nat);
        let s = spec_fmt_int(n);
        assert(s == seq![MINUS] + d);
        assert(s[0] == MINUS);
        assert(signed_body(s) =~= d);
        assert(signed_neg(s));
        assert(int_text_val(s) == -digits_val(d));
    }
}

/// The first position at or after `pos` holding `a` or `b`.
pub open spec fn find_from(s: Seq<u8>, pos: int, a: u8, b: u8) -> Option<int>
    decreases s.len() - pos,
{
    if pos < 0 || pos >= s.len() {
        None
    } else if s[pos] == a || s[pos] == b {
        Some(pos)
    } else {
        find_from(s, pos + 1, a, b)
    }
}

pub proof fn lemma_find_from_hit(s: Seq<u8>, pos: int, a: u8, b: u8, j: int)
    requires
        0 <= pos <= j < s.len(),
        s[j] == a || s[j] == b,
        forall|k: int| pos <= k < j ==> #[trigger] s[k] != a && s[k] != b,
    ensures
        find_from(s, pos, a, b) == Some(j),
    decreases j - pos,
{
    if pos < j {
        lemma_find_from_hit(s, pos + 1, a, b, j);
    }
}

pub proof fn lemma_find_from_miss(s: Seq<u8>, pos: int, a: u8, b: u8)
    requires
        0 <= pos,
        forall|k: int| pos <= k < s.len() ==> #[trigger] s[k] != a && s[k] != b,
    ensures
        find_from(s, pos, a, b) is None,
    decreases s.len() - pos,
{
    if pos < s.len() {
        lemma_find_from_miss(s, pos + 1, a, b);
    }
}

/// The lower-cased words that `f64`'s `FromStr` accepts besides numbers.
pub open spec fn inf_text() -> Seq<u8> {
    seq![105u8, 110u8, 102u8]
}

pub open spec fn infinity_text() -> Seq<u8> {
    seq![105u8, 110u8, 102u8, 105u8, 110u8, 105u8, 116u8, 121u8]
}

pub open spec fn nan_text() -> Seq<u8> {
    seq![110u8, 97u8, 110u8]
}

/// A mantissa as `f64`'s grammar gives it: digits with at most one dot
/// and at least one digit.
pub open spec fn is_mantissa_text(m: Seq<u8>) -> bool {
    match find_from(m, 0, DOT, DOT) {
        None => m.len() > 0 && all_digits(m),
        Some(i) => all_digits(m.take(i)) && all_digits(m.skip(i + 1)) && m.len() > 1,
    }
}

/// A number as `f64`'s grammar gives it: a mantissa, optionally followed
/// by `e`/`E`, an optional sign, and at least one exponent digit.
pub open spec fn is_number_text(b: Seq<u8>) -> bool {
    match find_from(b, 0, LOWER_E, UPPER_E) {
        None => is_mantissa_text(b),
        Some(i) => is_mantissa_text(b.take(i)) && is_int_text(b.skip(i + 1)),
    }
}

/// Text that `str::parse::<f64>` accepts, as its documented grammar:
/// an optional sign, then `inf`, `infinity`, `nan` (case-insensitive)
/// or a number with optional exponent.
pub open spec fn is_float_text(s: Seq<u8>) -> bool {
    {
        let b = signed_body(s);
        ||| crate::ascii::lower_seq(b) == inf_text()
        ||| crate::ascii::lower_seq(b) == infinity_text()
        ||| crate::ascii::lower_seq(b) == nan_text()
        ||| is_number_text(b)
    }
}

/// True of `v[from..to]` holding digits only.
fn digits_only(v: &[u8], from: usize, to: usize) -> (r: bool)
    requires
        from <= to <= v@.len(),
    ensures
        r == all_digits(v@.subrange(from as int, to as int)),
{
    let ghost sub = v@.subrange(from as int, to as int);
    let mut i: usize = from;
    while i < to
        invariant
            from <= i <= to <= v@.len(),
            sub == v@.subrange(from as int, to as int),
            forall|j: int| 0 <= j < i - from ==> is_digit(#[trigger] sub[j]),
        decreases to - i,
    {
        let b = v[i];
        if b < DIGIT_ZERO || b > DIGIT_NINE {
            proof {
                assert(sub[i - from] == v@[i as int]);
            }
            return false;
        }
        proof {
            assert(sub[i - from] == v@[i as int]);
        }
        i = i + 1;
    }
    true
}

/// True of `v[from..to]` matching `word` after ASCII lower-casing.
fn matches_lower(v: &[u8], from: usize, to: usize, word: &[u8]) -> (r: bool)
    requires
        from <= to <= v@.len(),
    ensures
        r == (crate::ascii::lower_seq(v@.subrange(from as int, to as int)) == word@),
{
    let sub_len = to - from;
    let ghost sub = v@.subrange(from as int, to as int);
    let ghost low = crate::ascii::lower_seq(sub);
    if sub_len != word.len() {
        proof {
            assert(low.len() == sub.len());
        }
        return false;
    }
    let mut i: usize = 0;
    while i < sub_len
        invariant
            i <= sub_len,
            from + sub_len == to <= v@.len(),
            sub == v@.subrange(from as int, to as int),
            low == crate::ascii::lower_seq(sub),
            sub_len == word@.len(),
            low.len() == sub_len,
            forall|j: int| 0 <= j < i ==> low[j] == word@[j],
        decreases sub_len - i,
    {
        let b = v[from + i];
        let lb: u8 = if b >= 65 && b <= 90 {
            b + 32
        } else {
            b
        };
        proof {
            assert(sub[i as int] == v@[from + i]);
            assert(low[i as int] == crate::ascii::lower_byte(sub[i as int]));
        }
        if lb != word[i] {
            return false;
        }
        i = i + 1;
    }
    proof {
        assert(low =~= word@);
    }
    true
}

/// Recognize text that `str::parse::<f64>` accepts, without computing
/// any floating-point value.
pub fn is_float_literal(v: &[u8]) -> (r: bool)
    ensures
        r == is_float_text(v@),
{
    let n = v.len();
    let start: usize = if n > 0 && (v[0] == PLUS || v[0] == MINUS) {
        1
    } else {
        0
    };
    let ghost body = signed_body(v@);
    proof {
        assert(body =~= v@.subrange(start as int, n as int));
    }
    if start >= n {
        proof {
            assert(body.len() == 0);
            assert(crate::ascii::lower_seq(body).len() == 0);
            assert(!is_mantissa_text(body));
            assert(!is_number_text(body));
        }
        return false;
    }
    // the special words
    let inf = [105u8, 110u8, 102u8];
    let infinity = [105u8, 110u8, 102u8, 105u8, 110u8, 105u8, 116u8, 121u8];
    let nan = [110u8, 97u8, 110u8];
    proof {
        assert(inf@ =~= inf_text());
        assert(infinity@ =~= infinity_text());
        assert(nan@ =~= nan_text());
    }
    if matches_lower(v, start, n, inf.as_slice()) || matches_lower(v, start, n, infinity.as_slice())
        || matches_lower(v, start, n, nan.as_slice()) {
        return true;
    }
    // find the exponent marker
    let mut epos: usize = start;
    let mut found_e = false;
    while epos < n && !found_e
        invariant
            start <= epos <= n,
            n == v@.len(),
            body == signed_body(v@),
            body =~= v@.subrange(start as int, n as int),
            !found_e ==> forall|k: int|
                0 <= k < epos - start ==> #[trigger] body[k] != LOWER_E && body[k] != UPPER_E,
            found_e ==> epos < n && 0 <= epos - start < body.len()
                && (body[epos - start] == LOWER_E || body[epos - start] == UPPER_E)
                && (forall|k: int|
                    0 <= k < epos - start ==> #[trigger] body[k] != LOWER_E && body[k] != UPPER_E),
        decreases n - epos + (if found_e { 0int } else { 1int }),
    {
        let b = v[epos];
        proof {
            assert(body[epos - start] == v@[epos as int]);
        }
        if b == LOWER_E || b == UPPER_E {
            found_e = true;
        } else {
            epos = epos + 1;
        }
    }
    let mant_to: usize = if found_e {
        epos
    } else {
        n
    };
    proof {
        if found_e {
            lemma_find_from_hit(body, 0, LOWER_E, UPPER_E, epos - start);
        } else {
            lemma_find_from_miss(body, 0, LOWER_E, UPPER_E);
        }
    }
    // validate the exponent when present: optional sign, then digits
    if found_e {
        let ghost exp = body.skip(epos - start + 1);
        proof {
            assert(exp =~= v@.subrange(epos + 1 as int, n as int));
        }
        let exp_start: usize = if epos + 1 < n && (v[epos + 1] == PLUS || v[epos + 1] == MINUS) {
            epos + 2
        } else {
            epos + 1
        };
        proof {
            assert(signed_body(exp) =~= v@.subrange(exp_start as int, n as int));
        }
        if exp_start >= n {
            proof {
                assert(signed_body(exp).len() == 0);
                assert(!is_int_text(exp));
            }
            return false;
        }
        if !digits_only(v, exp_start, n) {
            proof {
                assert(!is_int_text(exp));
            }
            return false;
        }
        proof {
            assert(is_int_text(exp));
        }
    }
    // validate the mantissa: digits with at most one dot, one digit somewhere
    let ghost mant = body.take(mant_to - start);
    proof {
        assert(mant =~= v@.subrange(start as int, mant_to as int));
        if found_e {
            assert(is_number_text(body) == (is_mantissa_text(mant)
                && is_int_text(body.skip(epos - start + 1))));
        } else {
            assert(mant =~= body);
            assert(is_number_text(body) == is_mantissa_text(mant));
        }
        assert(crate::ascii::lower_seq(body) != inf_text());
        assert(crate::ascii::lower_seq(body) != infinity_text());
        assert(crate::ascii::lower_seq(body) != nan_text());
    }
    let mut dpos: usize = start;
    let mut found_dot = false;
    while dpos < mant_to && !found_dot
        invariant
            start <= dpos <= mant_to <= n,
            n == v@.len(),
            mant =~= v@.subrange(start as int, mant_to as int),
            !found_dot ==> forall|k: int| 0 <= k < dpos - start ==> #[trigger] mant[k] != DOT,
            found_dot ==> dpos < mant_to && 0 <= dpos - start < mant.len()
                && mant[dpos - start] == DOT
                && (forall|k: int| 0 <= k < dpos - start ==> #[trigger] mant[k] != DOT),
        decreases mant_to - dpos + (if found_dot { 0int } else { 1int }),
    {
        let b = v[dpos];
        proof {
            assert(mant[dpos - start] == v@[dpos as int]);
        }
        if b == DOT {
            found_dot = true;
        } else {
            dpos = dpos + 1;
        }
    }
    if found_dot {
        proof {
            lemma_find_from_hit(mant, 0, DOT, DOT, dpos - start);
        }
        let ok = mant_to - start > 1 && digits_only(v, start, dpos)
            && digits_only(v, dpos + 1, mant_to);
        proof {
            assert(mant.take(dpos - start) =~= v@.subrange(start as int, dpos as int));
            assert(mant.skip(dpos - start + 1) =~= v@.subrange(dpos + 1 as int, mant_to as int));
        }
        ok
    } else {
        proof {
            lemma_find_from_miss(mant, 0, DOT, DOT);
        }
        let ok = mant_to > start && digits_only(v, start, mant_to);
        proof {
            assert(mant =~= v@.subrange(start as int, mant_to as int));
        }
        ok
    }
}

/// Parse a run of digits `s[start..]` with a value cap: `None` when the
/// run is empty, holds a non-digit, or exceeds `limit`.
pub fn parse_digits_limited(s: &[u8], start: usize, limit: u64) -> (r: Option<u64>)
    requires
        start <= s@.len(),
    ensures
        r is Some <==> (start < s@.len() && all_digits(s@.skip(start as int))
            && digits_val(s@.skip(start as int)) <= limit),
        r matches Some(v) ==> v as int == digits_val(s@.skip(start as int)) && v <= limit,
{
    let n = s.len();
    if start >= n {
        return None;
    }
    let ghost body = s@.skip(start as int);
    let mut acc: u64 = 0;
    let mut i: usize = start;
    while i < n
        invariant
            start <= i <= n,
            start < n,
            n == s@.len(),
            body == s@.skip(start as int),
            all_digits(body.take(i - start)),
            acc as int == digits_val(body.take(i - start)),
            acc <= limit,
        decreases n - i,
    {
        let b = s[i];
        if b < DIGIT_ZERO || b > DIGIT_NINE {
            proof {
                assert(body[i - start] == s@[i as int]);
                assert(!is_digit(body[i - start]));
                assert(!all_digits(body));
            }
            return None;
        }
        let d: u64 = (b - DIGIT_ZERO) as u64;
        let ghost t = body.take(i - start + 1);
        proof {
            assert(t.drop_last() =~= body.take(i - start));
            assert(t.last() == s@[i as int]);
            assert(digits_val(t) == acc * 10 + d);
            assert(all_digits(t)) by {
                assert(forall|j: int|
                    0 <= j < t.len() - 1 ==> t[j] == #[trigger] body.take(i - start)[j]);
            }
        }
        if acc > u64::MAX / 10 || acc * 10 > u64::MAX - d || acc * 10 + d > limit {
            proof {
                assert(acc * 10 + d > limit) by (nonlinear_arith)
                    requires
                        acc > u64::MAX / 10 || acc * 10 + d > limit,
                        d <= 9,
                        limit <= u64::MAX,
                ;
                if all_digits(body) {
                    lemma_digits_prefix_monotone(body, i - start + 1);
                    assert(digits_val(body) >= digits_val(t));
                    assert(digits_val(body) > limit);
                }
            }
            return None;
        }
        acc = acc * 10 + d;
        i = i + 1;
    }
    proof {
        assert(body.take(n - start) =~= body);
    }
    Some(acc)
}

/// Parse a decimal `i64` as `str::parse::<i64>` does: optional sign,
/// at least one digit, rejected on overflow.
pub fn parse_i64(s: &[u8]) -> (r: Option<i64>)
    ensures
        r is Some <==> is_i64_text(s@),
        r matches Some(v) ==> v as int == int_text_val(s@),
{
    let n = s.len();
    if n == 0 {
        return None;
    }
    let b0 = s[0];
    let neg = b0 == MINUS;
    let start: usize = if b0 == MINUS || b0 == PLUS {
        1
    } else {
        0
    };
    let limit: u64 = if neg {
        9223372036854775808
    } else {
        9223372036854775807
    };
    proof {
        assert(signed_body(s@) =~= s@.skip(start as int));
        assert(signed_neg(s@) == neg);
    }
    match parse_digits_limited(s, start, limit) {
        Some(mag) => {
            if neg {
                if mag == 9223372036854775808 {
                    Some(i64::MIN)
                } else {
                    Some(-(mag as i64))
                }
            } else {
                Some(mag as i64)
            }
        },
        None => {
            proof {
                if is_i64_text(s@) {
                    let body = signed_body(s@);
                    lemma_digits_nonneg(body);
                    if neg {
                        assert(int_text_val(s@) == -digits_val(body));
                        assert(digits_val(body) <= limit);
                    } else {
                        assert(int_text_val(s@) == digits_val(body));
                        assert(digits_val(body) <= limit);
                    }
                }
            }
            None
        },
    }
}

/// Parse a decimal `u64` as `str::parse::<u64>` does: optional `+`,
/// at least one digit, rejected on overflow.
pub fn parse_u64(s: &[u8]) -> (r: Option<u64>)
    ensures
        r is Some <==> is_u64_text(s@),
        r matches Some(v) ==> v as int == int_text_val(s@),
{
    let n = s.len();
    if n > 0 && s[0] == MINUS {
        return None;
    }
    let start: usize = if n > 0 && s[0] == PLUS {
        1
    } else {
        0
    };
    if start >= n {
        return None;
    }
    let ghost body = signed_body(s@);
    proof {
        assert(body =~= s@.skip(start as int));
    }
    let mut acc: u64 = 0;
    let mut i: usize = start;
    while i < n
        invariant
            start <= i <= n,
            start < n,
            n == s@.len(),
            body == signed_body(s@),
            body =~= s@.skip(start as int),
            !signed_neg(s@),
            all_digits(body.take(i - start)),
            acc as int == digits_val(body.take(i - start)),
        decreases n - i,
    {
        let b = s[i];
        if b < DIGIT_ZERO || b > DIGIT_NINE {
            proof {
                assert(body[i - start] == s@[i as int]);
                assert(!is_digit(body[i - start]));
                assert(!all_digits(body));
                assert(!is_u64_text(s@));
            }
            return None;
        }
        let d: u64 = (b - DIGIT_ZERO) as u64;
        let ghost t = body.take(i - start + 1);
        proof {
            assert(t.drop_last() =~= body.take(i - start));
            assert(t.last() == s@[i as int]);
            assert(digits_val(t) == acc * 10 + d);
            assert(all_digits(t)) by {
                assert(forall|j: int|
                    0 <= j < t.len() - 1 ==> t[j] == #[trigger] body.take(i - start)[j]);
            }
        }
        if acc > (u64::MAX - d) / 10 {
            proof {
                assert(acc * 10 + d > u64::MAX) by (nonlinear_arith)
                    requires
                        acc > (u64::MAX - d) / 10,
                        d <= 9,
                ;
                if all_digits(body) {
                    lemma_digits_prefix_monotone(body, i - start + 1);
                    assert(digits_val(body) >= digits_val(t));
                    assert(digits_val(t) == acc * 10 + d);
                    assert(int_text_val(s@) == digits_val(body));
                    assert(int_text_val(s@) > u64::MAX);
                } else {
                    assert(!is_int_text(s@));
                }
                assert(!is_u64_text(s@));
            }
            return None;
        }
        proof {
            assert(acc * 10 + d <= u64::MAX) by (nonlinear_arith)
                requires
                    acc <= (u64::MAX - d) / 10,
                    d <= 9,
            ;
        }
        acc = acc * 10 + d;
        i = i + 1;
    }
    proof {
        assert(body.take(n - start) =~= body);
    }
    Some(acc)
}

} // verus!
