//! Reading a `q=` weight the way a 32-bit float would, without floats.
//!
//! A weight of zero is a refusal. The text after `q=` counts as zero exactly
//! when `str::parse::<f32>` accepts it and yields `0.0`: a decimal literal
//! (optional sign, digits with at most one point, optional exponent) whose
//! value is zero or small enough to round to zero — at most `2^-150`, half the
//! smallest positive `f32`, with the tie going to the even zero. Anything the
//! float grammar refuses, and `inf`/`nan`, is not zero.

use vstd::prelude::*;

use crate::text::{all_digits, digit_value, digits_value, find, find_in, lemma_find, is_digit};

verus! {

pub open spec fn pow10(n: nat) -> nat
    decreases n,
{
    if n == 0 {
        1
    } else {
        10 * pow10((n - 1) as nat)
    }
}

pub open spec fn pow2(n: nat) -> nat
    decreases n,
{
    if n == 0 {
        1
    } else {
        2 * pow2((n - 1) as nat)
    }
}

/// Index of the exponent marker (`e` or `E`), if any.
pub open spec fn exp_mark(s: Seq<char>) -> Option<int>
    decreases s.len(),
{
    if s.len() == 0 {
        None
    } else if s[0] == 'e' || s[0] == 'E' {
        Some(0)
    } else {
        match exp_mark(s.drop_first()) {
            Some(i) => Some(i + 1),
            None => None,
        }
    }
}

pub open spec fn drop_sign(s: Seq<char>) -> Seq<char> {
    if s.len() > 0 && (s[0] == '+' || s[0] == '-') {
        s.drop_first()
    } else {
        s
    }
}

pub open spec fn negative(s: Seq<char>) -> bool {
    s.len() > 0 && s[0] == '-'
}

/// The literal split into its integer digits, fraction digits and exponent
/// text (`None` when there is no exponent marker), or `None` when it is not a
/// decimal literal at all.
pub open spec fn parts(s: Seq<char>) -> Option<(Seq<char>, Seq<char>, Option<Seq<char>>)> {
    let body = drop_sign(s);
    let (mant, exp) = match exp_mark(body) {
        Some(e) => (body.subrange(0, e), Some(body.subrange(e + 1, body.len() as int))),
        None => (body, None),
    };
    let (whole, frac) = match find(mant, '.') {
        Some(p) => (mant.subrange(0, p), mant.subrange(p + 1, mant.len() as int)),
        None => (mant, Seq::empty()),
    };
    let exp_ok = match exp {
        Some(x) => drop_sign(x).len() > 0 && all_digits(drop_sign(x)),
        None => true,
    };
    if all_digits(whole) && all_digits(frac) && whole.len() + frac.len() > 0 && exp_ok {
        Some((whole, frac, exp))
    } else {
        None
    }
}

/// The exponent the literal writes, zero when it writes none.
pub open spec fn exponent(exp: Option<Seq<char>>) -> int {
    match exp {
        Some(x) => if negative(x) {
            -(digits_value(drop_sign(x)) as int)
        } else {
            digits_value(drop_sign(x)) as int
        },
        None => 0,
    }
}

/// Whether `s` parses as an `f32` equal to zero. The literal's value is
/// `M * 10^-F`, with `M` the digits read as one integer and `F` the number of
/// fraction digits less the exponent; it rounds to zero when `M` is zero or
/// when `M * 10^-F <= 2^-150`.
pub open spec fn spec_q_is_zero(s: Seq<char>) -> bool {
    match parts(s) {
        None => false,
        Some((whole, frac, exp)) => {
            let m = digits_value(whole + frac);
            let f = frac.len() - exponent(exp);
            m == 0 || (f > 0 && m * pow2(150) <= pow10(f as nat))
        },
    }
}

// ---------------------------------------------------------------------------
// Little-endian digit vectors, for the one exact comparison.

/// The number a little-endian vector of decimal digits stands for.
pub open spec fn le_value(d: Seq<u8>) -> nat
    decreases d.len(),
{
    if d.len() == 0 {
        0
    } else {
        le_value(d.drop_last()) + (d.last() as nat) * pow10((d.len() - 1) as nat)
    }
}

pub open spec fn all_lt10(d: Seq<u8>) -> bool {
    forall|i: int| 0 <= i < d.len() ==> #[trigger] d[i] < 10
}

proof fn lemma_pow10_pos(n: nat)
    ensures
        pow10(n) >= 1,
    decreases n,
{
    if n > 0 {
        lemma_pow10_pos((n - 1) as nat);
    }
}

proof fn lemma_pow10_monotone(a: nat, b: nat)
    requires
        a <= b,
    ensures
        pow10(a) <= pow10(b),
    decreases b,
{
    if a < b {
        lemma_pow10_monotone(a, (b - 1) as nat);
        lemma_pow10_pos((b - 1) as nat);
    }
}

/// `10^(len-1) <= value < 10^len` when the top digit is not zero.
proof fn lemma_le_bounds(d: Seq<u8>)
    requires
        all_lt10(d),
    ensures
        le_value(d) < pow10(d.len()),
        d.len() > 0 && d.last() > 0 ==> le_value(d) >= pow10((d.len() - 1) as nat),
    decreases d.len(),
{
    if d.len() > 0 {
        let p = pow10((d.len() - 1) as nat);
        let t = d.last() as nat;
        let rest = le_value(d.drop_last());
        lemma_le_bounds(d.drop_last());
        assert(t * p <= 9 * p) by (nonlinear_arith)
            requires
                t <= 9,
        ;
        assert(t > 0 ==> t * p >= p) by (nonlinear_arith)
            requires
                t <= 9,
        ;
    }
}

proof fn lemma_le_zero(d: Seq<u8>)
    requires
        forall|i: int| 0 <= i < d.len() ==> #[trigger] d[i] == 0,
    ensures
        le_value(d) == 0,
    decreases d.len(),
{
    if d.len() > 0 {
        lemma_le_zero(d.drop_last());
    }
}

proof fn lemma_le_positive(d: Seq<u8>, j: int)
    requires
        all_lt10(d),
        0 <= j < d.len(),
        d[j] > 0,
    ensures
        le_value(d) > 0,
    decreases d.len(),
{
    lemma_pow10_pos((d.len() - 1) as nat);
    if j < d.len() - 1 {
        lemma_le_positive(d.drop_last(), j);
    } else {
        let t = d.last() as nat;
        let p = pow10((d.len() - 1) as nat);
        assert(t * p >= 1) by (nonlinear_arith)
            requires
                t >= 1,
                p >= 1,
        ;
    }
}

/// Double a little-endian digit vector.
fn double(d: &Vec<u8>) -> (out: Vec<u8>)
    requires
        all_lt10(d@),
    ensures
        all_lt10(out@),
        le_value(out@) == 2 * le_value(d@),
        out.len() <= d.len() + 1,
{
    let mut out: Vec<u8> = Vec::new();
    let mut carry: u8 = 0;
    let mut i: usize = 0;
    while i < d.len()
        invariant
            i <= d.len(),
            all_lt10(d@),
            out.len() == i,
            all_lt10(out@),
            carry <= 1,
            le_value(out@) + (carry as nat) * pow10(i as nat) == 2 * le_value(d@.take(i as int)),
        decreases d.len() - i,
    {
        let x = 2 * d[i] + carry;
        let digit = x % 10;
        let next = x / 10;
        let ghost before = out@;
        out.push(digit);
        proof {
            assert(out@.drop_last() == before);
            assert(d@.take(i + 1).drop_last() == d@.take(i as int));
            assert(d@.take(i + 1).last() == d@[i as int]);
            let p = pow10(i as nat);
            let xd = x as nat;
            let dd = digit as nat;
            let nn = next as nat;
            let di = d@[i as int] as nat;
            let c = carry as nat;
            assert(pow10((i + 1) as nat) == 10 * p);
            assert(xd == dd + 10 * nn);
            assert(dd * p + nn * (10 * p) == (2 * di + c) * p) by (nonlinear_arith)
                requires
                    xd == dd + 10 * nn,
                    xd == 2 * di + c,
            ;
            assert(le_value(out@) == le_value(before) + dd * p);
            assert(le_value(d@.take(i + 1)) == le_value(d@.take(i as int)) + di * p);
            assert(2 * (le_value(d@.take(i as int)) + di * p) == 2 * le_value(d@.take(i as int)) + 2
                * di * p) by (nonlinear_arith);
            assert((2 * di + c) * p == 2 * di * p + c * p) by (nonlinear_arith);
        }
        carry = next;
        i += 1;
    }
    assert(d@.take(d.len() as int) == d@);
    if carry > 0 {
        let ghost before = out@;
        out.push(carry);
        proof {
            assert(out@.drop_last() == before);
        }
    }
    out
}

/// Drop the high zero digits, so that the last digit is the top one.
fn normalize(d: &mut Vec<u8>)
    requires
        all_lt10(old(d)@),
    ensures
        all_lt10(final(d)@),
        le_value(final(d)@) == le_value(old(d)@),
        final(d).len() == 0 || final(d)@.last() > 0,
        final(d).len() <= old(d).len(),
{
    while d.len() > 0 && d[d.len() - 1] == 0
        invariant
            all_lt10(d@),
            le_value(d@) == le_value(old(d)@),
            d.len() <= old(d).len(),
        decreases d.len(),
    {
        let ghost before = d@;
        d.pop();
        proof {
            assert(d@ == before.drop_last());
            assert(before.last() == 0);
            let p = pow10((before.len() - 1) as nat);
            let t = before.last() as nat;
            assert(t * p == 0) by (nonlinear_arith)
                requires
                    t == 0,
            ;
            assert(le_value(before) == le_value(d@));
        }
    }
}

// ---------------------------------------------------------------------------
// From the literal's digits to the comparison

/// `digits_value` split at the front instead of the back.
proof fn lemma_digits_front(s: Seq<char>)
    requires
        s.len() > 0,
    ensures
        digits_value(s) == digit_value(s[0]) * pow10((s.len() - 1) as nat) + digits_value(
            s.drop_first(),
        ),
    decreases s.len(),
{
    if s.len() > 1 {
        lemma_digits_front(s.drop_last());
        assert(s.drop_last().drop_first() == s.drop_first().drop_last());
        assert(s.drop_last()[0] == s[0]);
        assert(s.drop_first().last() == s.last());
        let a = digit_value(s[0]);
        let p = pow10((s.len() - 2) as nat);
        let x = digits_value(s.drop_last().drop_first());
        let l = digit_value(s.last());
        assert(pow10((s.len() - 1) as nat) == 10 * p);
        assert(digits_value(s.drop_last()) == a * p + x);
        assert(digits_value(s.drop_first()) == x * 10 + l);
        assert(digits_value(s) == digits_value(s.drop_last()) * 10 + l);
        assert((a * p + x) * 10 + l == a * (10 * p) + (x * 10 + l)) by (nonlinear_arith);
        assert(digits_value(s) == a * pow10((s.len() - 1) as nat) + digits_value(s.drop_first()));
    } else {
        assert(s.drop_last().len() == 0);
        assert(s.drop_first().len() == 0);
        assert(digits_value(s.drop_last()) == 0);
        assert(pow10(0) == 1);
        assert(digits_value(s) == digit_value(s.last()));
        assert(s.last() == s[0]);
        let a = digit_value(s[0]);
        assert(a * 1 == a);
        assert(digits_value(s) == a * pow10((s.len() - 1) as nat) + digits_value(s.drop_first()));
    }
}

/// The mantissa digits `s` (big-endian characters) as a little-endian digit
/// vector.
fn le_digits(v: &Vec<char>, lo: usize, hi: usize) -> (out: Vec<u8>)
    requires
        lo <= hi <= v.len(),
        all_digits(v@.subrange(lo as int, hi as int)),
    ensures
        all_lt10(out@),
        le_value(out@) == digits_value(v@.subrange(lo as int, hi as int)),
        out.len() == hi - lo,
{
    let mut out: Vec<u8> = Vec::new();
    let mut j = hi;
    while j > lo
        invariant
            lo <= j <= hi <= v.len(),
            all_digits(v@.subrange(lo as int, hi as int)),
            all_lt10(out@),
            out.len() == hi - j,
            le_value(out@) == digits_value(v@.subrange(j as int, hi as int)),
        decreases j - lo,
    {
        let c = v[j - 1];
        assert(v@.subrange(lo as int, hi as int)[j - 1 - lo] == c);
        let digit: u8 = (c as u32 - '0' as u32) as u8;
        let ghost before = out@;
        out.push(digit);
        proof {
            let t = v@.subrange(j - 1, hi as int);
            assert(t.drop_first() == v@.subrange(j as int, hi as int));
            assert(t[0] == c);
            lemma_digits_front(t);
            assert(out@.drop_last() == before);
        }
        j -= 1;
    }
    out
}

/// `M * 2^150` for the little-endian digits of `M`.
fn times_pow2_150(m: &Vec<u8>) -> (out: Vec<u8>)
    requires
        all_lt10(m@),
    ensures
        all_lt10(out@),
        le_value(out@) == le_value(m@) * pow2(150),
        out.len() <= m.len() + 150,
{
    let mut out: Vec<u8> = m.clone();
    let mut k: usize = 0;
    assert(out@ == m@);
    assert(pow2(0) == 1);
    assert(le_value(m@) * 1 == le_value(m@));
    while k < 150
        invariant
            k <= 150,
            all_lt10(out@),
            le_value(out@) == le_value(m@) * pow2(k as nat),
            out.len() <= m.len() + k,
        decreases 150 - k,
    {
        out = double(&out);
        proof {
            let a = le_value(m@);
            let p = pow2(k as nat);
            assert(pow2((k + 1) as nat) == 2 * p);
            assert(2 * (a * p) == a * (2 * p)) by (nonlinear_arith);
        }
        k += 1;
    }
    out
}

/// The saturation point for the exponent: far above any length a string can
/// have, so a saturated exponent decides the comparison on its own.
pub const EXP_CAP: u128 = 1267650600228229401496703205376;

/// `min(value of v[lo..hi], EXP_CAP)`, for digits only.
fn digits_saturating(v: &Vec<char>, lo: usize, hi: usize) -> (r: u128)
    requires
        lo <= hi <= v.len(),
        all_digits(v@.subrange(lo as int, hi as int)),
    ensures
        r <= EXP_CAP,
        r < EXP_CAP ==> r == digits_value(v@.subrange(lo as int, hi as int)),
        r == EXP_CAP ==> digits_value(v@.subrange(lo as int, hi as int)) >= EXP_CAP,
{
    let mut value: u128 = 0;
    let mut i = lo;
    while i < hi
        invariant
            lo <= i <= hi <= v.len(),
            all_digits(v@.subrange(lo as int, hi as int)),
            value < EXP_CAP,
            value == digits_value(v@.subrange(lo as int, i as int)),
        decreases hi - i,
    {
        let c = v[i];
        assert(v@.subrange(lo as int, hi as int)[i - lo] == c);
        let digit = (c as u32 - '0' as u32) as u128;
        assert(v@.subrange(lo as int, i + 1).drop_last() == v@.subrange(lo as int, i as int));
        let next = value * 10 + digit;
        if next >= EXP_CAP {
            proof {
                lemma_digits_monotone_sub(v@, lo as int, i + 1, hi as int);
            }
            return EXP_CAP;
        }
        value = next;
        i += 1;
    }
    value
}

proof fn lemma_digits_monotone_sub(v: Seq<char>, lo: int, k: int, hi: int)
    requires
        0 <= lo <= k <= hi <= v.len(),
        all_digits(v.subrange(lo, hi)),
    ensures
        digits_value(v.subrange(lo, k)) <= digits_value(v.subrange(lo, hi)),
    decreases hi - k,
{
    if k < hi {
        lemma_digits_monotone_sub(v, lo, k + 1, hi);
        assert(v.subrange(lo, k + 1).drop_last() == v.subrange(lo, k));
    }
}


proof fn lemma_exp_mark_is(s: Seq<char>, i: int)
    requires
        0 <= i < s.len(),
        s[i] == 'e' || s[i] == 'E',
        forall|j: int| 0 <= j < i ==> s[j] != 'e' && s[j] != 'E',
    ensures
        exp_mark(s) == Some(i),
    decreases s.len(),
{
    if i > 0 {
        lemma_exp_mark_is(s.drop_first(), i - 1);
    }
}

proof fn lemma_exp_mark_none(s: Seq<char>)
    requires
        forall|j: int| 0 <= j < s.len() ==> s[j] != 'e' && s[j] != 'E',
    ensures
        exp_mark(s) == None::<int>,
    decreases s.len(),
{
    if s.len() > 0 {
        lemma_exp_mark_none(s.drop_first());
    }
}

/// Index of the exponent marker in `v[lo..hi]`, relative to `lo`.
fn find_exp_mark(v: &Vec<char>, lo: usize, hi: usize) -> (r: Option<usize>)
    requires
        lo <= hi <= v.len(),
    ensures
        match r {
            Some(i) => exp_mark(v@.subrange(lo as int, hi as int)) == Some(i as int) && i < hi - lo,
            None => exp_mark(v@.subrange(lo as int, hi as int)) == None::<int>,
        },
{
    let ghost s = v@.subrange(lo as int, hi as int);
    let mut i = lo;
    while i < hi
        invariant
            lo <= i <= hi <= v.len(),
            s == v@.subrange(lo as int, hi as int),
            forall|j: int| 0 <= j < i - lo ==> s[j] != 'e' && s[j] != 'E',
        decreases hi - i,
    {
        if v[i] == 'e' || v[i] == 'E' {
            proof {
                lemma_exp_mark_is(s, i - lo);
            }
            return Some(i - lo);
        }
        i += 1;
    }
    proof {
        lemma_exp_mark_none(s);
    }
    None
}

/// Whether every character of `v[lo..hi]` is an ASCII digit.
fn all_digits_in(v: &Vec<char>, lo: usize, hi: usize) -> (r: bool)
    requires
        lo <= hi <= v.len(),
    ensures
        r == all_digits(v@.subrange(lo as int, hi as int)),
{
    let mut i = lo;
    while i < hi
        invariant
            lo <= i <= hi <= v.len(),
            all_digits(v@.subrange(lo as int, i as int)),
        decreases hi - i,
    {
        if !('0' <= v[i] && v[i] <= '9') {
            assert(!is_digit(v@.subrange(lo as int, hi as int)[i - lo]));
            return false;
        }
        assert forall|j: int| 0 <= j < i + 1 - lo implies is_digit(
            #[trigger] v@.subrange(lo as int, i + 1)[j],
        ) by {
            if j < i - lo {
                assert(v@.subrange(lo as int, i + 1)[j] == v@.subrange(lo as int, i as int)[j]);
            }
        }
        i += 1;
    }
    true
}

/// A run of digits spells zero exactly when every digit is `0`.
proof fn lemma_digits_zero(s: Seq<char>)
    requires
        all_digits(s),
    ensures
        (digits_value(s) == 0) <==> (forall|i: int| 0 <= i < s.len() ==> #[trigger] s[i] == '0'),
    decreases s.len(),
{
    if s.len() > 0 {
        lemma_digits_zero(s.drop_last());
        if digits_value(s) == 0 {
            assert forall|i: int| 0 <= i < s.len() implies #[trigger] s[i] == '0' by {
                if i < s.len() - 1 {
                    assert(s.drop_last()[i] == s[i]);
                }
            }
        }
        if forall|i: int| 0 <= i < s.len() ==> #[trigger] s[i] == '0' {
            assert forall|i: int| 0 <= i < s.drop_last().len() implies #[trigger] s.drop_last()[i]
                == '0' by {
                assert(s.drop_last()[i] == s[i]);
            }
        }
    }
}

/// Whether every character of `v[lo..hi]` is `0`.
fn all_zero_in(v: &Vec<char>, lo: usize, hi: usize) -> (r: bool)
    requires
        lo <= hi <= v.len(),
    ensures
        r == (forall|i: int| 0 <= i < hi - lo ==> #[trigger] v@.subrange(lo as int, hi as int)[i] == '0'),
{
    let mut i = lo;
    while i < hi
        invariant
            lo <= i <= hi <= v.len(),
            forall|j: int| 0 <= j < i - lo ==> #[trigger] v@.subrange(lo as int, hi as int)[j] == '0',
        decreases hi - i,
    {
        if v[i] != '0' {
            assert(v@.subrange(lo as int, hi as int)[i - lo] != '0');
            return false;
        }
        i += 1;
    }
    true
}

/// `v[a..b]` followed by `v[c..d]`, as a vector of its own.
fn concat_ranges(v: &Vec<char>, a: usize, b: usize, c: usize, d: usize) -> (out: Vec<char>)
    requires
        a <= b <= v.len(),
        c <= d <= v.len(),
    ensures
        out@ == v@.subrange(a as int, b as int) + v@.subrange(c as int, d as int),
{
    let mut out: Vec<char> = Vec::new();
    let mut i = a;
    while i < b
        invariant
            a <= i <= b <= v.len(),
            out@ == v@.subrange(a as int, i as int),
        decreases b - i,
    {
        out.push(v[i]);
        i += 1;
    }
    let mut j = c;
    while j < d
        invariant
            a <= b <= v.len(),
            c <= j <= d <= v.len(),
            out@ == v@.subrange(a as int, b as int) + v@.subrange(c as int, j as int),
        decreases d - j,
    {
        out.push(v[j]);
        j += 1;
    }
    out
}

/// The comparison `M * 2^150 <= 10^F`, for `M > 0` and an exactly known
/// `F > 0`.
fn below_threshold(digits: &Vec<char>, f: u128) -> (r: bool)
    requires
        all_digits(digits@),
        f > 0,
    ensures
        r == (digits_value(digits@) * pow2(150) <= pow10(f as nat)),
{
    let m = le_digits(digits, 0, digits.len());
    assert(digits@.subrange(0, digits@.len() as int) == digits@);
    let mut p = times_pow2_150(&m);
    normalize(&mut p);
    let len = p.len();
    let ghost pv = le_value(p@);
    proof {
        lemma_le_bounds(p@);
    }
    if (len as u128) <= f {
        proof {
            lemma_pow10_monotone(len as nat, f as nat);
        }
        return true;
    }
    if (len as u128) > f + 1 {
        proof {
            lemma_pow10_monotone((f + 1) as nat, (len - 1) as nat);
            assert(pow10((f + 1) as nat) == 10 * pow10(f as nat));
            lemma_pow10_pos(f as nat);
        }
        return false;
    }
    // Exactly `f + 1` digits: at least 10^f, and equal to it only when the
    // top digit is 1 and every other digit is 0.
    let top = p[len - 1];
    let mut lower_zero = true;
    let mut i: usize = 0;
    while i < len - 1
        invariant
            len == p.len(),
            len >= 1,
            i <= len - 1,
            lower_zero == (forall|j: int| 0 <= j < i ==> #[trigger] p@[j] == 0),
        decreases len - 1 - i,
    {
        if p[i] != 0 {
            lower_zero = false;
        }
        i += 1;
    }
    proof {
        let low = p@.drop_last();
        let q = pow10((len - 1) as nat);
        assert(le_value(p@) == le_value(low) + (top as nat) * q);
        assert(all_lt10(low));
        if lower_zero {
            assert forall|j: int| 0 <= j < low.len() implies #[trigger] low[j] == 0 by {
                assert(low[j] == p@[j]);
            }
            lemma_le_zero(low);
        } else {
            let j = choose|j: int| 0 <= j < len - 1 && #[trigger] p@[j] != 0;
            assert(low[j] == p@[j]);
            lemma_le_positive(low, j);
        }
        let t = top as nat;
        assert(t >= 2 ==> t * q >= 2 * q) by (nonlinear_arith);
        assert(t == 1 ==> t * q == q) by (nonlinear_arith);
        lemma_pow10_pos((len - 1) as nat);
    }
    top == 1 && lower_zero
}

/// Where the pieces of a decimal literal lie in `v`: the integer digits
/// `[wa, wb)`, the fraction digits `[fa, fb)`, and, when there is an exponent,
/// whether it is negative and where its digits `[da, hi)` start.
pub struct Layout {
    pub wa: usize,
    pub wb: usize,
    pub fa: usize,
    pub fb: usize,
    pub exp: Option<(bool, usize)>,
}

pub open spec fn layout_exp(v: Seq<char>, lay: Layout, lo: int, hi: int) -> Option<Seq<char>> {
    match exp_mark(drop_sign(v.subrange(lo, hi))) {
        Some(i) => {
            let body = drop_sign(v.subrange(lo, hi));
            Some(body.subrange(i + 1, body.len() as int))
        },
        None => None,
    }
}

/// Locate the parts of the literal `v[lo..hi]`, or `None` when it is not one.
#[verifier::rlimit(60)]
fn layout(v: &Vec<char>, lo: usize, hi: usize) -> (r: Option<Layout>)
    requires
        lo <= hi <= v.len(),
    ensures
        match r {
            None => parts(v@.subrange(lo as int, hi as int)) is None,
            Some(lay) => {
                &&& lay.wa <= lay.wb <= v.len()
                &&& lay.fa <= lay.fb <= v.len()
                &&& parts(v@.subrange(lo as int, hi as int)) == Some(
                    (
                        v@.subrange(lay.wa as int, lay.wb as int),
                        v@.subrange(lay.fa as int, lay.fb as int),
                        layout_exp(v@, lay, lo as int, hi as int),
                    ),
                )
                &&& match lay.exp {
                    None => layout_exp(v@, lay, lo as int, hi as int) is None,
                    Some((neg, da)) => {
                        let x = layout_exp(v@, lay, lo as int, hi as int)->0;
                        &&& layout_exp(v@, lay, lo as int, hi as int) is Some
                        &&& da <= hi
                        &&& drop_sign(x) == v@.subrange(da as int, hi as int)
                        &&& negative(x) == neg
                    },
                }
            },
        },
{
    let ghost s = v@.subrange(lo as int, hi as int);
    let mut b0 = lo;
    if lo < hi && (v[lo] == '+' || v[lo] == '-') {
        b0 = lo + 1;
    }
    assert(drop_sign(s) == v@.subrange(b0 as int, hi as int));
    let ghost body = v@.subrange(b0 as int, hi as int);
    let mark = find_exp_mark(v, b0, hi);
    let m_end = match mark {
        Some(i) => b0 + i,
        None => hi,
    };
    assert(body.subrange(0, m_end - b0) == v@.subrange(b0 as int, m_end as int));
    let ghost mant = v@.subrange(b0 as int, m_end as int);
    let dot = find_in(v, b0, m_end, '.');
    proof {
        lemma_find(mant, '.');
    }
    let (wa, wb, fa, fb) = match dot {
        Some(p) => (b0, b0 + p, b0 + p + 1, m_end),
        None => (b0, m_end, m_end, m_end),
    };
    proof {
        match dot {
            Some(p) => {
                assert(mant.subrange(0, p as int) == v@.subrange(wa as int, wb as int));
                assert(mant.subrange(p + 1, mant.len() as int) == v@.subrange(fa as int, fb as int));
            },
            None => {
                assert(v@.subrange(fa as int, fb as int) == Seq::<char>::empty());
            },
        }
    }
    if !all_digits_in(v, wa, wb) || !all_digits_in(v, fa, fb) || (wb - wa) + (fb - fa) == 0 {
        return None;
    }
    let exp = match mark {
        Some(i) => {
            let xa = b0 + i + 1;
            assert(body.subrange(i + 1, body.len() as int) == v@.subrange(xa as int, hi as int));
            let ghost x = v@.subrange(xa as int, hi as int);
            let mut da = xa;
            let mut neg = false;
            if xa < hi && (v[xa] == '+' || v[xa] == '-') {
                da = xa + 1;
                neg = v[xa] == '-';
            }
            assert(drop_sign(x) == v@.subrange(da as int, hi as int));
            if da == hi || !all_digits_in(v, da, hi) {
                return None;
            }
            Some((neg, da))
        },
        None => None,
    };
    Some(Layout { wa, wb, fa, fb, exp })
}

proof fn lemma_concat_digits(whole: Seq<char>, frac: Seq<char>, zero_whole: bool, zero_frac: bool)
    requires
        all_digits(whole),
        all_digits(frac),
        zero_whole == (forall|i: int| 0 <= i < whole.len() ==> #[trigger] whole[i] == '0'),
        zero_frac == (forall|i: int| 0 <= i < frac.len() ==> #[trigger] frac[i] == '0'),
    ensures
        all_digits(whole + frac),
        (digits_value(whole + frac) == 0) == (zero_whole && zero_frac),
{
    assert forall|i: int| 0 <= i < (whole + frac).len() implies is_digit(
        #[trigger] (whole + frac)[i],
    ) by {
        if i < whole.len() {
            assert((whole + frac)[i] == whole[i]);
        } else {
            assert((whole + frac)[i] == frac[i - whole.len()]);
        }
    }
    lemma_digits_zero(whole + frac);
    if zero_whole && zero_frac {
        assert forall|i: int| 0 <= i < (whole + frac).len() implies #[trigger] (whole + frac)[i]
            == '0' by {
            if i < whole.len() {
                assert((whole + frac)[i] == whole[i]);
            } else {
                assert((whole + frac)[i] == frac[i - whole.len()]);
            }
        }
    } else if !zero_whole {
        let j = choose|j: int| 0 <= j < whole.len() && #[trigger] whole[j] != '0';
        assert((whole + frac)[j] == whole[j]);
    } else {
        let j = choose|j: int| 0 <= j < frac.len() && #[trigger] frac[j] != '0';
        assert((whole + frac)[whole.len() + j] == frac[j]);
    }
}

/// Whether `v[lo..hi]`, the text after `q=`, reads as a zero weight.
pub fn q_is_zero(v: &Vec<char>, lo: usize, hi: usize) -> (r: bool)
    requires
        lo <= hi <= v.len(),
    ensures
        r == spec_q_is_zero(v@.subrange(lo as int, hi as int)),
{
    let lay = match layout(v, lo, hi) {
        Some(lay) => lay,
        None => return false,
    };
    let ghost whole = v@.subrange(lay.wa as int, lay.wb as int);
    let ghost frac = v@.subrange(lay.fa as int, lay.fb as int);
    let ghost exp = layout_exp(v@, lay, lo as int, hi as int);
    // A zero mantissa is zero whatever the exponent.
    let zero_whole = all_zero_in(v, lay.wa, lay.wb);
    let zero_frac = all_zero_in(v, lay.fa, lay.fb);
    let digits = concat_ranges(v, lay.wa, lay.wb, lay.fa, lay.fb);
    proof {
        lemma_concat_digits(whole, frac, zero_whole, zero_frac);
    }
    if zero_whole && zero_frac {
        return true;
    }
    let frac_len = (lay.fb - lay.fa) as u128;
    let (neg, exp_abs) = match lay.exp {
        Some((neg, da)) => (neg, digits_saturating(v, da, hi)),
        None => (false, 0),
    };
    proof {
        match lay.exp {
            Some((n, da)) => {
                assert(exp_abs < EXP_CAP ==> exp_abs == digits_value(drop_sign(exp->0)));
            },
            None => {},
        }
    }
    if neg {
        if exp_abs == EXP_CAP {
            // F is at least the cap, and `M * 2^150` has far fewer digits.
            let m = le_digits(&digits, 0, digits.len());
            assert(digits@.subrange(0, digits@.len() as int) == digits@);
            let p = times_pow2_150(&m);
            proof {
                lemma_le_bounds(p@);
                let f = frac.len() - exponent(exp);
                assert(f >= EXP_CAP);
                lemma_pow10_monotone(p@.len(), f as nat);
            }
            return true;
        }
        let f = frac_len + exp_abs;
        assert(f == frac.len() - exponent(exp));
        if f == 0 {
            return false;
        }
        below_threshold(&digits, f)
    } else {
        if exp_abs >= frac_len {
            // F <= 0: the value is at least one.
            return false;
        }
        let f = frac_len - exp_abs;
        assert(f == frac.len() - exponent(exp));
        below_threshold(&digits, f)
    }
}

} // verus!
