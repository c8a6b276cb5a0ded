//! The pages serv draws itself — a directory index, a not-found page and a
//! rendered markdown document — and the small formatting they share.

pub mod document;
pub mod icons;
pub mod listing;
pub mod not_found;

use vstd::prelude::*;

use crate::text::{dec, push_char, push_dec};

verus! {

/// One stylesheet, shared by every page and inlined into each response. A dev
/// server has to work with the network unplugged, so nothing is fetched.
pub const STYLE: &'static str = ":root{--paper:#f6f1e7;--ink:#2a2522;--faint:#8a8178;--rule:#ddd3c4;--vermilion:#a3372a;color-scheme:light dark}@media (prefers-color-scheme:dark){:root{--paper:#1d1a18;--ink:#ece4d8;--faint:#9a9086;--rule:#3a342f;--vermilion:#e0705f}}*{box-sizing:border-box}body{margin:0;background:var(--paper);color:var(--ink);font:16px/1.6 Georgia,'Times New Roman',serif}main{max-width:46rem;margin:3rem auto;padding:0 1.25rem}a{color:var(--vermilion)}nav.crumbs{font-size:.9rem;color:var(--faint)}nav.crumbs a{text-decoration:none}h1{font-weight:normal;border-bottom:1px solid var(--rule);padding-bottom:.4rem}table{border-collapse:collapse;width:100%}td,th{padding:.25rem .5rem;border-bottom:1px solid var(--rule);text-align:left}td.size,td.date{color:var(--faint);white-space:nowrap;font-variant-numeric:tabular-nums}pre,code{font-family:ui-monospace,Menlo,Consolas,monospace;font-size:.9em}pre{overflow:auto;padding:.75rem;border:1px solid var(--rule)}footer{margin-top:3rem;font-size:.8rem;color:var(--faint)}";

/// The mark, reduced to what survives a 16px browser tab: a typed stub and the
/// block cursor still sitting after it.
pub const FAVICON: &'static str = "data:image/svg+xml,<svg xmlns='http://www.w3.org/2000/svg' viewBox='0 0 24 24'><rect x='2.5' y='10.4' width='7.5' height='3.2' rx='1.6' fill='%23a3372a' opacity='.4'/><rect x='12.5' y='3.6' width='7' height='16.8' rx='1.8' fill='%23a3372a'/></svg>";

// ---------------------------------------------------------------------------
// Sizes

pub open spec fn pow1024(n: nat) -> nat
    decreases n,
{
    if n == 0 {
        1
    } else {
        1024 * pow1024((n - 1) as nat)
    }
}

/// The unit a size is shown in: the largest power of 1024 it reaches,
/// stopping at terabytes.
pub open spec fn unit_of(bytes: nat) -> nat {
    if bytes >= pow1024(4) {
        4
    } else if bytes >= pow1024(3) {
        3
    } else if bytes >= pow1024(2) {
        2
    } else if bytes >= pow1024(1) {
        1
    } else {
        0
    }
}

pub open spec fn unit_name(unit: nat) -> Seq<char> {
    if unit == 1 {
        seq!['k', 'B']
    } else if unit == 2 {
        seq!['M', 'B']
    } else if unit == 3 {
        seq!['G', 'B']
    } else {
        seq!['T', 'B']
    }
}

/// `a / b` rounded to the nearest integer, a tie going to the even one — the
/// way `{:.1}` rounds the last digit it prints.
pub open spec fn round_half_even(a: nat, b: nat) -> nat
    recommends
        b > 0,
{
    let q = a / b;
    let r = a % b;
    if 2 * r > b || (2 * r == b && q % 2 == 1) {
        q + 1
    } else {
        q
    }
}

/// Bytes as a person would read them: exact below a kilobyte, otherwise in
/// the largest unit reached with one decimal, rounded half to even.
pub open spec fn spec_human_size(bytes: nat) -> Seq<char> {
    let unit = unit_of(bytes);
    if unit == 0 {
        dec(bytes) + seq![' ', 'B']
    } else {
        let t = round_half_even(bytes * 10, pow1024(unit));
        dec(t / 10) + seq!['.'] + dec(t % 10) + seq![' '] + unit_name(unit)
    }
}

/// Bytes as a person would read them.
pub fn human_size(bytes: u64) -> (r: String)
    ensures
        r@ == spec_human_size(bytes as nat),
{
    let mut out = String::new();
    let mut unit: u128 = 0;
    let mut scale: u128 = 1;
    assert(pow1024(0) == 1);
    while unit < 4 && (bytes as u128) >= scale * 1024
        invariant
            unit <= 4,
            scale == pow1024(unit as nat),
            unit > 0 ==> bytes as nat >= pow1024(unit as nat),
            unit == 0 ==> scale == 1,
            unit == 1 ==> scale == 1024,
            unit == 2 ==> scale == 1048576,
            unit == 3 ==> scale == 1073741824,
            unit == 4 ==> scale == 1099511627776,
        decreases 4 - unit,
    {
        proof {
            reveal_with_fuel(pow1024, 5);
        }
        unit += 1;
        scale = scale * 1024;
    }
    proof {
        reveal_with_fuel(pow1024, 5);
        assert(unit == unit_of(bytes as nat));
    }
    if unit == 0 {
        push_dec(&mut out, bytes as u128);
        push_char(&mut out, ' ');
        push_char(&mut out, 'B');
        return out;
    }
    let a = (bytes as u128) * 10;
    let q = a / scale;
    let rem = a % scale;
    let t = if 2 * rem > scale || (2 * rem == scale && q % 2 == 1) {
        q + 1
    } else {
        q
    };
    push_dec(&mut out, t / 10);
    push_char(&mut out, '.');
    push_dec(&mut out, t % 10);
    push_char(&mut out, ' ');
    if unit == 1 {
        push_char(&mut out, 'k');
    } else if unit == 2 {
        push_char(&mut out, 'M');
    } else if unit == 3 {
        push_char(&mut out, 'G');
    } else {
        push_char(&mut out, 'T');
    }
    push_char(&mut out, 'B');
    out
}

// ---------------------------------------------------------------------------
// Dates

/// The IMF-fixdate httpdate writes for `secs` seconds after the epoch, such as
/// `Thu, 01 Jan 1970 00:00:00 GMT`.
pub uninterp spec fn http_date(secs: u64) -> Seq<char>;

/// Seconds where httpdate stops: the start of the year 10000.
pub const LAST_DATE: u64 = 253402300800;

/// `httpdate::fmt_http_date` for a time `secs` seconds after the epoch.
/// httpdate panics from the year 10000 on, hence the bound. Claims that the
/// text is the date named `http_date`, and that it is the fixed
/// 29-character ASCII form httpdate's `Display` writes.
#[verifier::external_body]
pub(crate) fn fmt_http_date(secs: u64) -> (r: String)
    requires
        secs < LAST_DATE,
    ensures
        r@ == http_date(secs),
        r@.len() == 29,
        forall|i: int| 0 <= i < 29 ==> (#[trigger] r@[i] as u32) < 128,
{
    httpdate::fmt_http_date(std::time::UNIX_EPOCH + std::time::Duration::from_secs(secs))
}

/// `Thu, 04 Sep 2026 14:07:33 GMT` trimmed down to `04 Sep 2026 14:07`: the
/// weekday and the seconds dropped, every field fixed-width. A stamp too
/// short to trim is kept whole.
pub open spec fn spec_short_stamp(stamp: Seq<char>) -> Seq<char> {
    if stamp.len() >= 22 {
        stamp.subrange(5, 22)
    } else {
        stamp
    }
}

/// Trim an HTTP date down to the part the listing shows.
pub fn short_stamp(stamp: &str) -> (r: String)
    ensures
        r@ == spec_short_stamp(stamp@),
{
    let v = crate::text::chars_of(stamp);
    if v.len() >= 22 {
        crate::text::string_of_range(&v, 5, 22)
    } else {
        crate::text::string_of(&v)
    }
}

pub open spec fn spec_human_time(secs: u64) -> Seq<char> {
    spec_short_stamp(http_date(secs))
}

/// A modification time `secs` seconds after the epoch, as the listing shows it.
pub fn human_time(secs: u64) -> (r: String)
    requires
        secs < LAST_DATE,
    ensures
        r@ == spec_human_time(secs),
        r@.len() == 17,
{
    let stamp = fmt_http_date(secs);
    short_stamp(stamp.as_str())
}

// ---------------------------------------------------------------------------
// Escaping

/// What a character becomes in HTML text or an attribute value: `& < > " '`
/// as entities, anything else as itself.
pub open spec fn escape_char(c: char) -> Seq<char> {
    if c == '&' {
        "&amp;"@
    } else if c == '<' {
        "&lt;"@
    } else if c == '>' {
        "&gt;"@
    } else if c == '"' {
        "&quot;"@
    } else if c == '\'' {
        "&#39;"@
    } else {
        seq![c]
    }
}

/// `s` escaped for HTML, character by character.
pub open spec fn html_escape(s: Seq<char>) -> Seq<char>
    decreases s.len(),
{
    if s.len() == 0 {
        Seq::empty()
    } else {
        html_escape(s.drop_last()) + escape_char(s.last())
    }
}

/// `damask::renderers::escape_html`, which appends `input` to `out` with
/// `& < > " '` replaced by their entities, as its documentation says.
#[verifier::external_body]
pub(crate) fn escape_into(out: &mut String, input: &str)
    ensures
        final(out)@ == old(out)@ + html_escape(input@),
{
    damask::renderers::escape_html(input, out);
}

} // verus!
