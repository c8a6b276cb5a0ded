//! What serv says about a file it sends: its validator, whether a validator
//! the browser sent still matches, which part of it a `Range` asks for, its
//! content type, and, put together, which response a request gets.

use vstd::prelude::*;

use crate::compress::{
    negotiate, spec_negotiate, spec_worthwhile, worthwhile, Encoding, MAX_BODY, MIN_BODY,
};
use crate::pages::{fmt_http_date, http_date, LAST_DATE};
use crate::text::{
    chars_of, dec, find, find_in, hex, is_base_digit, is_ws, lemma_find, lemma_in_base,
    lemma_in_base_injective, lemma_split_last, lemma_split_step, parse_u64, parse_u64_in,
    push_char, push_dec, push_hex, push_str, range_eq, range_starts_with, split, split_once,
    starts_with, trim, trim_bounds, trim_end, trim_start,
};

verus! {

/// What a `Range` header asks for.
#[derive(Debug, Clone, Copy, PartialEq, Eq, Structural)]
pub enum Range {
    Whole,
    /// Inclusive byte offsets, as HTTP counts them.
    Partial(u64, u64),
    Unsatisfiable,
}

/// `bytes=`, the only range unit there is.
pub open spec fn bytes_unit() -> Seq<char> {
    seq!['b', 'y', 't', 'e', 's', '=']
}

/// A range that starts past its end, or past the file, cannot be served.
pub open spec fn checked(start: u64, end: u64, len: u64) -> Range {
    if start > end || start >= len {
        Range::Unsatisfiable
    } else {
        Range::Partial(start, end)
    }
}

/// The two halves of `from-to`, already trimmed, read against a file of `len`
/// bytes (`len > 0`).
pub open spec fn range_bounds(from: Seq<char>, to: Seq<char>, len: u64) -> Range {
    if from.len() == 0 {
        // `-500`: the last 500 bytes.
        match parse_u64(to) {
            Some(count) => if count == 0 {
                Range::Unsatisfiable
            } else {
                checked(if count >= len { 0 } else { (len - count) as u64 }, (len - 1) as u64, len)
            },
            None => Range::Unsatisfiable,
        }
    } else if to.len() == 0 {
        match parse_u64(from) {
            Some(start) => checked(start, (len - 1) as u64, len),
            None => Range::Whole,
        }
    } else {
        match (parse_u64(from), parse_u64(to)) {
            (Some(start), Some(end)) => checked(
                start,
                if end <= len - 1 { end } else { (len - 1) as u64 },
                len,
            ),
            _ => Range::Whole,
        }
    }
}

/// A `Range` header against a file of `len` bytes. Only a single range is
/// honoured; several are answered with the whole file, and so is anything
/// that cannot be read.
pub open spec fn spec_parse_range(header: Seq<char>, len: u64) -> Range {
    if !starts_with(header, bytes_unit()) {
        Range::Whole
    } else if len == 0 {
        Range::Unsatisfiable
    } else {
        let spec = header.subrange(6, header.len() as int);
        if spec.contains(',') {
            Range::Whole
        } else {
            match split_once(trim(spec), '-') {
                None => Range::Whole,
                Some((from, to)) => range_bounds(trim(from), trim(to), len),
            }
        }
    }
}

/// Parse a `Range` header for a file of `len` bytes.
pub fn parse_range(header: &str, len: u64) -> (r: Range)
    ensures
        r == spec_parse_range(header@, len),
        r matches Range::Partial(start, end) ==> start <= end < len,
{
    proof {
        reveal_strlit("bytes=");
        assert("bytes="@ == bytes_unit());
    }
    let v = chars_of(header);
    let n = v.len();
    if !range_starts_with(&v, 0, n, "bytes=") {
        assert(v@.subrange(0, n as int) == header@);
        return Range::Whole;
    }
    assert(v@.subrange(0, n as int) == header@);
    if len == 0 {
        return Range::Unsatisfiable;
    }
    let ghost spec = header@.subrange(6, header@.len() as int);
    assert(spec == v@.subrange(6, n as int));
    match find_in(&v, 6, n, ',') {
        Some(_) => {
            proof {
                lemma_find(spec, ',');
            }
            return Range::Whole;
        },
        None => {
            proof {
                lemma_find(spec, ',');
                assert(!spec.contains(','));
            }
        },
    }
    let (a, b) = trim_bounds(&v, 6, n);
    let dash = match find_in(&v, a, b, '-') {
        Some(i) => i,
        None => {
            return Range::Whole;
        },
    };
    proof {
        lemma_find(v@.subrange(a as int, b as int), '-');
        assert(v@.subrange(a as int, b as int).subrange(0, dash as int) == v@.subrange(
            a as int,
            a + dash,
        ));
        assert(v@.subrange(a as int, b as int).subrange(dash + 1, b - a) == v@.subrange(
            a + dash + 1,
            b as int,
        ));
    }
    let (fa, fb) = trim_bounds(&v, a, a + dash);
    let (ta, tb) = trim_bounds(&v, a + dash + 1, b);
    let r = if fa == fb {
        match parse_u64_in(&v, ta, tb) {
            Some(count) => if count == 0 {
                Range::Unsatisfiable
            } else {
                check(len.saturating_sub(count), len - 1, len)
            },
            None => Range::Unsatisfiable,
        }
    } else if ta == tb {
        match parse_u64_in(&v, fa, fb) {
            Some(start) => check(start, len - 1, len),
            None => Range::Whole,
        }
    } else {
        match (parse_u64_in(&v, fa, fb), parse_u64_in(&v, ta, tb)) {
            (Some(start), Some(end)) => check(start, if end <= len - 1 { end } else { len - 1 }, len),
            _ => Range::Whole,
        }
    };
    r
}

fn check(start: u64, end: u64, len: u64) -> (r: Range)
    requires
        end < len,
    ensures
        r == checked(start, end, len),
        r matches Range::Partial(s, e) ==> s <= e < len,
{
    if start > end || start >= len {
        Range::Unsatisfiable
    } else {
        Range::Partial(start, end)
    }
}

/// Every range serv serves lies inside the file: a partial answer starts no
/// later than it ends, and ends before the file does.
pub proof fn partial_ranges_lie_inside_the_file(header: Seq<char>, len: u64)
    ensures
        spec_parse_range(header, len) matches Range::Partial(start, end) ==> start <= end < len,
{
}


// ---------------------------------------------------------------------------
// Validators

/// The encoding's `ETag` suffix, or nothing for the identity body.
pub open spec fn tag_suffix(encoding: Option<Encoding>) -> Seq<char> {
    match encoding {
        Some(e) => e.spec_tag(),
        None => Seq::empty(),
    }
}

/// `"{len:x}-{stamp:x}{suffix}"`, quotes included: a validator built from what
/// a `stat` already told us, with the modification time in nanoseconds since
/// the epoch (zero when there is none).
pub open spec fn spec_etag(len: u64, modified: Option<u128>, encoding: Option<Encoding>) -> Seq<
    char,
> {
    let stamp: u128 = match modified {
        Some(t) => t,
        None => 0,
    };
    seq!['"'] + hex(len as nat) + seq!['-'] + hex(stamp as nat) + tag_suffix(encoding) + seq!['"']
}

/// A validator built from what a `stat` already told us — no hashing, no I/O.
/// `modified` is the modification time in nanoseconds since the epoch, `None`
/// when the filesystem has none to give (or it lies before the epoch). The
/// encoding is part of it: a gzipped body is a different representation.
pub fn etag(len: u64, modified: Option<u128>, encoding: Option<Encoding>) -> (r: String)
    ensures
        r@ == spec_etag(len, modified, encoding),
{
    let stamp: u128 = match modified {
        Some(t) => t,
        None => 0,
    };
    let mut out = String::new();
    push_char(&mut out, '"');
    push_hex(&mut out, len as u128);
    push_char(&mut out, '-');
    push_hex(&mut out, stamp);
    match encoding {
        Some(e) => push_str(&mut out, e.tag()),
        None => {},
    }
    push_char(&mut out, '"');
    out
}

proof fn lemma_hex_has_no(n: nat, c: char)
    requires
        !is_base_digit(c),
    ensures
        !hex(n).contains(c),
        hex(n).len() >= 1,
{
    lemma_in_base(n, 16);
}

/// Two files get the same validator only when they have the same size, the
/// same modification time and the same encoding: either half moving moves the
/// tag.
pub proof fn etag_is_injective(
    l1: u64,
    m1: Option<u128>,
    e1: Option<Encoding>,
    l2: u64,
    m2: Option<u128>,
    e2: Option<Encoding>,
)
    requires
        spec_etag(l1, m1, e1) == spec_etag(l2, m2, e2),
    ensures
        l1 == l2,
        e1 == e2,
        (match m1 {
            Some(t) => t,
            None => 0u128,
        }) == (match m2 {
            Some(t) => t,
            None => 0u128,
        }),
{
    let s1: u128 = match m1 {
        Some(t) => t,
        None => 0,
    };
    let s2: u128 = match m2 {
        Some(t) => t,
        None => 0,
    };
    let a1 = hex(l1 as nat);
    let a2 = hex(l2 as nat);
    let b1 = hex(s1 as nat);
    let b2 = hex(s2 as nat);
    lemma_hex_has_no(l1 as nat, '-');
    lemma_hex_has_no(l2 as nat, '-');
    lemma_hex_has_no(s1 as nat, '-');
    lemma_hex_has_no(s2 as nat, '-');
    lemma_hex_has_no(s1 as nat, '"');
    lemma_hex_has_no(s2 as nat, '"');
    let t1 = spec_etag(l1, m1, e1);
    let t2 = spec_etag(l2, m2, e2);
    assert(t1 == seq!['"'] + a1 + seq!['-'] + b1 + tag_suffix(e1) + seq!['"']);
    // The first `-` ends the size.
    if a1.len() < a2.len() {
        assert(t1[1 + a1.len() as int] == '-');
        assert(t2[1 + a1.len() as int] == a2[a1.len() as int]);
        assert(a2.contains('-'));
    }
    if a2.len() < a1.len() {
        assert(t2[1 + a2.len() as int] == '-');
        assert(t1[1 + a2.len() as int] == a1[a2.len() as int]);
        assert(a1.contains('-'));
    }
    assert(a1.len() == a2.len());
    assert forall|i: int| 0 <= i < a1.len() implies a1[i] == a2[i] by {
        assert(t1[1 + i] == a1[i]);
        assert(t2[1 + i] == a2[i]);
    }
    assert(a1 == a2);
    lemma_in_base_injective(l1 as nat, l2 as nat, 16);
    // What follows the first `-`: the time, the suffix, the closing quote.
    let r1 = b1 + tag_suffix(e1) + seq!['"'];
    let r2 = b2 + tag_suffix(e2) + seq!['"'];
    let k = 2 + a1.len();
    assert forall|i: int| 0 <= i < r1.len() implies r1[i] == t1[k + i] by {}
    assert forall|i: int| 0 <= i < r2.len() implies r2[i] == t2[k + i] by {}
    assert(r1.len() == r2.len());
    assert(r1 == r2) by {
        assert forall|i: int| 0 <= i < r1.len() implies r1[i] == r2[i] by {
            assert(r1[i] == t1[k + i]);
            assert(r2[i] == t2[k + i]);
        }
    }
    // Only the suffix can hold a `-`.
    if e1 != e2 {
        if e1 is Some {
            assert(r1[b1.len() as int] == '-');
            assert(r2.contains('-'));
            let j = choose|j: int| 0 <= j < r2.len() && r2[j] == '-';
            if j < b2.len() {
                assert(b2[j] == '-');
                assert(b2.contains('-'));
            } else {
                assert(r2[j] == '"');
            }
        } else {
            assert(r2[b2.len() as int] == '-');
            assert(r1.contains('-'));
            let j = choose|j: int| 0 <= j < r1.len() && r1[j] == '-';
            if j < b1.len() {
                assert(b1[j] == '-');
                assert(b1.contains('-'));
            } else {
                assert(r1[j] == '"');
            }
        }
    }
    assert(e1 == e2);
    assert(b1.len() == b2.len());
    assert forall|i: int| 0 <= i < b1.len() implies b1[i] == b2[i] by {
        assert(r1[i] == b1[i]);
        assert(r2[i] == b2[i]);
    }
    assert(b1 == b2);
    lemma_in_base_injective(s1 as nat, s2 as nat, 16);
}

/// `If-None-Match` / `If-Range` against the tag a file has now: `*`, or any
/// entry of the comma-separated list once trimmed.
pub open spec fn spec_matches(value: Option<Seq<char>>, etag: Seq<char>) -> bool {
    match value {
        None => false,
        Some(v) => v == seq!['*'] || exists|k: int|
            0 <= k < split(v, ',').len() && trim(#[trigger] split(v, ',')[k]) == etag,
    }
}

/// Whether a validator the client sent matches `etag`.
pub fn matches(value: Option<&str>, etag: &str) -> (r: bool)
    ensures
        r == spec_matches(
            match value {
                Some(v) => Some(v@),
                None => None,
            },
            etag@,
        ),
{
    let text = match value {
        Some(v) => v,
        None => return false,
    };
    let v = chars_of(text);
    let n = v.len();
    assert(v@.subrange(0, n as int) == text@);
    proof {
        reveal_strlit("*");
    }
    assert("*"@ == seq!['*']);
    if range_eq(&v, 0, n, "*") {
        return true;
    }
    let ghost whole = split(v@, ',');
    let ghost mut seen: Seq<Seq<char>> = Seq::empty();
    let mut start: usize = 0;
    loop
        invariant
            0 <= start <= n == v.len(),
            v@ == text@,
            value == Some(text),
            v@ != seq!['*'],
            whole == split(v@, ','),
            whole == seen + split(v@.subrange(start as int, n as int), ','),
            forall|k: int| 0 <= k < seen.len() ==> trim(#[trigger] seen[k]) != etag@,
        decreases n - start,
    {
        let found = find_in(&v, start, n, ',');
        proof {
            lemma_find(v@.subrange(start as int, n as int), ',');
        }
        let end = match found {
            Some(i) => start + i,
            None => n,
        };
        proof {
            match found {
                Some(i) => lemma_split_step(v@, start as int, n as int, ',', i as int),
                None => lemma_split_last(v@, start as int, n as int, ','),
            }
        }
        let (a, b) = trim_bounds(&v, start, end);
        let piece_eq = range_eq_string(&v, a, b, etag);
        if piece_eq {
            proof {
                let k = seen.len() as int;
                assert(whole[k] == v@.subrange(start as int, end as int));
                assert(trim(split(v@, ',')[k]) == etag@);
            }
            return true;
        }
        match found {
            Some(i) => {
                proof {
                    seen = seen.push(v@.subrange(start as int, end as int));
                    assert(whole == seen + split(v@.subrange(end + 1, n as int), ','));
                }
                start = end + 1;
            },
            None => {
                proof {
                    let seen2 = seen.push(v@.subrange(start as int, end as int));
                    assert(whole == seen2);
                    assert forall|k: int| 0 <= k < whole.len() implies trim(
                        #[trigger] whole[k],
                    ) != etag@ by {
                        if k < seen.len() {
                            assert(whole[k] == seen[k]);
                        } else {
                            assert(whole[k] == v@.subrange(start as int, end as int));
                        }
                    }
                }
                return false;
            },
        }
    }
}

/// Whether `v[lo..hi]` equals the string `s` (not a literal).
fn range_eq_string(v: &Vec<char>, lo: usize, hi: usize, s: &str) -> (r: bool)
    requires
        lo <= hi <= v.len(),
    ensures
        r == (v@.subrange(lo as int, hi as int) == s@),
{
    range_eq(v, lo, hi, s)
}

/// A validator always matches itself: what serv sends as an `ETag` and gets
/// back unchanged is answered with `304`.
pub proof fn a_tag_matches_itself(len: u64, modified: Option<u128>, encoding: Option<Encoding>)
    ensures
        spec_matches(Some(spec_etag(len, modified, encoding)), spec_etag(len, modified, encoding)),
{
    let t = spec_etag(len, modified, encoding);
    let stamp: u128 = match modified {
        Some(x) => x,
        None => 0,
    };
    lemma_in_base(len as nat, 16);
    lemma_in_base(stamp as nat, 16);
    assert(!t.contains(',')) by {
        if t.contains(',') {
            let j = choose|j: int| 0 <= j < t.len() && t[j] == ',';
            let a = hex(len as nat);
            let b = hex(stamp as nat);
            if 1 <= j < 1 + a.len() {
                assert(a[j - 1] == ',');
            } else if 2 + a.len() <= j < 2 + a.len() + b.len() {
                assert(b[j - 2 - a.len()] == ',');
            }
        }
    }
    lemma_find(t, ',');
    assert(split(t, ',') == seq![t]);
    assert(!is_ws(t[0]));
    assert(trim_start(t) == t);
    assert(!is_ws(t.last()));
    assert(trim_end(t) == t);
    assert(trim(split(t, ',')[0]) == t);
}


// ---------------------------------------------------------------------------
// Content types

/// The media type mime_guess picks for `path` (octet-stream when it knows
/// none), as its `Display` writes it.
pub uninterp spec fn guessed_mime(path: Seq<char>) -> Seq<char>;

/// The essence (`type/subtype`, no parameters) of that media type.
pub uninterp spec fn guessed_essence(path: Seq<char>) -> Seq<char>;

/// `mime_guess::from_path(path).first_or_octet_stream()`, read out as its
/// text and its essence. Claims only that both are named results of the path.
#[verifier::external_body]
fn guess_mime(path: &str) -> (r: (String, String))
    ensures
        r.0@ == guessed_mime(path@),
        r.1@ == guessed_essence(path@),
{
    let mime = mime_guess::from_path(path).first_or_octet_stream();
    (mime.to_string(), mime.essence_str().to_string())
}

/// The top-level type of an essence: what comes before the `/`.
pub open spec fn top_type(essence: Seq<char>) -> Seq<char> {
    match find(essence, '/') {
        Some(i) => essence.subrange(0, i),
        None => essence,
    }
}

/// Text, and the structured formats a browser reads as text, are labelled
/// with a charset.
pub open spec fn spec_needs_charset(essence: Seq<char>) -> bool {
    ||| top_type(essence) == "text"@
    ||| essence == "application/javascript"@
    ||| essence == "application/json"@
    ||| essence == "application/xml"@
    ||| essence == "application/manifest+json"@
    ||| essence == "image/svg+xml"@
}

/// Whether a media type, by its essence, is labelled with a charset.
pub fn needs_charset(essence: &str) -> (r: bool)
    ensures
        r == spec_needs_charset(essence@),
{
    let v = chars_of(essence);
    let n = v.len();
    assert(v@.subrange(0, n as int) == essence@);
    let top_end = match find_in(&v, 0, n, '/') {
        Some(i) => {
            proof {
                lemma_find(essence@, '/');
            }
            i
        },
        None => n,
    };
    assert(top_type(essence@) == v@.subrange(0, top_end as int));
    range_eq(&v, 0, top_end, "text") || range_eq(&v, 0, n, "application/javascript") || range_eq(
        &v,
        0,
        n,
        "application/json",
    ) || range_eq(&v, 0, n, "application/xml") || range_eq(&v, 0, n, "application/manifest+json")
        || range_eq(&v, 0, n, "image/svg+xml")
}

pub open spec fn spec_content_type(path: Seq<char>) -> Seq<char> {
    if spec_needs_charset(guessed_essence(path)) {
        guessed_mime(path) + "; charset=utf-8"@
    } else {
        guessed_mime(path)
    }
}

/// Guess a content type, adding a charset for the formats browsers expect one on.
pub fn content_type(path: &str) -> (r: String)
    ensures
        r@ == spec_content_type(path@),
{
    let (mime, essence) = guess_mime(path);
    let mut out = mime;
    if needs_charset(essence.as_str()) {
        push_str(&mut out, "; charset=utf-8");
    }
    out
}

// ---------------------------------------------------------------------------
// Range headers on the way out

/// `bytes {start}-{end}/{len}`.
pub open spec fn spec_content_range(start: u64, end: u64, len: u64) -> Seq<char> {
    "bytes "@ + dec(start as nat) + seq!['-'] + dec(end as nat) + seq!['/'] + dec(len as nat)
}

pub fn content_range(start: u64, end: u64, len: u64) -> (r: String)
    ensures
        r@ == spec_content_range(start, end, len),
{
    let mut out = String::new();
    push_str(&mut out, "bytes ");
    push_dec(&mut out, start as u128);
    push_char(&mut out, '-');
    push_dec(&mut out, end as u128);
    push_char(&mut out, '/');
    push_dec(&mut out, len as u128);
    out
}

/// `bytes */{len}`, for a range that cannot be served.
pub open spec fn spec_unsatisfied_range(len: u64) -> Seq<char> {
    "bytes */"@ + dec(len as nat)
}

pub fn unsatisfied_range(len: u64) -> (r: String)
    ensures
        r@ == spec_unsatisfied_range(len),
{
    let mut out = String::new();
    push_str(&mut out, "bytes */");
    push_dec(&mut out, len as u128);
    out
}

// ---------------------------------------------------------------------------
// Sending a file

/// How the body goes out.
#[derive(Debug, PartialEq, Eq, Structural)]
pub enum Body {
    /// `304`: the browser's copy still matches; no body.
    NotModified,
    /// The whole file, compressed, with `Content-Encoding`; the status as given.
    Compressed(Encoding),
    /// `416`: the range asks for nothing the file has; `Content-Range: bytes */len`.
    Unsatisfiable,
    /// `span` bytes from `start`, with `Accept-Ranges` and `Content-Length`;
    /// a `206` carries `Content-Range` too.
    Stream { status: u16, start: u64, span: u64 },
}

/// Everything about a response for a file, short of its bytes.
pub struct Plan {
    pub content_type: String,
    pub etag: String,
    /// `Cache-Control`: always `no-cache`. A dev server that told a browser
    /// to hold on to a file would be unusable, so it is always asked to
    /// revalidate.
    pub cache_control: &'static str,
    /// `Accept-Ranges: bytes`, sent with a body that is streamed or whose
    /// range could not be met.
    pub accept_ranges: bool,
    /// `Vary: accept-encoding`, set whenever the answer could have differed.
    pub vary: bool,
    /// `Last-Modified`, when the file has a modification time.
    pub last_modified: Option<String>,
    pub body: Body,
}

/// What a request tells `send`, header by header.
pub struct Asked<'a> {
    pub accept_encoding: Option<&'a str>,
    pub if_none_match: Option<&'a str>,
    pub if_range: Option<&'a str>,
    pub range: Option<&'a str>,
}

pub open spec fn view_opt(o: Option<&str>) -> Option<Seq<char>> {
    match o {
        Some(s) => Some(s@),
        None => None,
    }
}

/// The encoding a response gets: only a `200` of a compressible type whose
/// size is between the two thresholds is compressed, and only when the client
/// welcomes gzip.
pub open spec fn spec_encoding(
    status: u16,
    compressible: bool,
    len: u64,
    accept_encoding: Option<Seq<char>>,
) -> Option<Encoding> {
    if status == 200 && compressible && MIN_BODY <= len <= MAX_BODY {
        spec_negotiate(accept_encoding)
    } else {
        None
    }
}

/// How the body of a file goes out, given its validator.
pub open spec fn spec_body(
    status: u16,
    len: u64,
    etag: Seq<char>,
    encoding: Option<Encoding>,
    if_none_match: Option<Seq<char>>,
    if_range: Option<Seq<char>>,
    range: Option<Seq<char>>,
) -> Body {
    if status == 200 && spec_matches(if_none_match, etag) {
        Body::NotModified
    } else if encoding is Some {
        Body::Compressed(encoding->0)
    } else {
        // `If-Range` lets a resumed download check that the file has not
        // changed underneath it; when it has, the right answer is the whole file.
        let ranged = status == 200 && (if_range is None || spec_matches(if_range, etag));
        let r = if ranged && range is Some {
            spec_parse_range(range->0, len)
        } else {
            Range::Whole
        };
        match r {
            Range::Whole => Body::Stream { status, start: 0, span: len },
            Range::Partial(start, end) => Body::Stream {
                status: 206,
                start,
                span: (end - start + 1) as u64,
            },
            Range::Unsatisfiable => Body::Unsatisfiable,
        }
    }
}

/// Decide the response for the file at `path`, `len` bytes long and last
/// modified `modified` nanoseconds after the epoch, sent with `status`.
pub fn plan(path: &str, status: u16, len: u64, modified: Option<u128>, asked: &Asked) -> (r: Plan)
    requires
        modified matches Some(t) ==> t / 1_000_000_000 < LAST_DATE,
    ensures
        r.content_type@ == spec_content_type(path@),
        r.vary == spec_worthwhile(spec_content_type(path@)),
        r.etag@ == spec_etag(
            len,
            modified,
            spec_encoding(
                status,
                spec_worthwhile(spec_content_type(path@)),
                len,
                view_opt(asked.accept_encoding),
            ),
        ),
        r.last_modified matches Some(s) ==> modified matches Some(t) && s@ == http_date(
            (t / 1_000_000_000) as u64,
        ),
        r.last_modified is None <==> modified is None,
        r.body == spec_body(
            status,
            len,
            r.etag@,
            spec_encoding(
                status,
                spec_worthwhile(spec_content_type(path@)),
                len,
                view_opt(asked.accept_encoding),
            ),
            view_opt(asked.if_none_match),
            view_opt(asked.if_range),
            view_opt(asked.range),
        ),
        r.body matches Body::Stream { start, span, .. } ==> start + span <= len,
        r.cache_control@ == "no-cache"@,
        r.accept_ranges == (r.body is Stream || r.body is Unsatisfiable),
{
    let ct = content_type(path);
    let compressible = worthwhile(ct.as_str());
    let encoding = if status == 200 && compressible && MIN_BODY <= len && len <= MAX_BODY {
        negotiate(asked.accept_encoding)
    } else {
        None
    };
    let tag = etag(len, modified, encoding);
    let last_modified = match modified {
        Some(t) => Some(fmt_http_date((t / 1_000_000_000) as u64)),
        None => None,
    };
    let body = if status == 200 && matches(asked.if_none_match, tag.as_str()) {
        Body::NotModified
    } else if encoding.is_some() {
        Body::Compressed(encoding.unwrap())
    } else {
        let ranged = status == 200 && match asked.if_range {
            None => true,
            Some(v) => matches(Some(v), tag.as_str()),
        };
        let r = match asked.range {
            Some(spec) => if ranged {
                parse_range(spec, len)
            } else {
                Range::Whole
            },
            None => Range::Whole,
        };
        match r {
            Range::Whole => Body::Stream { status, start: 0, span: len },
            Range::Partial(start, end) => Body::Stream { status: 206, start, span: end - start + 1 },
            Range::Unsatisfiable => Body::Unsatisfiable,
        }
    };
    let accept_ranges = match body {
        Body::Stream { .. } => true,
        Body::Unsatisfiable => true,
        _ => false,
    };
    Plan {
        content_type: ct,
        etag: tag,
        cache_control: "no-cache",
        accept_ranges,
        vary: compressible,
        last_modified,
        body,
    }
}

/// A page sent with any status but `200` — a not-found page — goes out whole
/// and as it is: never `304`, never compressed, never cut to a range.
pub proof fn only_a_200_is_revalidated_compressed_or_ranged(
    status: u16,
    len: u64,
    etag: Seq<char>,
    compressible: bool,
    accept_encoding: Option<Seq<char>>,
    if_none_match: Option<Seq<char>>,
    if_range: Option<Seq<char>>,
    range: Option<Seq<char>>,
)
    requires
        status != 200,
    ensures
        spec_body(
            status,
            len,
            etag,
            spec_encoding(status, compressible, len, accept_encoding),
            if_none_match,
            if_range,
            range,
        ) == (Body::Stream { status, start: 0, span: len }),
{
}

/// Only a body of a middling size is ever compressed: one under `MIN_BODY`
/// or over `MAX_BODY` gets no encoding, so its `ETag` carries no encoding
/// suffix, it is never sent `Compressed`, and it is answered exactly as an
/// identity body — a large asset keeps its streaming path and its ranges.
pub proof fn only_a_middling_body_is_compressed(
    status: u16,
    len: u64,
    compressible: bool,
    accept_encoding: Option<Seq<char>>,
    modified: Option<u128>,
    if_none_match: Option<Seq<char>>,
    if_range: Option<Seq<char>>,
    range: Option<Seq<char>>,
)
    requires
        len < MIN_BODY || len > MAX_BODY,
    ensures
        spec_encoding(status, compressible, len, accept_encoding) is None,
        spec_etag(len, modified, spec_encoding(status, compressible, len, accept_encoding))
            == spec_etag(len, modified, None),
        ({
            let etag = spec_etag(len, modified, spec_encoding(status, compressible, len, accept_encoding));
            let body = spec_body(
                status,
                len,
                etag,
                spec_encoding(status, compressible, len, accept_encoding),
                if_none_match,
                if_range,
                range,
            );
            &&& !(body is Compressed)
            &&& body == spec_body(status, len, etag, None, if_none_match, if_range, range)
        }),
{
}

/// A body that is sent compressed is compressed whole: a range asked of it is
/// not honoured.
pub proof fn a_compressed_body_is_not_ranged(
    status: u16,
    len: u64,
    etag: Seq<char>,
    encoding: Encoding,
    if_none_match: Option<Seq<char>>,
    if_range: Option<Seq<char>>,
    range: Option<Seq<char>>,
)
    requires
        !(status == 200 && spec_matches(if_none_match, etag)),
    ensures
        spec_body(status, len, etag, Some(encoding), if_none_match, if_range, range)
            == Body::Compressed(encoding),
{
}


/// `If-Range` is honoured: a resumed download whose validator no longer
/// matches — the file changed underneath it — gets the whole file rather
/// than a corrupt splice, whatever range it asked for.
pub proof fn a_changed_file_is_resent_whole(
    len: u64,
    etag: Seq<char>,
    if_none_match: Option<Seq<char>>,
    if_range: Seq<char>,
    range: Option<Seq<char>>,
)
    requires
        !spec_matches(Some(if_range), etag),
        !spec_matches(if_none_match, etag),
    ensures
        spec_body(200, len, etag, None, if_none_match, Some(if_range), range) == (Body::Stream {
            status: 200,
            start: 0,
            span: len,
        }),
{
}

} // verus!
