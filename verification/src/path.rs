//! Mapping a request path onto the served folder, and the second check that
//! a file found there really is inside it.

use vstd::prelude::*;
use vstd::utf8::{decode_utf8, encode_utf8, valid_utf8};

use crate::text::{
    chars_of, find, lemma_find, lemma_find_is, lemma_find_none, push_char, push_str, range_eq,
    split, split_bounds, starts_with, string_of_range,
};

verus! {

// ---------------------------------------------------------------------------
// Percent-decoding

/// `char::to_digit(16)` on a byte.
pub open spec fn hex_val(b: u8) -> Option<u8> {
    if 48 <= b <= 57 {
        Some((b - 48) as u8)
    } else if 97 <= b <= 102 {
        Some((b - 87) as u8)
    } else if 65 <= b <= 70 {
        Some((b - 55) as u8)
    } else {
        None
    }
}

/// Percent-decoding as `percent_encoding::percent_decode` does it: `%` and two
/// hex digits become the byte they spell; every other byte, a lone or
/// malformed `%` included, is kept as it is.
pub open spec fn pct_decode(b: Seq<u8>) -> Seq<u8>
    decreases b.len(),
{
    if b.len() == 0 {
        Seq::empty()
    } else if b[0] == 37 && b.len() >= 3 && hex_val(b[1]) is Some && hex_val(b[2]) is Some {
        seq![(hex_val(b[1])->0 * 16 + hex_val(b[2])->0) as u8] + pct_decode(
            b.subrange(3, b.len() as int),
        )
    } else {
        seq![b[0]] + pct_decode(b.drop_first())
    }
}

fn hex_value(b: u8) -> (r: Option<u8>)
    ensures
        r == hex_val(b),
{
    if 48 <= b && b <= 57 {
        Some(b - 48)
    } else if 97 <= b && b <= 102 {
        Some(b - 87)
    } else if 65 <= b && b <= 70 {
        Some(b - 55)
    } else {
        None
    }
}

/// Decode the percent-escapes in `b`.
pub fn percent_decode(b: &[u8]) -> (out: Vec<u8>)
    ensures
        out@ == pct_decode(b@),
{
    let n = b.len();
    let mut out: Vec<u8> = Vec::new();
    let mut i: usize = 0;
    assert(b@.subrange(0, n as int) == b@);
    while i < n
        invariant
            n == b@.len(),
            i <= n,
            out@ + pct_decode(b@.subrange(i as int, n as int)) == pct_decode(b@),
        decreases n - i,
    {
        let ghost rest = b@.subrange(i as int, n as int);
        if b[i] == 37 && n - i >= 3 {
            let hi = hex_value(b[i + 1]);
            let lo = hex_value(b[i + 2]);
            match (hi, lo) {
                (Some(h), Some(l)) => {
                    let byte = h * 16 + l;
                    proof {
                        assert(rest[1] == b@[i + 1]);
                        assert(rest[2] == b@[i + 2]);
                        assert(rest.subrange(3, rest.len() as int) == b@.subrange(i + 3, n as int));
                        assert(out@.push(byte) + pct_decode(b@.subrange(i + 3, n as int)) == out@
                            + pct_decode(rest));
                    }
                    out.push(byte);
                    i += 3;
                    continue ;
                },
                _ => {},
            }
        }
        proof {
            assert(rest[0] == b@[i as int]);
            assert(rest.drop_first() == b@.subrange(i + 1, n as int));
            if rest.len() >= 3 {
                assert(rest[1] == b@[i + 1]);
                assert(rest[2] == b@[i + 2]);
            }
            assert(out@.push(b@[i as int]) + pct_decode(b@.subrange(i + 1, n as int)) == out@
                + pct_decode(rest));
        }
        out.push(b[i]);
        i += 1;
    }
    out
}

/// `String::from_utf8`: the text when `bytes` is valid UTF-8, nothing otherwise.
/// Claims that it succeeds exactly on valid UTF-8 and then gives the text the
/// bytes decode to, as the standard library documents.
#[verifier::external_body]
fn utf8_string(bytes: Vec<u8>) -> (r: Option<String>)
    ensures
        r is Some <==> valid_utf8(bytes@),
        r matches Some(s) ==> s@ == decode_utf8(bytes@),
{
    String::from_utf8(bytes).ok()
}

/// A raw path segment, percent-decoded and read as UTF-8.
pub open spec fn decode_segment(raw: Seq<char>) -> Option<Seq<char>> {
    let b = pct_decode(encode_utf8(raw));
    if valid_utf8(b) {
        Some(decode_utf8(b))
    } else {
        None
    }
}

// ---------------------------------------------------------------------------
// Resolving

/// A segment that names something inside the folder it is read in: not empty,
/// not `.` or `..`, and free of separators and NUL.
pub open spec fn is_name(seg: Seq<char>) -> bool {
    &&& seg.len() > 0
    &&& seg != seq!['.']
    &&& seg != seq!['.', '.']
    &&& !seg.contains('/')
    &&& !seg.contains('\\')
    &&& !seg.contains('\0')
}

/// Walk the raw segments of a request path from left to right, keeping the
/// trail of names below the root: empty and `.` segments change nothing, `..`
/// steps back and may not step above the root, and a segment that does not
/// decode, or decodes to something with a separator or NUL in it, refuses
/// the whole path.
pub open spec fn walk(trail: Seq<Seq<char>>, raws: Seq<Seq<char>>) -> Option<Seq<Seq<char>>>
    decreases raws.len(),
{
    if raws.len() == 0 {
        Some(trail)
    } else {
        let rest = raws.drop_first();
        if raws[0].len() == 0 {
            walk(trail, rest)
        } else {
            match decode_segment(raws[0]) {
                None => None,
                Some(seg) => if seg == seq!['.'] {
                    walk(trail, rest)
                } else if seg == seq!['.', '.'] {
                    if trail.len() == 0 {
                        None
                    } else {
                        walk(trail.drop_last(), rest)
                    }
                } else if seg.contains('/') || seg.contains('\\') || seg.contains('\0') {
                    None
                } else {
                    walk(trail.push(seg), rest)
                },
            }
        }
    }
}

/// `PathBuf::push` of a relative name: a separator goes in unless the path is
/// empty or already ends in one.
pub open spec fn push_name(path: Seq<char>, name: Seq<char>) -> Seq<char> {
    if path.len() == 0 {
        name
    } else if path.last() == '/' {
        path + name
    } else {
        path + seq!['/'] + name
    }
}

/// The root with every name of the trail pushed onto it.
pub open spec fn join_all(root: Seq<char>, trail: Seq<Seq<char>>) -> Seq<char>
    decreases trail.len(),
{
    if trail.len() == 0 {
        root
    } else {
        push_name(join_all(root, trail.drop_last()), trail.last())
    }
}

/// Where a request path lands below `root`, or `None` for a path that tries
/// to leave it, does not decode, or smuggles a separator through escapes.
pub open spec fn spec_resolve(root: Seq<char>, url_path: Seq<char>) -> Option<Seq<char>> {
    match walk(Seq::empty(), split(url_path, '/')) {
        None => None,
        Some(trail) => Some(join_all(root, trail)),
    }
}

/// Decode one raw segment `v[lo..hi]`.
fn decode_raw(v: &Vec<char>, lo: usize, hi: usize) -> (r: Option<String>)
    requires
        lo <= hi <= v.len(),
    ensures
        match r {
            Some(s) => decode_segment(v@.subrange(lo as int, hi as int)) == Some(s@),
            None => decode_segment(v@.subrange(lo as int, hi as int)) is None,
        },
{
    let raw = string_of_range(v, lo, hi);
    let bytes = raw.as_str().as_bytes();
    let decoded = percent_decode(bytes);
    utf8_string(decoded)
}

/// Whether `seg` is `.`, `..`, or holds a separator or NUL.
fn classify(seg: &Vec<char>) -> (r: u8)
    ensures
        r == 0 <==> seg@ == seq!['.'],
        r == 1 <==> seg@ == seq!['.', '.'],
        r == 2 <==> (seg@ != seq!['.'] && seg@ != seq!['.', '.'] && (seg@.contains('/')
            || seg@.contains('\\') || seg@.contains('\0'))),
        r <= 3,
{
    if seg.len() == 1 && seg[0] == '.' {
        assert(seg@ == seq!['.']);
        return 0;
    }
    if seg.len() == 2 && seg[0] == '.' && seg[1] == '.' {
        assert(seg@ == seq!['.', '.']);
        return 1;
    }
    let mut i: usize = 0;
    while i < seg.len()
        invariant
            i <= seg.len(),
            forall|j: int| 0 <= j < i ==> seg@[j] != '/' && seg@[j] != '\\' && seg@[j] != '\0',
        decreases seg.len() - i,
    {
        let c = seg[i];
        if c == '/' || c == '\\' || c == '\0' {
            assert(seg@[i as int] == c);
            return 2;
        }
        i += 1;
    }
    3
}

/// Map a request path onto a path below `root`.
///
/// Returns `None` for anything that tries to leave the served directory, is not
/// valid UTF-8 once decoded, or smuggles a separator through percent-encoding.
pub fn resolve(root: &str, url_path: &str) -> (r: Option<String>)
    ensures
        match r {
            Some(p) => spec_resolve(root@, url_path@) == Some(p@),
            None => spec_resolve(root@, url_path@) is None,
        },
{
    let v = chars_of(url_path);
    let n = v.len();
    assert(v@.subrange(0, n as int) == url_path@);
    let raws = split_bounds(&v, 0, n, '/');
    let ghost all = split(v@, '/');
    let mut trail: Vec<String> = Vec::new();
    let mut i: usize = 0;
    assert(trail@.map_values(|s: String| s@) == Seq::<Seq<char>>::empty());
    assert(all.subrange(0, all.len() as int) == all);
    while i < raws.len()
        invariant
            v@ == url_path@,
            n == v.len(),
            raws.len() == all.len(),
            all == split(v@, '/'),
            forall|k: int|
                0 <= k < raws.len() ==> (#[trigger] raws@[k]).0 <= raws@[k].1 <= n && v@.subrange(
                    raws@[k].0 as int,
                    raws@[k].1 as int,
                ) == all[k],
            i <= raws.len(),
            walk(Seq::empty(), all) == walk(
                trail@.map_values(|s: String| s@),
                all.subrange(i as int, all.len() as int),
            ),
        decreases raws.len() - i,
    {
        let (a, b) = raws[i];
        assert(raws@[i as int] == (a, b));
        let ghost cur = trail@.map_values(|s: String| s@);
        let ghost rest = all.subrange(i as int, all.len() as int);
        assert(rest[0] == all[i as int]);
        assert(rest.drop_first() == all.subrange(i + 1, all.len() as int));
        if a == b {
            i += 1;
            continue ;
        }
        let seg = match decode_raw(&v, a, b) {
            Some(s) => s,
            None => return None,
        };
        let sv = chars_of(seg.as_str());
        let kind = classify(&sv);
        if kind == 0 {
            i += 1;
            continue ;
        }
        if kind == 1 {
            if trail.len() == 0 {
                return None;
            }
            trail.pop();
            assert(trail@.map_values(|s: String| s@) == cur.drop_last());
            i += 1;
            continue ;
        }
        if kind == 2 {
            return None;
        }
        trail.push(seg);
        assert(trail@.map_values(|s: String| s@) == cur.push(sv@));
        i += 1;
    }
    assert(all.subrange(raws.len() as int, all.len() as int) == Seq::<Seq<char>>::empty());
    let mut path = String::new();
    push_str(&mut path, root);
    let mut k: usize = 0;
    let ghost names = trail@.map_values(|s: String| s@);
    assert(names.subrange(0, 0) == Seq::<Seq<char>>::empty());
    while k < trail.len()
        invariant
            k <= trail.len(),
            names == trail@.map_values(|s: String| s@),
            path@ == join_all(root@, names.subrange(0, k as int)),
        decreases trail.len() - k,
    {
        let ghost before = path@;
        let pv = chars_of(path.as_str());
        if pv.len() > 0 && pv[pv.len() - 1] != '/' {
            push_char(&mut path, '/');
        }
        push_str(&mut path, trail[k].as_str());
        proof {
            assert(names.subrange(0, k + 1).drop_last() == names.subrange(0, k as int));
            assert(names.subrange(0, k + 1).last() == trail@[k as int]@);
        }
        k += 1;
    }
    assert(names.subrange(0, trail.len() as int) == names);
    Some(path)
}


proof fn lemma_walk_names(trail: Seq<Seq<char>>, raws: Seq<Seq<char>>)
    requires
        forall|k: int| 0 <= k < trail.len() ==> is_name(#[trigger] trail[k]),
    ensures
        walk(trail, raws) matches Some(t) ==> forall|k: int| 0 <= k < t.len() ==> is_name(
            #[trigger] t[k],
        ),
    decreases raws.len(),
{
    if raws.len() > 0 {
        let rest = raws.drop_first();
        if raws[0].len() == 0 {
            lemma_walk_names(trail, rest);
        } else {
            match decode_segment(raws[0]) {
                None => {},
                Some(seg) => {
                    if seg == seq!['.'] {
                        lemma_walk_names(trail, rest);
                    } else if seg == seq!['.', '.'] {
                        if trail.len() > 0 {
                            assert forall|k: int| 0 <= k < trail.drop_last().len() implies is_name(
                                #[trigger] trail.drop_last()[k],
                            ) by {
                                assert(trail.drop_last()[k] == trail[k]);
                            }
                            lemma_walk_names(trail.drop_last(), rest);
                        }
                    } else if !(seg.contains('/') || seg.contains('\\') || seg.contains('\0')) {
                        assert forall|k: int| 0 <= k < trail.push(seg).len() implies is_name(
                            #[trigger] trail.push(seg)[k],
                        ) by {
                            if k < trail.len() {
                                assert(trail.push(seg)[k] == trail[k]);
                            }
                        }
                        lemma_walk_names(trail.push(seg), rest);
                    }
                },
            }
        }
    }
}

proof fn lemma_join_extends_root(root: Seq<char>, trail: Seq<Seq<char>>)
    ensures
        starts_with(join_all(root, trail), root),
    decreases trail.len(),
{
    assert(root.subrange(0, root.len() as int) == root);
    if trail.len() > 0 {
        lemma_join_extends_root(root, trail.drop_last());
        let p = join_all(root, trail.drop_last());
        let q = join_all(root, trail);
        assert(q == push_name(p, trail.last()));
        assert(q.subrange(0, p.len() as int) == p);
        assert(q.subrange(0, root.len() as int) == p.subrange(0, root.len() as int));
    }
}

/// `..` cannot climb above the served folder: a path that resolves at all is
/// the root with a trail of plain names pushed onto it — no `.`, no `..`, no
/// separator — and so it begins with the root.
pub proof fn a_resolved_path_stays_below_the_root(root: Seq<char>, url_path: Seq<char>)
    ensures
        spec_resolve(root, url_path) matches Some(p) ==> {
            &&& starts_with(p, root)
            &&& exists|trail: Seq<Seq<char>>|
                (forall|k: int| 0 <= k < trail.len() ==> is_name(#[trigger] trail[k])) && p
                    == join_all(root, trail)
        },
{
    lemma_walk_names(Seq::empty(), split(url_path, '/'));
    match walk(Seq::empty(), split(url_path, '/')) {
        None => {},
        Some(trail) => {
            lemma_join_extends_root(root, trail);
        },
    }
}

/// Splitting a directory's path with a name after it: the directory's pieces
/// up to its closing `/`, then the name.
pub proof fn lemma_split_dir_then_name(dir: Seq<char>, enc: Seq<char>)
    requires
        dir.len() > 0,
        dir.last() == '/',
        forall|k: int| 0 <= k < enc.len() ==> enc[k] != '/',
    ensures
        split(dir + enc, '/') == split(dir, '/').drop_last() + seq![enc],
        split(dir, '/').len() > 0,
        split(dir, '/').last() == Seq::<char>::empty(),
    decreases dir.len(),
{
    let all = dir + enc;
    lemma_find(dir, '/');
    let i = find(dir, '/')->0;
    assert forall|k: int| 0 <= k < i implies all[k] != '/' by {
        assert(all[k] == dir[k]);
    }
    assert(all[i] == '/');
    lemma_find_is(all, '/', i);
    assert(all.subrange(0, i) == dir.subrange(0, i));
    let rest = dir.subrange(i + 1, dir.len() as int);
    assert(all.subrange(i + 1, all.len() as int) == rest + enc);
    if rest.len() == 0 {
        assert(rest + enc == enc);
        lemma_find_none(enc, '/');
        assert(split(enc, '/') == seq![enc]);
        assert(split(rest, '/') == seq![rest]);
        assert(split(dir, '/') == seq![dir.subrange(0, i)] + seq![rest]);
        assert(split(dir, '/').drop_last() == seq![dir.subrange(0, i)]);
    } else {
        assert(rest.last() == dir.last());
        lemma_split_dir_then_name(rest, enc);
        assert(split(dir, '/') == seq![dir.subrange(0, i)] + split(rest, '/'));
        assert(split(dir, '/').drop_last() == seq![dir.subrange(0, i)] + split(rest, '/').drop_last());
    }
}

/// Walking two runs of segments is walking the first, then the second from
/// where the first left off.
pub proof fn lemma_walk_concat(trail: Seq<Seq<char>>, xs: Seq<Seq<char>>, ys: Seq<Seq<char>>)
    ensures
        walk(trail, xs + ys) == match walk(trail, xs) {
            None => None,
            Some(t) => walk(t, ys),
        },
    decreases xs.len(),
{
    if xs.len() > 0 {
        assert((xs + ys).drop_first() == xs.drop_first() + ys);
        assert((xs + ys)[0] == xs[0]);
        let rest = xs.drop_first();
        if xs[0].len() == 0 {
            lemma_walk_concat(trail, rest, ys);
        } else {
            match decode_segment(xs[0]) {
                None => {},
                Some(seg) => {
                    if seg == seq!['.'] {
                        lemma_walk_concat(trail, rest, ys);
                    } else if seg == seq!['.', '.'] {
                        if trail.len() > 0 {
                            lemma_walk_concat(trail.drop_last(), rest, ys);
                        }
                    } else if !(seg.contains('/') || seg.contains('\\') || seg.contains('\0')) {
                        lemma_walk_concat(trail.push(seg), rest, ys);
                    }
                },
            }
        }
    } else {
        assert(xs + ys == ys);
    }
}

/// Bytes with no `%` in them decode to themselves.
proof fn lemma_pct_plain(b: Seq<u8>)
    requires
        forall|k: int| 0 <= k < b.len() ==> b[k] != 37,
    ensures
        pct_decode(b) == b,
    decreases b.len(),
{
    if b.len() > 0 {
        lemma_pct_plain(b.drop_first());
        assert(b == seq![b[0]] + b.drop_first());
    }
}

/// No escape straddles the start of bytes that open with something other
/// than a hex digit and hold no `%`: what comes before decodes on its own,
/// and they are kept as they are.
pub proof fn lemma_pct_append(a: Seq<u8>, b: Seq<u8>)
    requires
        b.len() > 0,
        hex_val(b[0]) is None,
        forall|k: int| 0 <= k < b.len() ==> b[k] != 37,
    ensures
        pct_decode(a + b) == pct_decode(a) + b,
    decreases a.len(),
{
    let ab = a + b;
    if a.len() == 0 {
        assert(ab == b);
        lemma_pct_plain(b);
    } else {
        assert(ab[0] == a[0]);
        if a[0] == 37 && a.len() >= 3 && hex_val(a[1]) is Some && hex_val(a[2]) is Some {
            assert(ab[1] == a[1] && ab[2] == a[2]);
            assert(ab.subrange(3, ab.len() as int) == a.subrange(3, a.len() as int) + b);
            lemma_pct_append(a.subrange(3, a.len() as int), b);
        } else {
            if a.len() == 1 {
                assert(ab[1] == b[0]);
            } else if a.len() == 2 {
                assert(ab[1] == a[1]);
                assert(ab[2] == b[0]);
            } else {
                assert(ab[1] == a[1]);
                assert(ab[2] == a[2]);
            }
            assert(ab.drop_first() == a.drop_first() + b);
            lemma_pct_append(a.drop_first(), b);
        }
    }
}

/// UTF-8 encoding distributes over concatenation.
pub proof fn lemma_encode_utf8_concat(a: Seq<char>, b: Seq<char>)
    ensures
        encode_utf8(a + b) == encode_utf8(a) + encode_utf8(b),
    decreases a.len(),
{
    if a.len() == 0 {
        assert(a + b == b);
    } else {
        lemma_encode_utf8_concat(a.drop_first(), b);
        assert((a + b).drop_first() == a.drop_first() + b);
        assert((a + b)[0] == a[0]);
    }
}

/// The page extensions clean URLs remove.
pub open spec fn page_extension(ext: Seq<char>) -> bool {
    ext == ".html"@ || ext == ".md"@
}

/// A raw segment with a page extension after it decodes only when the
/// segment does, and then to the segment's text with the extension after it.
pub proof fn lemma_decode_with_extension(r: Seq<char>, ext: Seq<char>)
    requires
        page_extension(ext),
        decode_segment(r + ext) is Some,
    ensures
        decode_segment(r) is Some,
        decode_segment(r + ext) == Some(decode_segment(r)->0 + ext),
{
    broadcast use vstd::utf8::encode_utf8_valid_utf8, vstd::utf8::encode_utf8_decode_utf8;

    reveal_strlit(".html");
    reveal_strlit(".md");
    let er = encode_utf8(r);
    let ee = encode_utf8(ext);
    lemma_encode_utf8_concat(r, ext);
    assert(vstd::utf8::is_ascii_chars(ext));
    vstd::utf8::is_ascii_chars_encode_utf8(ext);
    assert(ee[0] == 46);
    assert forall|k: int| 0 <= k < ee.len() implies ee[k] != 37 by {
        assert(ee[k] == ext[k] as u8);
    }
    lemma_pct_append(er, ee);
    let x = pct_decode(er);
    let xe = x + ee;
    assert(pct_decode(encode_utf8(r + ext)) == xe);
    assert(valid_utf8(xe));
    assert(xe[x.len() as int] == 46);
    vstd::utf8::is_char_boundary_iff_is_leading_byte(xe, x.len() as int);
    vstd::utf8::valid_utf8_split(xe, x.len() as int);
    vstd::utf8::decode_utf8_split(xe, x.len() as int);
    assert(xe.subrange(0, x.len() as int) == x);
    assert(xe.subrange(x.len() as int, xe.len() as int) == ee);
}

/// Plain ASCII letters decode to themselves.
pub proof fn lemma_decode_plain(r: Seq<char>)
    requires
        forall|k: int| 0 <= k < r.len() ==> 'a' <= #[trigger] r[k] <= 'z',
    ensures
        decode_segment(r) == Some(r),
{
    broadcast use vstd::utf8::encode_utf8_valid_utf8, vstd::utf8::encode_utf8_decode_utf8;

    assert(vstd::utf8::is_ascii_chars(r));
    vstd::utf8::is_ascii_chars_encode_utf8(r);
    let e = encode_utf8(r);
    assert forall|k: int| 0 <= k < e.len() implies e[k] != 37 by {
        assert(e[k] == r[k] as u8);
    }
    lemma_pct_plain(e);
}

/// A name that decodes to something walkable is taken onto the trail.
pub proof fn lemma_walk_one(trail: Seq<Seq<char>>, raw: Seq<char>, name: Seq<char>)
    requires
        raw.len() > 0,
        decode_segment(raw) == Some(name),
        name != seq!['.'],
        name != seq!['.', '.'],
        !name.contains('/'),
        !name.contains('\\'),
        !name.contains('\0'),
    ensures
        walk(trail, seq![raw]) == Some(trail.push(name)),
{
    assert(seq![raw].drop_first() == Seq::<Seq<char>>::empty());
    assert(seq![raw][0] == raw);
    assert(walk(trail.push(name), Seq::<Seq<char>>::empty()) == Some(trail.push(name)));
}

// ---------------------------------------------------------------------------
// Containment

/// A piece of a path that is a name of its own: not empty, not `.`.
pub open spec fn is_component(piece: Seq<char>) -> bool {
    piece.len() > 0 && piece != seq!['.']
}

/// The named pieces of a split path, in order.
pub open spec fn named(pieces: Seq<Seq<char>>) -> Seq<Seq<char>>
    decreases pieces.len(),
{
    if pieces.len() == 0 {
        Seq::empty()
    } else if is_component(pieces.last()) {
        named(pieces.drop_last()).push(pieces.last())
    } else {
        named(pieces.drop_last())
    }
}

/// `Path::components` on a Unix path, each component as its text: the root
/// as `/`, a leading `.` of a relative path as `.`, then every name, with
/// empty pieces and interior `.` dropped (`..` is kept).
pub open spec fn components(p: Seq<char>) -> Seq<Seq<char>> {
    let pieces = split(p, '/');
    let absolute = p.len() > 0 && p[0] == '/';
    let root: Seq<Seq<char>> = if absolute {
        seq![seq!['/']]
    } else {
        Seq::empty()
    };
    let cur: Seq<Seq<char>> = if !absolute && pieces[0] == seq!['.'] {
        seq![seq!['.']]
    } else {
        Seq::empty()
    };
    root + cur + named(pieces)
}

/// `Path::starts_with`: `base`'s components are a prefix of `path`'s.
pub open spec fn path_starts_with(path: Seq<char>, base: Seq<char>) -> bool {
    let a = components(path);
    let b = components(base);
    b.len() <= a.len() && a.subrange(0, b.len() as int) == b
}

/// The components of `p`, as strings.
pub fn components_of(p: &str) -> (r: Vec<String>)
    ensures
        r@.map_values(|s: String| s@) == components(p@),
{
    let v = chars_of(p);
    let n = v.len();
    assert(v@.subrange(0, n as int) == p@);
    let pieces = split_bounds(&v, 0, n, '/');
    let ghost all = split(v@, '/');
    let mut out: Vec<String> = Vec::new();
    let absolute = n > 0 && v[0] == '/';
    if absolute {
        let mut r = String::new();
        push_char(&mut r, '/');
        out.push(r);
    }
    let (a0, b0) = pieces[0];
    assert(pieces@[0] == (a0, b0));
    if !absolute && range_eq(&v, a0, b0, ".") {
        let mut c = String::new();
        push_char(&mut c, '.');
        out.push(c);
    }
    proof {
        reveal_strlit(".");
        assert("."@ == seq!['.']);
    }
    let ghost head = out@.map_values(|s: String| s@);
    assert(head == (if absolute { seq![seq!['/']] } else { Seq::<Seq<char>>::empty() }) + (if !absolute
        && all[0] == seq!['.'] { seq![seq!['.']] } else { Seq::<Seq<char>>::empty() }));
    let mut i: usize = 0;
    assert(all.subrange(0, 0) == Seq::<Seq<char>>::empty());
    while i < pieces.len()
        invariant
            v@ == p@,
            n == v.len(),
            pieces.len() == all.len(),
            all == split(v@, '/'),
            forall|k: int|
                0 <= k < pieces.len() ==> (#[trigger] pieces@[k]).0 <= pieces@[k].1 <= n
                    && v@.subrange(pieces@[k].0 as int, pieces@[k].1 as int) == all[k],
            i <= pieces.len(),
            "."@ == seq!['.'],
            out@.map_values(|s: String| s@) == head + named(all.subrange(0, i as int)),
        decreases pieces.len() - i,
    {
        let (a, b) = pieces[i];
        assert(pieces@[i as int] == (a, b));
        let ghost before = out@.map_values(|s: String| s@);
        assert(all.subrange(0, i + 1).drop_last() == all.subrange(0, i as int));
        assert(all.subrange(0, i + 1).last() == all[i as int]);
        if a < b && !range_eq(&v, a, b, ".") {
            let name = string_of_range(&v, a, b);
            out.push(name);
            assert(out@.map_values(|s: String| s@) == before.push(all[i as int]));
        } else {
            assert(!is_component(all[i as int]));
        }
        i += 1;
    }
    assert(all.subrange(0, all.len() as int) == all);
    out
}

/// Second line of defence: a symlink inside the root may still point
/// outside it. `canonical` is the canonical form of the path, or `None` when it
/// could not be canonicalised — not yet on disk, so `resolve` is the only
/// guarantee needed.
pub fn is_within(root: &str, canonical: Option<&str>) -> (r: bool)
    ensures
        r == (match canonical {
            Some(p) => path_starts_with(p@, root@),
            None => true,
        }),
{
    let p = match canonical {
        Some(p) => p,
        None => return true,
    };
    let a = components_of(p);
    let b = components_of(root);
    let ghost av = a@.map_values(|s: String| s@);
    let ghost bv = b@.map_values(|s: String| s@);
    if b.len() > a.len() {
        return false;
    }
    let mut i: usize = 0;
    while i < b.len()
        invariant
            b.len() <= a.len(),
            av == a@.map_values(|s: String| s@),
            bv == b@.map_values(|s: String| s@),
            av == components(p@),
            bv == components(root@),
            canonical == Some(p),
            i <= b.len(),
            forall|k: int| 0 <= k < i ==> av[k] == bv[k],
        decreases b.len() - i,
    {
        let ai = chars_of(a[i].as_str());
        let bi = b[i].as_str();
        assert(av[i as int] == a@[i as int]@);
        assert(bv[i as int] == b@[i as int]@);
        if !range_eq(&ai, 0, ai.len(), bi) {
            assert(ai@.subrange(0, ai.len() as int) == ai@);
            assert(av.subrange(0, bv.len() as int)[i as int] != bv[i as int]);
            return false;
        }
        assert(ai@.subrange(0, ai.len() as int) == ai@);
        i += 1;
    }
    assert(av.subrange(0, bv.len() as int) == bv);
    true
}

/// A path is always within itself: the root, canonicalised, passes its own
/// check.
pub proof fn the_root_is_within_itself(root: Seq<char>)
    ensures
        path_starts_with(root, root),
{
    assert(components(root).subrange(0, components(root).len() as int) == components(root));
}

} // verus!
