//! The directory index: a folder presented as the contents page of a book.

use vstd::prelude::*;
use vstd::utf8::{encode_scalar, encode_utf8};

use crate::pages::icons::{spec_icon, spec_kind_of, Kind};
use crate::pages::{
    escape_into, html_escape, human_size, human_time, spec_human_size, spec_human_time,
    FAVICON, LAST_DATE, STYLE,
};
use crate::serve::{file_name, file_name_of};
use crate::path::{
    decode_segment, hex_val, is_name, join_all, lemma_split_dir_then_name, lemma_walk_concat,
    pct_decode, push_name, spec_resolve, walk,
};
use crate::text::{
    chars_of, dec, push_char, push_dec, push_range, push_str, split, split_bounds,
    string_of_range,
};

verus! {

/// One link of the trail from the served root down to a directory.
pub struct Crumb {
    pub label: String,
    pub href: String,
}

pub struct CrumbView {
    pub label: Seq<char>,
    pub href: Seq<char>,
}

impl View for Crumb {
    type V = CrumbView;

    open spec fn view(&self) -> CrumbView {
        CrumbView { label: self.label@, href: self.href@ }
    }
}

/// The non-empty pieces of a split path, in order.
pub open spec fn nonempty(pieces: Seq<Seq<char>>) -> Seq<Seq<char>>
    decreases pieces.len(),
{
    if pieces.len() == 0 {
        Seq::empty()
    } else if pieces.last().len() > 0 {
        nonempty(pieces.drop_last()).push(pieces.last())
    } else {
        nonempty(pieces.drop_last())
    }
}

/// `/` followed by each of `segs` with a `/` after it.
pub open spec fn trail_href(segs: Seq<Seq<char>>) -> Seq<char>
    decreases segs.len(),
{
    if segs.len() == 0 {
        seq!['/']
    } else {
        trail_href(segs.drop_last()) + segs.last() + seq!['/']
    }
}

/// The trail to `url_path`: a first crumb wearing the served folder's own name
/// (a bare slash when it has none), then one crumb per segment, each linking
/// to the directory it names.
pub open spec fn spec_crumbs(url_path: Seq<char>, root: Seq<char>) -> Seq<CrumbView> {
    let segs = nonempty(split(url_path, '/'));
    let first = CrumbView {
        label: match file_name(root) {
            Some(n) => n + seq!['/'],
            None => seq!['/'],
        },
        href: seq!['/'],
    };
    seq![first] + Seq::new(
        segs.len(),
        |k: int| CrumbView { label: segs[k] + seq!['/'], href: trail_href(segs.take(k + 1)) },
    )
}

proof fn lemma_trail_href_ends(segs: Seq<Seq<char>>)
    ensures
        trail_href(segs).len() > 0,
        trail_href(segs)[0] == '/',
        trail_href(segs).last() == '/',
    decreases segs.len(),
{
    if segs.len() > 0 {
        lemma_trail_href_ends(segs.drop_last());
        let t = trail_href(segs.drop_last()) + segs.last() + seq!['/'];
        assert(t[0] == trail_href(segs.drop_last())[0]);
    }
}

/// Every crumb points at a directory a browser can follow from anywhere in
/// the tree: its link starts and ends with `/`.
pub proof fn crumb_links_are_absolute_and_end_in_a_slash(url_path: Seq<char>, root: Seq<char>, k: int)
    requires
        0 <= k < spec_crumbs(url_path, root).len(),
    ensures
        spec_crumbs(url_path, root)[k].href.len() > 0,
        spec_crumbs(url_path, root)[k].href[0] == '/',
        spec_crumbs(url_path, root)[k].href.last() == '/',
{
    let segs = nonempty(split(url_path, '/'));
    if k > 0 {
        lemma_trail_href_ends(segs.take(k));
    }
}

pub open spec fn crumb_views(c: Seq<Crumb>) -> Seq<CrumbView> {
    c.map_values(|x: Crumb| x@)
}

/// The trail from the served folder down to `url_path`.
pub fn crumbs(url_path: &str, root: &str) -> (r: Vec<Crumb>)
    ensures
        crumb_views(r@) == spec_crumbs(url_path@, root@),
{
    let fname = file_name_of(root);
    let mut label = match fname {
        Some(n) => n,
        None => String::new(),
    };
    push_char(&mut label, '/');
    assert(label@ == match file_name(root@) {
        Some(n) => n + seq!['/'],
        None => seq!['/'],
    });
    let mut first_href = String::new();
    push_char(&mut first_href, '/');
    let mut out: Vec<Crumb> = Vec::new();
    out.push(Crumb { label, href: first_href });
    assert(crumb_views(out@)[0] == out@[0]@);
    assert(spec_crumbs(url_path@, root@)[0] == out@[0]@);
    let v = chars_of(url_path);
    let n = v.len();
    assert(v@.subrange(0, n as int) == url_path@);
    let pieces = split_bounds(&v, 0, n, '/');
    let ghost all = split(v@, '/');
    let mut href = String::new();
    push_char(&mut href, '/');
    let mut i: usize = 0;
    assert(all.subrange(0, 0) == Seq::<Seq<char>>::empty());
    while i < pieces.len()
        invariant
            v@ == url_path@,
            n == v.len(),
            pieces.len() == all.len(),
            all == split(v@, '/'),
            forall|k: int|
                0 <= k < pieces.len() ==> (#[trigger] pieces@[k]).0 <= pieces@[k].1 <= n
                    && v@.subrange(pieces@[k].0 as int, pieces@[k].1 as int) == all[k],
            i <= pieces.len(),
            out.len() == 1 + nonempty(all.subrange(0, i as int)).len(),
            crumb_views(out@)[0] == spec_crumbs(url_path@, root@)[0],
            forall|k: int|
                0 <= k < nonempty(all.subrange(0, i as int)).len() ==> crumb_views(out@)[k + 1]
                    == (CrumbView {
                    label: nonempty(all.subrange(0, i as int))[k] + seq!['/'],
                    href: trail_href(nonempty(all.subrange(0, i as int)).take(k + 1)),
                }),
            href@ == trail_href(nonempty(all.subrange(0, i as int))),
        decreases pieces.len() - i,
    {
        let (a, b) = pieces[i];
        assert(pieces@[i as int] == (a, b));
        let ghost segs = nonempty(all.subrange(0, i as int));
        assert(all.subrange(0, i + 1).drop_last() == all.subrange(0, i as int));
        assert(all.subrange(0, i + 1).last() == all[i as int]);
        if a < b {
            let ghost old_out = out@;
            push_range(&mut href, &v, a, b);
            push_char(&mut href, '/');
            let mut lab = string_of_range(&v, a, b);
            push_char(&mut lab, '/');
            let mut h = String::new();
            push_str(&mut h, href.as_str());
            out.push(Crumb { label: lab, href: h });
            proof {
                let segs2 = nonempty(all.subrange(0, i + 1));
                assert(segs2 == segs.push(all[i as int]));
                assert(segs2.take(segs2.len() as int) == segs2);
                assert forall|k: int| 0 <= k < segs2.len() implies crumb_views(out@)[k + 1] == (
                CrumbView {
                    label: segs2[k] + seq!['/'],
                    href: trail_href(segs2.take(k + 1)),
                }) by {
                    if k < segs.len() {
                        assert(segs2[k] == segs[k]);
                        assert(segs2.take(k + 1) == segs.take(k + 1));
                        assert(crumb_views(out@)[k + 1] == crumb_views(old_out)[k + 1]);
                    } else {
                        assert(k == segs.len());
                        assert(segs2.take(k + 1) == segs2);
                        assert(segs2.drop_last() == segs);
                        assert(segs2.last() == all[i as int]);
                        assert(segs2[k] == all[i as int]);
                        assert(crumb_views(out@)[k + 1] == out@[k + 1]@);
                        assert(out@[k + 1].label@ == all[i as int] + seq!['/']);
                        assert(out@[k + 1].href@ == trail_href(segs) + all[i as int] + seq!['/']);
                    }
                }
                assert(crumb_views(out@)[0] == crumb_views(old_out)[0]);
            }
        }
        i += 1;
    }
    proof {
        assert(all.subrange(0, all.len() as int) == all);
        let segs = nonempty(all);
        let spec = spec_crumbs(url_path@, root@);
        assert(crumb_views(out@).len() == spec.len());
        assert forall|k: int| 0 <= k < spec.len() implies crumb_views(out@)[k] == spec[k] by {
            if k > 0 {
                assert(crumb_views(out@)[(k - 1) + 1] == spec[k]);
            }
        }
        assert(crumb_views(out@) == spec);
    }
    out
}

// ---------------------------------------------------------------------------
// A name as a link

/// Bytes a URL path segment cannot carry as they are: the controls, the space,
/// `" # % / < > ? \ ^ ` { | }`, and every byte outside ASCII.
pub open spec fn must_escape(b: u8) -> bool {
    ||| b < 0x20
    ||| b >= 0x7f
    ||| b == 0x20 || b == 0x22 || b == 0x23 || b == 0x25 || b == 0x2f
    ||| b == 0x3c || b == 0x3e || b == 0x3f || b == 0x5c || b == 0x5e
    ||| b == 0x60 || b == 0x7b || b == 0x7c || b == 0x7d
}

/// An upper-case hex digit.
pub open spec fn upper_hex(d: nat) -> char {
    if d < 10 {
        (('0' as u32) + d) as char
    } else {
        (('A' as u32) + d - 10) as char
    }
}

/// One byte of a name as it appears in a link: itself, or `%XX`.
pub open spec fn escaped_byte(b: u8) -> Seq<char> {
    if must_escape(b) {
        seq!['%', upper_hex((b / 16) as nat), upper_hex((b % 16) as nat)]
    } else {
        seq![b as char]
    }
}

pub open spec fn encode_bytes(bytes: Seq<u8>) -> Seq<char>
    decreases bytes.len(),
{
    if bytes.len() == 0 {
        Seq::empty()
    } else {
        encode_bytes(bytes.drop_last()) + escaped_byte(bytes.last())
    }
}

/// A file name made safe to use as one segment of a URL path: its UTF-8
/// bytes, each kept or percent-encoded.
pub open spec fn spec_encode(name: Seq<char>) -> Seq<char> {
    encode_bytes(encode_utf8(name))
}

/// The bytes of text made of ASCII characters only.
pub open spec fn ascii_bytes(cs: Seq<char>) -> Seq<u8> {
    cs.map_values(|c: char| c as u8)
}

/// A character a link can carry as it is: ASCII, and not a separator.
pub open spec fn link_safe(c: char) -> bool {
    '\0' <= c <= '\u{7f}' && c != '/'
}

proof fn lemma_escaped_byte_safe(b: u8)
    ensures
        escaped_byte(b).len() >= 1,
        forall|k: int| 0 <= k < escaped_byte(b).len() ==> link_safe(#[trigger] escaped_byte(b)[k]),
{
}

proof fn lemma_encode_bytes_safe(bytes: Seq<u8>)
    ensures
        encode_bytes(bytes).len() >= bytes.len(),
        forall|k: int|
            0 <= k < encode_bytes(bytes).len() ==> link_safe(#[trigger] encode_bytes(bytes)[k]),
    decreases bytes.len(),
{
    if bytes.len() > 0 {
        lemma_encode_bytes_safe(bytes.drop_last());
        lemma_escaped_byte_safe(bytes.last());
        let a = encode_bytes(bytes.drop_last());
        let e = escaped_byte(bytes.last());
        assert forall|k: int| 0 <= k < (a + e).len() implies link_safe(#[trigger] (a + e)[k]) by {
            if k < a.len() {
                assert((a + e)[k] == a[k]);
            } else {
                assert((a + e)[k] == e[k - a.len()]);
            }
        }
    }
}

proof fn lemma_encode_bytes_front(bytes: Seq<u8>)
    requires
        bytes.len() > 0,
    ensures
        encode_bytes(bytes) == escaped_byte(bytes[0]) + encode_bytes(bytes.drop_first()),
    decreases bytes.len(),
{
    if bytes.len() == 1 {
        assert(bytes.drop_last() == Seq::<u8>::empty());
        assert(bytes.drop_first() == Seq::<u8>::empty());
    } else {
        lemma_encode_bytes_front(bytes.drop_last());
        assert(bytes.drop_last().drop_first() == bytes.drop_first().drop_last());
        assert(bytes.drop_last()[0] == bytes[0]);
        assert(bytes.drop_first().last() == bytes.last());
    }
}

proof fn lemma_hex_round_trip(d: nat)
    requires
        d < 16,
    ensures
        hex_val(upper_hex(d) as u8) == Some(d as u8),
{
}

proof fn lemma_ascii_bytes_add(a: Seq<char>, b: Seq<char>)
    ensures
        ascii_bytes(a + b) == ascii_bytes(a) + ascii_bytes(b),
{
    assert(ascii_bytes(a + b) =~= ascii_bytes(a) + ascii_bytes(b));
}

/// Decoding an encoded name gives its bytes back.
proof fn lemma_decode_encoded(bytes: Seq<u8>)
    ensures
        pct_decode(ascii_bytes(encode_bytes(bytes))) == bytes,
    decreases bytes.len(),
{
    if bytes.len() == 0 {
        assert(ascii_bytes(encode_bytes(bytes)) =~= Seq::<u8>::empty());
    } else {
        let b = bytes[0];
        let rest = bytes.drop_first();
        lemma_encode_bytes_front(bytes);
        lemma_decode_encoded(rest);
        lemma_ascii_bytes_add(escaped_byte(b), encode_bytes(rest));
        let tail = ascii_bytes(encode_bytes(rest));
        let all = ascii_bytes(escaped_byte(b)) + tail;
        if must_escape(b) {
            lemma_hex_round_trip((b / 16) as nat);
            lemma_hex_round_trip((b % 16) as nat);
            assert(all[0] == 37);
            assert(all[1] == upper_hex((b / 16) as nat) as u8);
            assert(all[2] == upper_hex((b % 16) as nat) as u8);
            assert(all.subrange(3, all.len() as int) == tail);
            assert(((b / 16) * 16 + b % 16) as u8 == b);
            assert(pct_decode(all) == seq![b] + pct_decode(tail));
        } else {
            assert(all[0] == b);
            assert(all.drop_first() == tail);
            assert(pct_decode(all) == seq![b] + pct_decode(tail));
        }
        assert(bytes == seq![b] + rest);
    }
}

proof fn lemma_utf8_nonempty(cs: Seq<char>)
    requires
        cs.len() > 0,
    ensures
        encode_utf8(cs).len() > 0,
{
    assert(encode_utf8(cs) == encode_scalar(cs[0] as u32) + encode_utf8(cs.drop_first()));
}

/// The link the index draws for an entry leads back to that entry: below a
/// directory's address, the encoded name resolves to the entry's own path in
/// that directory. A name with a backslash or a NUL in it is left out:
/// resolving refuses those wherever they come from.
pub proof fn a_listed_name_resolves_to_itself(
    root: Seq<char>,
    url_path: Seq<char>,
    dir: Seq<char>,
    name: Seq<char>,
)
    requires
        is_name(name),
        url_path.len() > 0,
        url_path.last() == '/',
        spec_resolve(root, url_path) == Some(dir),
    ensures
        spec_resolve(root, url_path + spec_encode(name)) == Some(push_name(dir, name)),
{
    broadcast use vstd::utf8::encode_utf8_valid_utf8, vstd::utf8::encode_utf8_decode_utf8;

    let bytes = encode_utf8(name);
    let enc = spec_encode(name);
    lemma_utf8_nonempty(name);
    lemma_encode_bytes_safe(bytes);
    // The encoded name is ASCII, so its UTF-8 is itself.
    assert(vstd::utf8::is_ascii_chars(enc)) by {
        assert forall|k: int| 0 <= k < enc.len() implies '\0' <= #[trigger] enc[k] <= '\u{7f}' by {
            assert(link_safe(enc[k]));
        }
    }
    vstd::utf8::is_ascii_chars_encode_utf8(enc);
    assert(encode_utf8(enc) =~= ascii_bytes(enc));
    lemma_decode_encoded(bytes);
    assert(decode_segment(enc) == Some(name));
    assert forall|k: int| 0 <= k < enc.len() implies enc[k] != '/' by {
        assert(link_safe(enc[k]));
    }
    // The directory's pieces, then the name.
    lemma_split_dir_then_name(url_path, enc);
    let pieces = split(url_path, '/');
    let front = pieces.drop_last();
    assert(pieces == front + seq![Seq::<char>::empty()]);
    lemma_walk_concat(Seq::empty(), front, seq![Seq::<char>::empty()]);
    lemma_walk_concat(Seq::empty(), front, seq![enc]);
    let trail = walk(Seq::empty(), front)->0;
    assert(seq![Seq::<char>::empty()].drop_first() == Seq::<Seq<char>>::empty());
    assert(walk(trail, Seq::<Seq<char>>::empty()) == Some(trail));
    assert(seq![Seq::<char>::empty()][0].len() == 0);
    assert(walk(trail, seq![Seq::<char>::empty()]) == Some(trail));
    assert(dir == join_all(root, trail));
    assert(seq![enc].drop_first() == Seq::<Seq<char>>::empty());
    assert(walk(trail, seq![enc]) == walk(trail.push(name), Seq::empty()));
    assert(trail.push(name).drop_last() == trail);
    assert(join_all(root, trail.push(name)) == push_name(dir, name));
}

fn upper_hex_char(d: u8) -> (c: char)
    requires
        d < 16,
    ensures
        c == upper_hex(d as nat),
{
    if d < 10 {
        let u: u8 = 48u8 + d;
        u as char
    } else {
        let u: u8 = 55u8 + d;
        u as char
    }
}

fn escapes(b: u8) -> (r: bool)
    ensures
        r == must_escape(b),
{
    b < 0x20 || b >= 0x7f || b == 0x20 || b == 0x22 || b == 0x23 || b == 0x25 || b == 0x2f
        || b == 0x3c || b == 0x3e || b == 0x3f || b == 0x5c || b == 0x5e || b == 0x60 || b
        == 0x7b || b == 0x7c || b == 0x7d
}

/// Percent-encode a file name for use as a single URL path segment.
pub fn encode(name: &str) -> (r: String)
    ensures
        r@ == spec_encode(name@),
{
    let bytes = name.as_bytes_vec();
    let mut out = String::new();
    let mut i: usize = 0;
    while i < bytes.len()
        invariant
            bytes@ == encode_utf8(name@),
            i <= bytes.len(),
            out@ == encode_bytes(bytes@.take(i as int)),
        decreases bytes.len() - i,
    {
        let b = bytes[i];
        assert(bytes@.take(i + 1).drop_last() == bytes@.take(i as int));
        if escapes(b) {
            push_char(&mut out, '%');
            push_char(&mut out, upper_hex_char(b / 16));
            push_char(&mut out, upper_hex_char(b % 16));
        } else {
            push_char(&mut out, b as char);
        }
        i += 1;
    }
    assert(bytes@.take(bytes.len() as int) == bytes@);
    out
}


// ---------------------------------------------------------------------------
// Entries

/// One item of a directory as the file system reported it.
pub struct RawEntry {
    /// The name on disk.
    pub name: String,
    pub is_dir: bool,
    /// Length in bytes.
    pub len: u64,
    /// Modification time in whole seconds after the epoch, when it could be read.
    pub modified: Option<u64>,
}

pub struct RawView {
    pub name: Seq<char>,
    pub is_dir: bool,
    pub len: u64,
    pub modified: Option<u64>,
}

impl View for RawEntry {
    type V = RawView;

    open spec fn view(&self) -> RawView {
        RawView { name: self.name@, is_dir: self.is_dir, len: self.len, modified: self.modified }
    }
}

/// One row of the index.
pub struct Entry {
    /// The name as shown: a folder's ends in `/`.
    pub name: String,
    /// The link, percent-encoded; a folder's ends in `/`.
    pub href: String,
    pub is_dir: bool,
    pub kind: Kind,
    /// Human-readable size; empty for a folder.
    pub size: String,
    /// Modification time; empty when it is not known.
    pub modified: String,
}

pub struct EntryView {
    pub name: Seq<char>,
    pub href: Seq<char>,
    pub is_dir: bool,
    pub kind: Kind,
    pub size: Seq<char>,
    pub modified: Seq<char>,
}

impl View for Entry {
    type V = EntryView;

    open spec fn view(&self) -> EntryView {
        EntryView {
            name: self.name@,
            href: self.href@,
            is_dir: self.is_dir,
            kind: self.kind,
            size: self.size@,
            modified: self.modified@,
        }
    }
}

impl Entry {
    /// The mark drawn beside this entry.
    pub fn icon(&self) -> (r: &'static str)
        ensures
            r@ == spec_icon(self.kind),
    {
        self.kind.icon()
    }
}

/// A time the listing can print: httpdate stops at the year 10000.
pub open spec fn printable(raw: RawView) -> bool {
    match raw.modified {
        Some(secs) => secs < LAST_DATE,
        None => true,
    }
}

/// The row for one item: a folder's name and link gain a `/`, its size stays
/// empty and it is drawn as a folder; a file is drawn by its extension and
/// its size is spelled out. The link is the encoded name.
pub open spec fn spec_entry(raw: RawView) -> EntryView {
    EntryView {
        name: if raw.is_dir { raw.name + seq!['/'] } else { raw.name },
        href: if raw.is_dir { spec_encode(raw.name) + seq!['/'] } else { spec_encode(raw.name) },
        is_dir: raw.is_dir,
        kind: if raw.is_dir { Kind::Folder } else { spec_kind_of(raw.name) },
        size: if raw.is_dir { Seq::empty() } else { spec_human_size(raw.len as nat) },
        modified: match raw.modified {
            Some(secs) => spec_human_time(secs),
            None => Seq::empty(),
        },
    }
}

fn entry_of(raw: &RawEntry) -> (r: Entry)
    requires
        printable(raw@),
    ensures
        r@ == spec_entry(raw@),
{
    let mut name = String::new();
    push_str(&mut name, raw.name.as_str());
    let mut href = encode(raw.name.as_str());
    let kind;
    let size;
    if raw.is_dir {
        push_char(&mut name, '/');
        push_char(&mut href, '/');
        kind = Kind::Folder;
        size = String::new();
    } else {
        kind = Kind::of(raw.name.as_str());
        size = human_size(raw.len);
    }
    let modified = match raw.modified {
        Some(secs) => human_time(secs),
        None => String::new(),
    };
    let r = Entry { name, href, is_dir: raw.is_dir, kind, size, modified };
    let ghost want = spec_entry(raw@);
    assert(r@.name == want.name);
    assert(r@.href == want.href);
    assert(r@.size == want.size);
    assert(r@.modified == want.modified);
    r
}

// ---------------------------------------------------------------------------
// Order

/// Plain string order: character by character by code point, a prefix first.
/// On UTF-8 text this is the order of the bytes too.
pub open spec fn lex_le(a: Seq<char>, b: Seq<char>) -> bool
    decreases a.len(),
{
    if a.len() == 0 {
        true
    } else if b.len() == 0 {
        false
    } else if a[0] != b[0] {
        a[0] < b[0]
    } else {
        lex_le(a.drop_first(), b.drop_first())
    }
}

pub proof fn lemma_lex_total(a: Seq<char>, b: Seq<char>)
    ensures
        lex_le(a, b) || lex_le(b, a),
    decreases a.len(),
{
    if a.len() > 0 && b.len() > 0 && a[0] == b[0] {
        lemma_lex_total(a.drop_first(), b.drop_first());
    }
}

pub proof fn lemma_lex_transitive(a: Seq<char>, b: Seq<char>, c: Seq<char>)
    requires
        lex_le(a, b),
        lex_le(b, c),
    ensures
        lex_le(a, c),
    decreases a.len(),
{
    if a.len() > 0 && b.len() > 0 && c.len() > 0 && a[0] == b[0] && b[0] == c[0] {
        lemma_lex_transitive(a.drop_first(), b.drop_first(), c.drop_first());
    }
}

/// Folders first, then files; within each, plain string order of the name.
pub open spec fn listed_before(a: EntryView, b: EntryView) -> bool {
    (a.is_dir && !b.is_dir) || (a.is_dir == b.is_dir && lex_le(a.name, b.name))
}

pub open spec fn entry_views(s: Seq<Entry>) -> Seq<EntryView> {
    s.map_values(|e: Entry| e@)
}

proof fn lemma_listed_total(a: EntryView, b: EntryView)
    ensures
        listed_before(a, b) || listed_before(b, a),
{
    lemma_lex_total(a.name, b.name);
}

proof fn lemma_listed_transitive(a: EntryView, b: EntryView, c: EntryView)
    requires
        listed_before(a, b),
        listed_before(b, c),
    ensures
        listed_before(a, c),
{
    if a.is_dir == b.is_dir && b.is_dir == c.is_dir {
        lemma_lex_transitive(a.name, b.name, c.name);
    }
}

fn name_le(a: &Vec<char>, b: &Vec<char>) -> (r: bool)
    ensures
        r == lex_le(a@, b@),
{
    let mut i: usize = 0;
    assert(a@.skip(0) == a@);
    assert(b@.skip(0) == b@);
    while i < a.len() && i < b.len() && a[i] == b[i]
        invariant
            i <= a.len(),
            i <= b.len(),
            lex_le(a@, b@) == lex_le(a@.skip(i as int), b@.skip(i as int)),
        decreases a.len() - i,
    {
        assert(a@.skip(i as int).drop_first() == a@.skip(i + 1));
        assert(b@.skip(i as int).drop_first() == b@.skip(i + 1));
        i += 1;
    }
    if i == a.len() {
        true
    } else if i == b.len() {
        false
    } else {
        a[i] < b[i]
    }
}

fn listed_before_exec(a: &Entry, b: &Entry) -> (r: bool)
    ensures
        r == listed_before(a@, b@),
{
    if a.is_dir != b.is_dir {
        a.is_dir
    } else {
        let x = chars_of(a.name.as_str());
        let y = chars_of(b.name.as_str());
        name_le(&x, &y)
    }
}


/// Every pair of rows is in listing order.
pub open spec fn in_listing_order(s: Seq<EntryView>) -> bool {
    forall|i: int, j: int| 0 <= i < j < s.len() ==> #[trigger] listed_before(s[i], s[j])
}

/// The row each item of a directory becomes, in the order they were read.
pub open spec fn raw_rows(raws: Seq<RawEntry>) -> Seq<EntryView> {
    raws.map_values(|r: RawEntry| spec_entry(r@))
}

/// Inserting `x` after every row listed no later than it keeps the order.
proof fn lemma_insert_in_order(s: Seq<EntryView>, p: int, x: EntryView)
    requires
        in_listing_order(s),
        0 <= p <= s.len(),
        p > 0 ==> listed_before(s[p - 1], x),
        forall|j: int| p <= j < s.len() ==> !listed_before(#[trigger] s[j], x),
    ensures
        in_listing_order(s.insert(p, x)),
{
    let t = s.insert(p, x);
    assert forall|i: int, j: int| 0 <= i < j < t.len() implies #[trigger] listed_before(
        t[i],
        t[j],
    ) by {
        if j < p {
            assert(listed_before(s[i], s[j]));
        } else if j == p {
            if i < p - 1 {
                assert(listed_before(s[i], s[p - 1]));
                lemma_listed_transitive(s[i], s[p - 1], x);
            }
        } else if i < p {
            assert(listed_before(s[i], s[j - 1]));
        } else if i == p {
            assert(!listed_before(s[j - 1], x));
            lemma_listed_total(s[j - 1], x);
        } else {
            assert(listed_before(s[i - 1], s[j - 1]));
        }
    }
}

/// The rows of a directory, folders first and each group in name order.
fn sorted_entries(raws: &Vec<RawEntry>) -> (r: Vec<Entry>)
    requires
        forall|k: int| 0 <= k < raws.len() ==> printable(#[trigger] raws@[k]@),
    ensures
        in_listing_order(entry_views(r@)),
        entry_views(r@).to_multiset() == raw_rows(raws@).to_multiset(),
{
    broadcast use vstd::seq_lib::to_multiset_build, vstd::seq_lib::to_multiset_insert;

    let mut out: Vec<Entry> = Vec::new();
    let mut i: usize = 0;
    assert(raw_rows(raws@).take(0) == Seq::<EntryView>::empty());
    assert(entry_views(out@) == Seq::<EntryView>::empty());
    while i < raws.len()
        invariant
            i <= raws.len(),
            forall|k: int| 0 <= k < raws.len() ==> printable(#[trigger] raws@[k]@),
            in_listing_order(entry_views(out@)),
            entry_views(out@).to_multiset() == raw_rows(raws@).take(i as int).to_multiset(),
        decreases raws.len() - i,
    {
        assert(printable(raws@[i as int]@));
        let e = entry_of(&raws[i]);
        let mut p = out.len();
        while p > 0 && !listed_before_exec(&out[p - 1], &e)
            invariant
                p <= out.len(),
                forall|j: int|
                    p <= j < out.len() ==> !listed_before(#[trigger] entry_views(out@)[j], e@),
            decreases p,
        {
            p -= 1;
        }
        let ghost before = entry_views(out@);
        let ghost x = e@;
        proof {
            lemma_insert_in_order(before, p as int, x);
        }
        out.insert(p, e);
        assert(entry_views(out@) == before.insert(p as int, x));
        assert(raw_rows(raws@).take(i + 1) == raw_rows(raws@).take(i as int).push(x));
        proof {
            vstd::seq_lib::to_multiset_insert(before, p as int, x);
            vstd::seq_lib::to_multiset_build(raw_rows(raws@).take(i as int), x);
        }
        i += 1;
    }
    assert(raw_rows(raws@).take(raws.len() as int) == raw_rows(raws@));
    out
}

// ---------------------------------------------------------------------------
// The index

/// The directory index: a folder presented as the contents page of a book.
pub struct Listing {
    /// Trail of links from the served root down to this directory.
    pub crumbs: Vec<Crumb>,
    /// `None` at the root, where there is nowhere to go up to.
    pub parent: Option<String>,
    pub entries: Vec<Entry>,
    /// Absolute path of the served directory, for the colophon.
    pub root: String,
}

pub open spec fn opt_chars(o: Option<String>) -> Option<Seq<char>> {
    match o {
        Some(s) => Some(s@),
        None => None,
    }
}

/// Where "up" goes from `url_path`: nowhere from the root, else `../`.
pub open spec fn spec_parent(url_path: Seq<char>) -> Option<Seq<char>> {
    if url_path == seq!['/'] {
        None
    } else {
        Some(seq!['.', '.', '/'])
    }
}

/// Build the index of a directory from what was read of it: folders first,
/// then files, each in name order, under the trail to `url_path`.
pub fn build(raws: Vec<RawEntry>, url_path: &str, root: &str) -> (r: Listing)
    requires
        forall|k: int| 0 <= k < raws.len() ==> printable(#[trigger] raws@[k]@),
    ensures
        crumb_views(r.crumbs@) == spec_crumbs(url_path@, root@),
        opt_chars(r.parent) == spec_parent(url_path@),
        in_listing_order(entry_views(r.entries@)),
        entry_views(r.entries@).to_multiset() == raw_rows(raws@).to_multiset(),
        r.root@ == root@,
{
    let entries = sorted_entries(&raws);
    let at_root = url_path.unicode_len() == 1 && url_path.get_char(0) == '/';
    proof {
        if at_root {
            assert(url_path@ =~= seq!['/']);
        }
    }
    let parent = if at_root {
        None
    } else {
        let mut up = String::new();
        push_char(&mut up, '.');
        push_char(&mut up, '.');
        push_char(&mut up, '/');
        Some(up)
    };
    let mut shown = String::new();
    push_str(&mut shown, root);
    Listing { crumbs: crumbs(url_path, root), parent, entries, root: shown }
}

/// How many of the rows are folders.
pub open spec fn count_dirs(s: Seq<EntryView>) -> nat
    decreases s.len(),
{
    if s.len() == 0 {
        0
    } else {
        count_dirs(s.drop_last()) + if s.last().is_dir { 1nat } else { 0nat }
    }
}

proof fn lemma_count_dirs_bound(s: Seq<EntryView>)
    ensures
        count_dirs(s) <= s.len(),
    decreases s.len(),
{
    if s.len() > 0 {
        lemma_count_dirs_bound(s.drop_last());
    }
}

/// `2 folders · 1 files`.
pub open spec fn spec_tally(s: Seq<EntryView>) -> Seq<char> {
    dec(count_dirs(s)) + " folders \u{b7} "@ + dec((s.len() - count_dirs(s)) as nat) + " files"@
}

impl Listing {
    pub fn style(&self) -> (r: &'static str)
        ensures
            r == STYLE,
    {
        STYLE
    }

    /// How many folders and files the index shows.
    pub fn tally(&self) -> (r: String)
        ensures
            r@ == spec_tally(entry_views(self.entries@)),
    {
        let ghost all = entry_views(self.entries@);
        let mut dirs: usize = 0;
        let mut i: usize = 0;
        while i < self.entries.len()
            invariant
                i <= self.entries.len(),
                all == entry_views(self.entries@),
                dirs == count_dirs(all.take(i as int)),
                dirs <= i,
            decreases self.entries.len() - i,
        {
            assert(all.take(i + 1).drop_last() == all.take(i as int));
            assert(all.take(i + 1).last() == self.entries@[i as int]@);
            if self.entries[i].is_dir {
                dirs += 1;
            }
            i += 1;
        }
        assert(all.take(all.len() as int) == all);
        let mut out = String::new();
        push_dec(&mut out, dirs as u128);
        push_str(&mut out, " folders \u{b7} ");
        push_dec(&mut out, (self.entries.len() - dirs) as u128);
        push_str(&mut out, " files");
        out
    }
}


// ---------------------------------------------------------------------------
// Drawing the index

/// The trail as links, each label escaped.
pub open spec fn trail_links(c: Seq<CrumbView>) -> Seq<char>
    decreases c.len(),
{
    if c.len() == 0 {
        Seq::empty()
    } else {
        trail_links(c.drop_last()) + "<a href=\""@ + html_escape(c.last().href) + "\">"@
            + html_escape(c.last().label) + "</a>"@
    }
}

/// The trail as plain text, for the tab.
pub open spec fn trail_text(c: Seq<CrumbView>) -> Seq<char>
    decreases c.len(),
{
    if c.len() == 0 {
        Seq::empty()
    } else {
        trail_text(c.drop_last()) + c.last().label
    }
}

/// One row of the table.
pub open spec fn row_html(e: EntryView) -> Seq<char> {
    "<tr><td class=\"icon\">"@ + spec_icon(e.kind) + "</td><td><a href=\""@ + html_escape(e.href)
        + "\">"@ + html_escape(e.name) + "</a></td><td class=\"size\">"@ + html_escape(e.size)
        + "</td><td class=\"date\">"@ + html_escape(e.modified) + "</td></tr>"@
}

pub open spec fn rows_html(s: Seq<EntryView>) -> Seq<char>
    decreases s.len(),
{
    if s.len() == 0 {
        Seq::empty()
    } else {
        rows_html(s.drop_last()) + row_html(s.last())
    }
}

/// The last three cells of a row: the size under Size, the date under
/// Modified.
pub open spec fn size_and_date_cells(size: Seq<char>, modified: Seq<char>) -> Seq<char> {
    "<td class=\"size\">"@ + html_escape(size) + "</td><td class=\"date\">"@ + html_escape(modified)
        + "</td></tr>"@
}

proof fn lemma_rows_html_append(a: Seq<EntryView>, b: Seq<EntryView>)
    ensures
        rows_html(a + b) == rows_html(a) + rows_html(b),
    decreases b.len(),
{
    if b.len() == 0 {
        assert(a + b =~= a);
        assert(rows_html(b) =~= Seq::<char>::empty());
        assert(rows_html(a) + rows_html(b) =~= rows_html(a));
    } else {
        lemma_rows_html_append(a, b.drop_last());
        assert((a + b).drop_last() =~= a + b.drop_last());
        assert((a + b).last() == b.last());
        assert(rows_html(a + b) =~= rows_html(a) + rows_html(b.drop_last()) + row_html(b.last()));
    }
}

/// A row ends in the entry's size, then its date, each in its own column.
pub proof fn a_row_ends_in_its_size_then_its_date(e: EntryView)
    ensures
        ({
            let row = row_html(e);
            let cells = size_and_date_cells(e.size, e.modified);
            cells.len() <= row.len() && row.subrange(row.len() - cells.len(), row.len() as int)
                == cells
        }),
{
    let row = row_html(e);
    let cells = size_and_date_cells(e.size, e.modified);
    let head = "<tr><td class=\"icon\">"@ + spec_icon(e.kind) + "</td><td><a href=\""@ + html_escape(
        e.href,
    ) + "\">"@ + html_escape(e.name) + "</a></td>"@;
    reveal_strlit("</a></td><td class=\"size\">");
    reveal_strlit("</a></td>");
    reveal_strlit("<td class=\"size\">");
    assert("</a></td><td class=\"size\">"@ =~= "</a></td>"@ + "<td class=\"size\">"@);
    assert(row =~= head + cells);
    assert(row.subrange(head.len() as int, row.len() as int) =~= cells);
}

/// A listed file's row shows its size spelled out, under Size, then its
/// modification time, or nothing when that is unknown, under Modified.
pub proof fn a_file_row_shows_its_size_and_its_date(raw: RawView)
    requires
        !raw.is_dir,
    ensures
        ({
            let row = row_html(spec_entry(raw));
            let date = match raw.modified {
                Some(secs) => spec_human_time(secs),
                None => Seq::empty(),
            };
            let cells = size_and_date_cells(spec_human_size(raw.len as nat), date);
            cells.len() <= row.len() && row.subrange(row.len() - cells.len(), row.len() as int)
                == cells
        }),
{
    a_row_ends_in_its_size_then_its_date(spec_entry(raw));
}

/// Every entry of a listing has its row on the page, in the order listed:
/// the page is some text before, the rows of the entries before it, this
/// entry's row, the rows after it, and some text after.
pub proof fn every_entry_has_its_row_on_the_page(l: Listing, k: int) -> (around: (
    Seq<char>,
    Seq<char>,
))
    requires
        0 <= k < l.entries.len(),
    ensures
        ({
            let all = entry_views(l.entries@);
            l.spec_render() == around.0 + rows_html(all.take(k)) + row_html(all[k]) + rows_html(
                all.skip(k + 1),
            ) + around.1
        }),
{
    let all = entry_views(l.entries@);
    let crumbs = crumb_views(l.crumbs@);
    let before = "<!doctype html><html lang=\"en\"><head><meta charset=\"utf-8\"><title>"@ + html_escape(
        trail_text(crumbs),
    ) + "</title><link rel=\"icon\" href=\""@ + html_escape(FAVICON@) + "\"><style>"@ + STYLE@
        + "</style></head><body><main><h1>Index of "@ + trail_links(crumbs)
        + "</h1><table><thead><tr><th></th><th>Name</th><th>Size</th><th>Modified</th></tr></thead><tbody>"@
        + up_row(opt_chars(l.parent));
    let after = "</tbody></table><footer>"@ + spec_tally(all) + " \u{b7} "@ + html_escape(l.root@)
        + "</footer></main></body></html>"@;
    lemma_rows_html_append(all.take(k), all.skip(k));
    assert(all.take(k) + all.skip(k) =~= all);
    let rest = all.skip(k);
    assert(rest =~= seq![all[k]] + all.skip(k + 1));
    lemma_rows_html_append(seq![all[k]], all.skip(k + 1));
    let one = seq![all[k]];
    assert(one.drop_last() =~= Seq::<EntryView>::empty());
    assert(one.last() == all[k]);
    assert(rows_html(one.drop_last()) =~= Seq::<char>::empty());
    assert(rows_html(one) =~= row_html(all[k]));
    assert(l.spec_render() =~= before + rows_html(all.take(k)) + row_html(all[k]) + rows_html(
        all.skip(k + 1),
    ) + after);
    (before, after)
}

/// The row that climbs a level, when there is one to climb.
pub open spec fn up_row(parent: Option<Seq<char>>) -> Seq<char> {
    match parent {
        Some(p) => "<tr><td class=\"icon\"></td><td><a href=\""@ + html_escape(p) + "\">"@
            + html_escape(p) + "</a></td><td class=\"size\"></td><td class=\"date\"></td></tr>"@,
        None => Seq::empty(),
    }
}

/// The page: the trail as the heading and the tab title, the table of rows
/// under the way up, and the tally and the served folder at the foot.
/// Everything taken from disk or the request is escaped.
pub open spec fn spec_listing_page(
    crumbs: Seq<CrumbView>,
    parent: Option<Seq<char>>,
    entries: Seq<EntryView>,
    root: Seq<char>,
) -> Seq<char> {
    "<!doctype html><html lang=\"en\"><head><meta charset=\"utf-8\"><title>"@ + html_escape(
        trail_text(crumbs),
    ) + "</title><link rel=\"icon\" href=\""@ + html_escape(FAVICON@) + "\"><style>"@ + STYLE@
        + "</style></head><body><main><h1>Index of "@ + trail_links(crumbs)
        + "</h1><table><thead><tr><th></th><th>Name</th><th>Size</th><th>Modified</th></tr></thead><tbody>"@
        + up_row(parent) + rows_html(entries) + "</tbody></table><footer>"@ + spec_tally(entries)
        + " \u{b7} "@ + html_escape(root) + "</footer></main></body></html>"@
}

pub(crate) fn push_trail_links(out: &mut String, c: &Vec<Crumb>)
    ensures
        final(out)@ == old(out)@ + trail_links(crumb_views(c@)),
{
    let ghost all = crumb_views(c@);
    let ghost start = out@;
    let mut i: usize = 0;
    assert(all.take(0) == Seq::<CrumbView>::empty());
    while i < c.len()
        invariant
            i <= c.len(),
            all == crumb_views(c@),
            out@ == start + trail_links(all.take(i as int)),
        decreases c.len() - i,
    {
        assert(all.take(i + 1).drop_last() == all.take(i as int));
        assert(all.take(i + 1).last() == c@[i as int]@);
        push_str(out, "<a href=\"");
        escape_into(out, c[i].href.as_str());
        push_str(out, "\">");
        escape_into(out, c[i].label.as_str());
        push_str(out, "</a>");
        i += 1;
    }
    assert(all.take(c.len() as int) == all);
}

fn trail_title(c: &Vec<Crumb>) -> (r: String)
    ensures
        r@ == trail_text(crumb_views(c@)),
{
    let ghost all = crumb_views(c@);
    let mut out = String::new();
    let mut i: usize = 0;
    assert(all.take(0) == Seq::<CrumbView>::empty());
    while i < c.len()
        invariant
            i <= c.len(),
            all == crumb_views(c@),
            out@ == trail_text(all.take(i as int)),
        decreases c.len() - i,
    {
        assert(all.take(i + 1).drop_last() == all.take(i as int));
        assert(all.take(i + 1).last() == c@[i as int]@);
        push_str(&mut out, c[i].label.as_str());
        i += 1;
    }
    assert(all.take(c.len() as int) == all);
    out
}

fn push_row(out: &mut String, e: &Entry)
    ensures
        final(out)@ == old(out)@ + row_html(e@),
{
    push_str(out, "<tr><td class=\"icon\">");
    push_str(out, e.icon());
    push_str(out, "</td><td><a href=\"");
    escape_into(out, e.href.as_str());
    push_str(out, "\">");
    escape_into(out, e.name.as_str());
    push_str(out, "</a></td><td class=\"size\">");
    escape_into(out, e.size.as_str());
    push_str(out, "</td><td class=\"date\">");
    escape_into(out, e.modified.as_str());
    push_str(out, "</td></tr>");
}

fn push_rows(out: &mut String, rows: &Vec<Entry>)
    ensures
        final(out)@ == old(out)@ + rows_html(entry_views(rows@)),
{
    let ghost all = entry_views(rows@);
    let ghost start = out@;
    let mut i: usize = 0;
    assert(all.take(0) == Seq::<EntryView>::empty());
    while i < rows.len()
        invariant
            i <= rows.len(),
            all == entry_views(rows@),
            out@ == start + rows_html(all.take(i as int)),
        decreases rows.len() - i,
    {
        assert(all.take(i + 1).drop_last() == all.take(i as int));
        assert(all.take(i + 1).last() == rows@[i as int]@);
        push_row(out, &rows[i]);
        i += 1;
    }
    assert(all.take(rows.len() as int) == all);
}

impl Listing {
    pub open spec fn spec_render(&self) -> Seq<char> {
        spec_listing_page(
            crumb_views(self.crumbs@),
            opt_chars(self.parent),
            entry_views(self.entries@),
            self.root@,
        )
    }

    /// The index as a page.
    pub fn render(&self) -> (r: String)
        ensures
            r@ == self.spec_render(),
    {
        let mut out = String::new();
        push_str(&mut out, "<!doctype html><html lang=\"en\"><head><meta charset=\"utf-8\"><title>");
        let title = trail_title(&self.crumbs);
        escape_into(&mut out, title.as_str());
        push_str(&mut out, "</title><link rel=\"icon\" href=\"");
        escape_into(&mut out, FAVICON);
        push_str(&mut out, "\"><style>");
        push_str(&mut out, STYLE);
        push_str(&mut out, "</style></head><body><main><h1>Index of ");
        push_trail_links(&mut out, &self.crumbs);
        push_str(
            &mut out,
            "</h1><table><thead><tr><th></th><th>Name</th><th>Size</th><th>Modified</th></tr></thead><tbody>",
        );
        match &self.parent {
            Some(p) => {
                push_str(&mut out, "<tr><td class=\"icon\"></td><td><a href=\"");
                escape_into(&mut out, p.as_str());
                push_str(&mut out, "\">");
                escape_into(&mut out, p.as_str());
                push_str(
                    &mut out,
                    "</a></td><td class=\"size\"></td><td class=\"date\"></td></tr>",
                );
            },
            None => {},
        }
        push_rows(&mut out, &self.entries);
        push_str(&mut out, "</tbody></table><footer>");
        let tally = self.tally();
        push_str(&mut out, tally.as_str());
        push_str(&mut out, " \u{b7} ");
        escape_into(&mut out, self.root.as_str());
        push_str(&mut out, "</footer></main></body></html>");
        out
    }
}

} // verus!
