//! Markdown, turned into the HTML that goes inside a page.
//!
//! pulldown-cmark parses and writes; serv decides in between. Each event it
//! yields is read out as an `MdEvent` — the heading, metadata, link and code
//! block markers, the text, and for everything else the event's place in the
//! stream — and the decisions (front matter dropped, headings anchored, links
//! pointed, diagrams drawn, the title found) are made on those. The writer
//! then puts the original events back in that order, with the anchors set and
//! serv's own markup in place of what it replaced.

use pulldown_cmark::CodeBlockKind::Fenced;
use pulldown_cmark::Event::{Code, End, Start, Text};
use pulldown_cmark::{Event, Tag, TagEnd};
use vstd::prelude::*;

use self::MdEvent::{
    FenceEnd, FenceStart, HeadingEnd, HeadingStart, LinkStart, MetaEnd, MetaStart, Other,
};

use crate::pages::{escape_into, html_escape};
use crate::serve::{spec_strip_suffix, strip_suffix};
use crate::text::{
    chars_of, dec, ends_with, lemma_in_base, lemma_in_base_injective, push_char, push_dec,
    push_str, range_ends_with, range_starts_with, starts_with, string_of_range,
};

verus! {

/// One parser event, as far as serv reads it. `at` is the event's index in
/// the parser's stream.
#[derive(Debug)]
pub enum MdEvent {
    /// The start of a front-matter block.
    MetaStart(usize),
    /// The end of a front-matter block.
    MetaEnd(usize),
    /// The start of a heading: its level, and the `id` it carries, if any.
    HeadingStart { level: u8, id: Option<String>, at: usize },
    /// The end of a heading.
    HeadingEnd(usize),
    /// Text.
    Text(String),
    /// Inline code.
    Code(String),
    /// The start of a link: where it points and its title.
    LinkStart { dest: String, title: String, at: usize },
    /// The start of a fenced code block, with its info string.
    FenceStart { info: String, at: usize },
    /// The end of a code block.
    FenceEnd(usize),
    /// Markup of serv's own, written as it is.
    Raw(String),
    /// Anything else, passed through untouched.
    Other(usize),
}

pub enum MdView {
    MetaStart(usize),
    MetaEnd(usize),
    HeadingStart { level: u8, id: Option<Seq<char>>, at: usize },
    HeadingEnd(usize),
    Text(Seq<char>),
    Code(Seq<char>),
    LinkStart { dest: Seq<char>, title: Seq<char>, at: usize },
    FenceStart { info: Seq<char>, at: usize },
    FenceEnd(usize),
    Raw(Seq<char>),
    Other(usize),
}

impl View for MdEvent {
    type V = MdView;

    open spec fn view(&self) -> MdView {
        match self {
            MdEvent::MetaStart(a) => MdView::MetaStart(*a),
            MdEvent::MetaEnd(a) => MdView::MetaEnd(*a),
            MdEvent::HeadingStart { level, id, at } => MdView::HeadingStart {
                level: *level,
                id: match id {
                    Some(s) => Some(s@),
                    None => None,
                },
                at: *at,
            },
            MdEvent::HeadingEnd(a) => MdView::HeadingEnd(*a),
            MdEvent::Text(t) => MdView::Text(t@),
            MdEvent::Code(t) => MdView::Code(t@),
            MdEvent::LinkStart { dest, title, at } => MdView::LinkStart {
                dest: dest@,
                title: title@,
                at: *at,
            },
            MdEvent::FenceStart { info, at } => MdView::FenceStart { info: info@, at: *at },
            MdEvent::FenceEnd(a) => MdView::FenceEnd(*a),
            MdEvent::Raw(t) => MdView::Raw(t@),
            MdEvent::Other(a) => MdView::Other(*a),
        }
    }
}

/// The parser event an `MdView` stands for, when it stands for one.
pub open spec fn at_of(e: MdView) -> Option<usize> {
    match e {
        MdView::MetaStart(a) => Some(a),
        MdView::MetaEnd(a) => Some(a),
        MdView::HeadingStart { at, .. } => Some(at),
        MdView::HeadingEnd(a) => Some(a),
        MdView::LinkStart { at, .. } => Some(at),
        MdView::FenceStart { at, .. } => Some(at),
        MdView::FenceEnd(a) => Some(a),
        MdView::Other(a) => Some(a),
        _ => None,
    }
}

impl MdEvent {
    /// The parser event this stands for, when it stands for one.
    pub fn at(&self) -> (r: Option<usize>)
        ensures
            r == at_of(self@),
    {
        match self {
            MdEvent::MetaStart(a) => Some(*a),
            MdEvent::MetaEnd(a) => Some(*a),
            MdEvent::HeadingStart { at, .. } => Some(*at),
            MdEvent::HeadingEnd(a) => Some(*a),
            MdEvent::LinkStart { at, .. } => Some(*at),
            MdEvent::FenceStart { at, .. } => Some(*at),
            MdEvent::FenceEnd(a) => Some(*a),
            MdEvent::Other(a) => Some(*a),
            _ => None,
        }
    }
}

pub open spec fn views(evs: Seq<MdEvent>) -> Seq<MdView> {
    evs.map_values(|e: MdEvent| e@)
}

/// The pulldown-cmark extensions serv turns on.
pub struct MdOptions {
    pub tables: bool,
    pub footnotes: bool,
    pub strikethrough: bool,
    pub tasklists: bool,
    pub smart_punctuation: bool,
    pub heading_attributes: bool,
    pub yaml_metadata: bool,
    pub plus_metadata: bool,
}

/// GitHub's markdown, as close as a reader expects: a README that renders there
/// should render the same here. Smart punctuation is the one addition of our
/// own — the pages are set as a printed sheet, and straight quotes look wrong.
/// Front matter is recognised so that it can be dropped.
pub open spec fn serv_options() -> MdOptions {
    MdOptions {
        tables: true,
        footnotes: true,
        strikethrough: true,
        tasklists: true,
        smart_punctuation: true,
        heading_attributes: true,
        yaml_metadata: true,
        plus_metadata: true,
    }
}

pub fn options() -> (r: MdOptions)
    ensures
        r == serv_options(),
{
    MdOptions {
        tables: true,
        footnotes: true,
        strikethrough: true,
        tasklists: true,
        smart_punctuation: true,
        heading_attributes: true,
        yaml_metadata: true,
        plus_metadata: true,
    }
}

// ---------------------------------------------------------------------------
// pulldown-cmark

/// `pulldown_cmark::Options`, declared so it can be handed to the parser;
/// nothing inside it is read.
#[verifier::external_type_specification]
#[verifier::external_body]
pub struct ExOptions(pulldown_cmark::Options);

/// `pulldown_cmark::Event`, declared so events can be handed between the
/// parser and the writer; nothing inside one is read by verified code.
#[verifier::external_type_specification]
#[verifier::external_body]
pub struct ExEvent<'a>(pulldown_cmark::Event<'a>);

/// The events pulldown-cmark yields for `source` under `opts`, read out as
/// `MdView`s.
pub uninterp spec fn md_events(source: Seq<char>, opts: MdOptions) -> Seq<MdView>;

/// The HTML pulldown-cmark writes for `events`, each standing for itself or,
/// through `at`, for the event at that place in the parse of `source` under
/// `opts`.
pub uninterp spec fn md_html(source: Seq<char>, opts: MdOptions, events: Seq<MdView>) -> Seq<
    char,
>;

/// `pulldown_cmark::Options` with exactly the extensions `o` asks for, each
/// switched by `Options::set`. A conversion only; it claims nothing.
#[verifier::external_body]
fn options_of(o: &MdOptions) -> pulldown_cmark::Options {
    let mut r = pulldown_cmark::Options::empty();
    r.set(pulldown_cmark::Options::ENABLE_TABLES, o.tables);
    r.set(pulldown_cmark::Options::ENABLE_FOOTNOTES, o.footnotes);
    r.set(pulldown_cmark::Options::ENABLE_STRIKETHROUGH, o.strikethrough);
    r.set(pulldown_cmark::Options::ENABLE_TASKLISTS, o.tasklists);
    r.set(pulldown_cmark::Options::ENABLE_SMART_PUNCTUATION, o.smart_punctuation);
    r.set(pulldown_cmark::Options::ENABLE_HEADING_ATTRIBUTES, o.heading_attributes);
    r.set(pulldown_cmark::Options::ENABLE_YAML_STYLE_METADATA_BLOCKS, o.yaml_metadata);
    r.set(pulldown_cmark::Options::ENABLE_PLUSES_DELIMITED_METADATA_BLOCKS, o.plus_metadata);
    r
}

/// A parser event read out as an `MdEvent`, `at` being its index: one arm per
/// kind serv reads (front matter, headings, text, code, links, fenced code),
/// fields moved across.
#[verifier::external_body]
fn read_event(at: usize, event: Event<'_>) -> MdEvent {
    match event {
        Start(Tag::MetadataBlock(_)) => MetaStart(at),
        End(TagEnd::MetadataBlock(_)) => MetaEnd(at),
        Start(Tag::Heading { level, id, .. }) => HeadingStart { level: level as u8, id: id.map(Into::into), at },
        End(TagEnd::Heading(_)) => HeadingEnd(at),
        Text(t) => MdEvent::Text(t.into()),
        Code(t) => MdEvent::Code(t.into()),
        Start(Tag::Link { dest_url, title, .. }) => LinkStart { dest: dest_url.into(), title: title.into(), at },
        Start(Tag::CodeBlock(Fenced(info))) => FenceStart { info: info.into(), at },
        End(TagEnd::CodeBlock) => FenceEnd(at),
        _ => Other(at),
    }
}

/// An `MdEvent` back as a parser event: text and code as written, serv's own
/// markup as inline HTML, a heading start as the original one with `id` in
/// place of its own, anything else as the original event at `at` (a soft
/// break when there is none there).
#[verifier::external_body]
fn write_event(e: &MdEvent, originals: &[Event<'static>]) -> Event<'static> {
    match (e, e.at().and_then(|i| originals.get(i))) {
        (MdEvent::Text(t), _) => Text(t.clone().into()),
        (MdEvent::Code(t), _) => Code(t.clone().into()),
        (MdEvent::Raw(t), _) => Event::InlineHtml(t.clone().into()),
        (MdEvent::HeadingStart { id, .. }, Some(Start(Tag::Heading { level, classes, attrs, .. }))) => {
            Start(Tag::Heading { level: *level, id: id.clone().map(Into::into), classes: classes.clone(), attrs: attrs.clone() })
        },
        (_, original) => original.cloned().unwrap_or(Event::SoftBreak),
    }
}

/// `pulldown_cmark::Parser::new_ext` over `source`, every event read out by
/// `read_event` with its index. Claims that the events are the ones named
/// `md_events` for this source and these options, and that each one that
/// stands for a parser event carries its own place in the stream.
#[verifier::external_body]
fn parse_events(source: &str, opts: &MdOptions) -> (r: Vec<MdEvent>)
    ensures
        views(r@) == md_events(source@, *opts),
        forall|i: int| 0 <= i < r.len() ==> (at_of(#[trigger] r@[i]@) matches Some(a) ==> a == i),
{
    pulldown_cmark::Parser::new_ext(source, options_of(opts)).enumerate().map(
        |(i, e)| read_event(i, e),
    ).collect()
}

/// `pulldown_cmark::html::push_html` over `events`, each turned back into a
/// parser event by `write_event` against a fresh parse of `source`. Claims
/// only that the HTML is the one named `md_html` for these arguments; every
/// place an event refers to must be one the parse has.
#[verifier::external_body]
fn write_html(source: &str, opts: &MdOptions, events: &Vec<MdEvent>) -> (r: String)
    requires
        forall|i: int|
            0 <= i < events.len() ==> (at_of(#[trigger] events@[i]@) matches Some(a) ==> a
                < md_events(source@, *opts).len()),
    ensures
        r@ == md_html(source@, *opts, views(events@)),
{
    let originals: Vec<pulldown_cmark::Event<'static>> = pulldown_cmark::Parser::new_ext(
        source,
        options_of(opts),
    ).map(|e| e.into_static()).collect();
    let mut out = String::new();
    pulldown_cmark::html::push_html(&mut out, events.iter().map(|e| write_event(e, &originals)));
    out
}


// ---------------------------------------------------------------------------
// Front matter

/// Front matter is configuration for some other tool: it is recognised only
/// so that it can be thrown away, markers and all, rather than printed.
pub open spec fn spec_drop_metadata(evs: Seq<MdView>, inside: bool) -> Seq<MdView>
    decreases evs.len(),
{
    if evs.len() == 0 {
        Seq::empty()
    } else {
        let rest = evs.drop_first();
        match evs[0] {
            MdView::MetaStart(_) => spec_drop_metadata(rest, true),
            MdView::MetaEnd(_) => spec_drop_metadata(rest, false),
            _ => if inside {
                spec_drop_metadata(rest, inside)
            } else {
                seq![evs[0]] + spec_drop_metadata(rest, inside)
            },
        }
    }
}

fn clone_event(e: &MdEvent) -> (r: MdEvent)
    ensures
        r@ == e@,
{
    match e {
        MdEvent::MetaStart(a) => MdEvent::MetaStart(*a),
        MdEvent::MetaEnd(a) => MdEvent::MetaEnd(*a),
        MdEvent::HeadingStart { level, id, at } => MdEvent::HeadingStart {
            level: *level,
            id: match id {
                Some(s) => Some(copy_string(s)),
                None => None,
            },
            at: *at,
        },
        MdEvent::HeadingEnd(a) => MdEvent::HeadingEnd(*a),
        MdEvent::Text(t) => MdEvent::Text(copy_string(t)),
        MdEvent::Code(t) => MdEvent::Code(copy_string(t)),
        MdEvent::LinkStart { dest, title, at } => MdEvent::LinkStart {
            dest: copy_string(dest),
            title: copy_string(title),
            at: *at,
        },
        MdEvent::FenceStart { info, at } => MdEvent::FenceStart { info: copy_string(info), at: *at },
        MdEvent::FenceEnd(a) => MdEvent::FenceEnd(*a),
        MdEvent::Raw(t) => MdEvent::Raw(copy_string(t)),
        MdEvent::Other(a) => MdEvent::Other(*a),
    }
}

fn copy_string(s: &String) -> (r: String)
    ensures
        r@ == s@,
{
    let mut out = String::new();
    push_str(&mut out, s.as_str());
    out
}

/// Drop front matter from the stream.
pub fn drop_metadata(events: &Vec<MdEvent>) -> (r: Vec<MdEvent>)
    ensures
        views(r@) == spec_drop_metadata(views(events@), false),
        forall|i: int|
            0 <= i < r.len() ==> (at_of(#[trigger] r@[i]@) matches Some(a) ==> exists|j: int|
                0 <= j < events.len() && at_of(#[trigger] events@[j]@) == Some(a)),
{
    let ghost all = views(events@);
    let mut out: Vec<MdEvent> = Vec::new();
    let mut inside = false;
    let mut i: usize = 0;
    assert(all.subrange(0, all.len() as int) == all);
    assert(views(out@) == Seq::<MdView>::empty());
    while i < events.len()
        invariant
            all == views(events@),
            i <= events.len(),
            views(out@) + spec_drop_metadata(all.subrange(i as int, all.len() as int), inside)
                == spec_drop_metadata(all, false),
            forall|k: int|
                0 <= k < out.len() ==> (at_of(#[trigger] out@[k]@) matches Some(a) ==> exists|j: int|
                    0 <= j < events.len() && at_of(#[trigger] events@[j]@) == Some(a)),
        decreases events.len() - i,
    {
        let ghost rest = all.subrange(i as int, all.len() as int);
        assert(rest[0] == events@[i as int]@);
        assert(rest.drop_first() == all.subrange(i + 1, all.len() as int));
        match &events[i] {
            MdEvent::MetaStart(_) => {
                inside = true;
            },
            MdEvent::MetaEnd(_) => {
                inside = false;
            },
            e => {
                if !inside {
                    let ghost before = views(out@);
                    out.push(clone_event(e));
                    proof {
                        assert(views(out@) == before.push(events@[i as int]@));
                        assert(views(out@) + spec_drop_metadata(
                            all.subrange(i + 1, all.len() as int),
                            inside,
                        ) == before + spec_drop_metadata(rest, inside));
                        assert(at_of(events@[i as int]@) == at_of(out@[out.len() - 1]@));
                    }
                }
            },
        }
        i += 1;
    }
    out
}

// ---------------------------------------------------------------------------
// Headings

/// The text of the heading that starts at `i`: every text and code piece up
/// to the heading's end, run together.
pub open spec fn run_text(evs: Seq<MdView>, i: int) -> Seq<char>
    decreases evs.len() - i,
{
    if i < 0 || i >= evs.len() {
        Seq::empty()
    } else {
        match evs[i] {
            MdView::HeadingEnd(_) => Seq::empty(),
            MdView::Text(t) => t + run_text(evs, i + 1),
            MdView::Code(t) => t + run_text(evs, i + 1),
            _ => run_text(evs, i + 1),
        }
    }
}

fn heading_text(events: &Vec<MdEvent>, i: usize) -> (r: String)
    requires
        i <= events.len(),
    ensures
        r@ == run_text(views(events@), i as int),
{
    let ghost all = views(events@);
    let mut out = String::new();
    let mut j = i;
    while j < events.len()
        invariant
            all == views(events@),
            i <= j <= events.len(),
            out@ + run_text(all, j as int) == run_text(all, i as int),
        decreases events.len() - j,
    {
        assert(all[j as int] == events@[j as int]@);
        match &events[j] {
            MdEvent::HeadingEnd(_) => {
                return out;
            },
            MdEvent::Text(t) => {
                push_str(&mut out, t.as_str());
            },
            MdEvent::Code(t) => {
                push_str(&mut out, t.as_str());
            },
            _ => {},
        }
        j += 1;
    }
    out
}

/// `char::is_alphanumeric`: the Unicode `Alphabetic` or `Numeric` property.
pub uninterp spec fn alphanumeric(c: char) -> bool;

/// `char::to_lowercase`: the Unicode lowercase mapping of `c`, which may be
/// more than one character.
pub uninterp spec fn lowercase(c: char) -> Seq<char>;

/// `char::is_alphanumeric`. Claims only that the answer is the property
/// named `alphanumeric`.
#[verifier::external_body]
fn is_alphanumeric(c: char) -> (r: bool)
    ensures
        r == alphanumeric(c),
{
    c.is_alphanumeric()
}

/// `char::to_lowercase`, collected into a string. Claims only that the text
/// is the mapping named `lowercase`.
#[verifier::external_body]
fn to_lowercase(c: char) -> (r: String)
    ensures
        r@ == lowercase(c),
{
    c.to_lowercase().collect()
}

/// Letters and digits in any alphabet survive, lowered; every other run of
/// characters becomes a single `-`.
pub open spec fn slug_chars(text: Seq<char>) -> Seq<char>
    decreases text.len(),
{
    if text.len() == 0 {
        Seq::empty()
    } else {
        let acc = slug_chars(text.drop_last());
        let c = text.last();
        if alphanumeric(c) {
            acc + lowercase(c)
        } else if acc.len() > 0 && acc.last() == '-' {
            acc
        } else {
            acc.push('-')
        }
    }
}

/// `str::trim_matches('-')`.
pub open spec fn trim_dashes(s: Seq<char>) -> Seq<char>
    decreases s.len(),
{
    if s.len() > 0 && s[0] == '-' {
        trim_dashes(s.drop_first())
    } else if s.len() > 0 && s.last() == '-' {
        trim_dashes(s.drop_last())
    } else {
        s
    }
}

/// `Getting Started?` becomes `getting-started`; a heading with nothing left
/// becomes `section`.
pub open spec fn spec_slug(text: Seq<char>) -> Seq<char> {
    let t = trim_dashes(slug_chars(text));
    if t.len() == 0 {
        "section"@
    } else {
        t
    }
}

/// The anchor for a heading's text.
pub fn slug(text: &str) -> (r: String)
    ensures
        r@ == spec_slug(text@),
{
    let v = chars_of(text);
    let mut out: Vec<char> = Vec::new();
    let mut i: usize = 0;
    while i < v.len()
        invariant
            v@ == text@,
            i <= v.len(),
            out@ == slug_chars(v@.subrange(0, i as int)),
        decreases v.len() - i,
    {
        let c = v[i];
        assert(v@.subrange(0, i + 1).drop_last() == v@.subrange(0, i as int));
        assert(v@.subrange(0, i + 1).last() == c);
        if is_alphanumeric(c) {
            let low = chars_of(to_lowercase(c).as_str());
            let mut k: usize = 0;
            let ghost before = out@;
            while k < low.len()
                invariant
                    k <= low.len(),
                    out@ == before + low@.subrange(0, k as int),
                decreases low.len() - k,
            {
                out.push(low[k]);
                k += 1;
                assert(low@.subrange(0, k as int) == low@.subrange(0, k - 1).push(low@[k - 1]));
            }
            assert(low@.subrange(0, low.len() as int) == low@);
        } else if !(out.len() > 0 && out[out.len() - 1] == '-') {
            out.push('-');
        }
        i += 1;
    }
    assert(v@.subrange(0, v.len() as int) == v@);
    let mut a: usize = 0;
    let mut b: usize = out.len();
    assert(out@.subrange(0, out.len() as int) == out@);
    while a < b && out[a] == '-'
        invariant
            a <= b <= out.len(),
            trim_dashes(out@.subrange(a as int, b as int)) == trim_dashes(out@),
            b == out.len(),
        decreases b - a,
    {
        assert(out@.subrange(a as int, b as int).drop_first() == out@.subrange(a + 1, b as int));
        a += 1;
    }
    assert(out@.subrange(0, out.len() as int) == out@);
    while a < b && out[b - 1] == '-'
        invariant
            a <= b <= out.len(),
            trim_dashes(out@.subrange(a as int, b as int)) == trim_dashes(out@),
            a < b ==> out@[a as int] != '-',
        decreases b - a,
    {
        assert(out@.subrange(a as int, b as int).drop_last() == out@.subrange(a as int, b - 1));
        assert(out@.subrange(a as int, b as int)[0] == out@[a as int]);
        b -= 1;
    }
    proof {
        let t = out@.subrange(a as int, b as int);
        if t.len() > 0 {
            assert(t[0] == out@[a as int]);
            assert(t.last() == out@[b - 1]);
        }
        assert(trim_dashes(t) == t);
    }
    if a == b {
        let mut s = String::new();
        push_str(&mut s, "section");
        return s;
    }
    string_of_range(&out, a, b)
}

/// The anchor of the `n`-th heading (counting from one) to share the slug
/// `s`: the first keeps it, later ones get `-1`, `-2`, …
pub open spec fn numbered(s: Seq<char>, n: nat) -> Seq<char> {
    if n <= 1 {
        s
    } else {
        s + seq!['-'] + dec((n - 1) as nat)
    }
}

/// A heading that gets an anchor: one without an `id` of its own.
pub open spec fn is_unanchored(e: MdView) -> bool {
    e matches MdView::HeadingStart { id: None, .. }
}

/// How many unanchored headings among the first `upto` events have slug `s`.
pub open spec fn slug_count(evs: Seq<MdView>, upto: int, s: Seq<char>) -> nat
    decreases upto,
{
    if upto <= 0 {
        0
    } else {
        slug_count(evs, upto - 1, s) + if is_unanchored(evs[upto - 1]) && spec_slug(
            run_text(evs, upto - 1),
        ) == s {
            1nat
        } else {
            0nat
        }
    }
}

/// Every heading without an `id` gets one: its slug, numbered when an
/// earlier heading already took it. An `id` the author wrote by hand is left
/// as it is.
pub open spec fn spec_anchor(evs: Seq<MdView>) -> Seq<MdView> {
    Seq::new(
        evs.len(),
        |i: int|
            match evs[i] {
                MdView::HeadingStart { level, id: None, at } => {
                    let s = spec_slug(run_text(evs, i));
                    MdView::HeadingStart {
                        level,
                        id: Some(numbered(s, slug_count(evs, i + 1, s))),
                        at,
                    }
                },
                e => e,
            },
    )
}

/// How many of `seen[..k]` equal `s`.
pub open spec fn count_in(seen: Seq<Seq<char>>, k: int, s: Seq<char>) -> nat
    decreases k,
{
    if k <= 0 {
        0
    } else {
        count_in(seen, k - 1, s) + if seen[k - 1] == s {
            1nat
        } else {
            0nat
        }
    }
}

/// The slugs of the unanchored headings among the first `upto` events.
pub open spec fn slugs_before(evs: Seq<MdView>, upto: int) -> Seq<Seq<char>>
    decreases upto,
{
    if upto <= 0 {
        Seq::empty()
    } else if is_unanchored(evs[upto - 1]) {
        slugs_before(evs, upto - 1).push(spec_slug(run_text(evs, upto - 1)))
    } else {
        slugs_before(evs, upto - 1)
    }
}

proof fn lemma_count_push(seen: Seq<Seq<char>>, x: Seq<char>, s: Seq<char>)
    ensures
        count_in(seen.push(x), seen.len() + 1int, s) == count_in(seen, seen.len() as int, s) + if x
            == s {
            1nat
        } else {
            0nat
        },
{
    lemma_count_prefix(seen.push(x), seen, seen.len() as int, s);
}

proof fn lemma_count_prefix(a: Seq<Seq<char>>, b: Seq<Seq<char>>, k: int, s: Seq<char>)
    requires
        0 <= k <= b.len(),
        k <= a.len(),
        forall|j: int| 0 <= j < k ==> a[j] == b[j],
    ensures
        count_in(a, k, s) == count_in(b, k, s),
    decreases k,
{
    if k > 0 {
        lemma_count_prefix(a, b, k - 1, s);
    }
}

proof fn lemma_slugs_count(evs: Seq<MdView>, upto: int, s: Seq<char>)
    requires
        0 <= upto <= evs.len(),
    ensures
        count_in(slugs_before(evs, upto), slugs_before(evs, upto).len() as int, s) == slug_count(
            evs,
            upto,
            s,
        ),
    decreases upto,
{
    if upto > 0 {
        lemma_slugs_count(evs, upto - 1, s);
        if is_unanchored(evs[upto - 1]) {
            lemma_count_push(slugs_before(evs, upto - 1), spec_slug(run_text(evs, upto - 1)), s);
        }
    }
}

fn count_equal(seen: &Vec<String>, s: &str) -> (r: usize)
    ensures
        r == count_in(seen@.map_values(|x: String| x@), seen.len() as int, s@),
{
    let ghost sv = seen@.map_values(|x: String| x@);
    let mut n: usize = 0;
    let mut k: usize = 0;
    while k < seen.len()
        invariant
            sv == seen@.map_values(|x: String| x@),
            k <= seen.len(),
            n == count_in(sv, k as int, s@),
            n <= k,
        decreases seen.len() - k,
    {
        let w = chars_of(seen[k].as_str());
        assert(w@.subrange(0, w.len() as int) == w@);
        assert(sv[k as int] == seen@[k as int]@);
        if crate::text::range_eq(&w, 0, w.len(), s) {
            n += 1;
        }
        k += 1;
    }
    n
}

/// Give every heading an `id`, so the `#installation` links a README is full of
/// land somewhere.
pub fn anchor_headings(events: &Vec<MdEvent>) -> (r: Vec<MdEvent>)
    ensures
        views(r@) == spec_anchor(views(events@)),
        forall|i: int|
            0 <= i < r.len() ==> at_of(#[trigger] r@[i]@) == at_of(events@[i]@),
{
    let ghost all = views(events@);
    let mut out: Vec<MdEvent> = Vec::new();
    let mut seen: Vec<String> = Vec::new();
    let mut i: usize = 0;
    while i < events.len()
        invariant
            all == views(events@),
            i <= events.len(),
            out.len() == i,
            forall|k: int| 0 <= k < i ==> (#[trigger] views(out@)[k]) == spec_anchor(all)[k],
            forall|k: int| 0 <= k < i ==> at_of(#[trigger] out@[k]@) == at_of(events@[k]@),
            seen@.map_values(|x: String| x@) == slugs_before(all, i as int),
        decreases events.len() - i,
    {
        assert(all[i as int] == events@[i as int]@);
        let ghost before_seen = seen@.map_values(|x: String| x@);
        let next = match &events[i] {
            MdEvent::HeadingStart { level, id: None, at } => {
                let text = heading_text(events, i);
                let s = slug(text.as_str());
                let mut count = count_equal(&seen, s.as_str());
                proof {
                    lemma_slugs_count(all, i as int, s@);
                }
                let anchor = if count == 0 {
                    copy_string(&s)
                } else {
                    let mut a = copy_string(&s);
                    push_char(&mut a, '-');
                    push_dec(&mut a, count as u128);
                    a
                };
                let ghost sv = s@;
                seen.push(s);
                proof {
                    assert(seen@.map_values(|x: String| x@) == before_seen.push(spec_slug(
                        run_text(all, i as int),
                    )));
                    assert(slug_count(all, i + 1, sv) == count + 1);
                    assert(anchor@ == numbered(sv, (count + 1) as nat));
                }
                MdEvent::HeadingStart { level: *level, id: Some(anchor), at: *at }
            },
            e => {
                proof {
                    assert(slugs_before(all, i + 1) == slugs_before(all, i as int));
                }
                clone_event(e)
            },
        };
        assert(next@ == spec_anchor(all)[i as int]);
        let ghost old_out = out@;
        out.push(next);
        proof {
            assert forall|k: int| 0 <= k < i + 1 implies (#[trigger] views(out@)[k]) == spec_anchor(
                all,
            )[k] by {
                assert(views(out@)[k] == out@[k]@);
                if k < i {
                    assert(out@[k] == old_out[k]);
                    assert(views(old_out)[k] == old_out[k]@);
                }
            }
        }
        i += 1;
    }
    proof {
        assert(views(out@) == spec_anchor(all)) by {
            assert(views(out@).len() == spec_anchor(all).len());
            assert forall|k: int| 0 <= k < views(out@).len() implies views(out@)[k] == spec_anchor(
                all,
            )[k] by {}
        }
    }
    out
}

/// The text of the first top-level heading, when it has any: what a browser
/// tab wants.
pub open spec fn spec_heading(evs: Seq<MdView>) -> Option<Seq<char>> {
    let h1 = |e: MdView| e matches MdView::HeadingStart { level: 1, .. };
    if exists|i: int| 0 <= i < evs.len() && h1(#[trigger] evs[i]) {
        let p = choose|i: int|
            0 <= i < evs.len() && h1(#[trigger] evs[i]) && forall|j: int|
                0 <= j < i ==> !h1(#[trigger] evs[j]);
        if run_text(evs, p).len() > 0 {
            Some(run_text(evs, p))
        } else {
            None
        }
    } else {
        None
    }
}


/// Find the first top-level heading's text.
pub fn heading(events: &Vec<MdEvent>) -> (r: Option<String>)
    ensures
        match r {
            Some(t) => spec_heading(views(events@)) == Some(t@),
            None => spec_heading(views(events@)) is None,
        },
{
    let ghost all = views(events@);
    let ghost h1 = |e: MdView| e matches MdView::HeadingStart { level: 1, .. };
    let mut p: usize = 0;
    while p < events.len()
        invariant
            all == views(events@),
            h1 == (|e: MdView| e matches MdView::HeadingStart { level: 1, .. }),
            p <= events.len(),
            forall|j: int| 0 <= j < p ==> !h1(#[trigger] all[j]),
        decreases events.len() - p,
    {
        assert(all[p as int] == events@[p as int]@);
        let is_h1 = match &events[p] {
            MdEvent::HeadingStart { level, .. } => *level == 1,
            _ => false,
        };
        if is_h1 {
            proof {
                assert(h1(all[p as int]));
                let q = choose|i: int|
                    0 <= i < all.len() && h1(#[trigger] all[i]) && forall|j: int|
                        0 <= j < i ==> !h1(#[trigger] all[j]);
                if q < p {
                } else if q > p {
                    assert(!h1(all[p as int]));
                }
                assert(q == p);
            }
            let text = heading_text(events, p);
            let v = chars_of(text.as_str());
            if v.len() > 0 {
                return Some(text);
            }
            return None;
        }
        p += 1;
    }
    None
}

/// A rendered document: the body, and the title to put in the tab.
pub struct Rendered {
    /// The first `<h1>`, or the file name when the document has none.
    pub title: String,
    /// The document body as HTML, without any surrounding page.
    pub body: String,
    /// Whether the body draws a diagram, and so needs mermaid loaded.
    pub diagrams: bool,
}

/// The events a document is read from: the parse, front matter dropped,
/// headings anchored.
pub open spec fn prepared(source: Seq<char>) -> Seq<MdView> {
    spec_anchor(spec_drop_metadata(md_events(source, serv_options()), false))
}

/// The events a document is written from: links pointed, diagrams drawn.
pub open spec fn written(source: Seq<char>, clean_urls: bool) -> Seq<MdView> {
    spec_drawn(spec_point_links(prepared(source), clean_urls), 0)
}

/// The title of a document: its first top-level heading, or its file name.
pub open spec fn spec_title(source: Seq<char>, name: Seq<char>) -> Seq<char> {
    match spec_heading(prepared(source)) {
        Some(t) => t,
        None => name,
    }
}

/// Render a markdown document as serv serves it with clean URLs.
pub fn render(source: &str, name: &str) -> (r: Rendered)
    ensures
        r.body@ == md_html(source@, serv_options(), written(source@, true)),
        r.title@ == spec_title(source@, name@),
        r.diagrams == has_diagram(spec_point_links(prepared(source@), true)),
{
    render_with(source, name, true)
}

/// Render a markdown document: front matter dropped, every heading anchored,
/// links pointed, diagrams drawn, titled by its first top-level heading or
/// else by `name`.
pub fn render_with(source: &str, name: &str, clean_urls: bool) -> (r: Rendered)
    ensures
        r.body@ == md_html(source@, serv_options(), written(source@, clean_urls)),
        r.title@ == spec_title(source@, name@),
        r.diagrams == has_diagram(spec_point_links(prepared(source@), clean_urls)),
{
    let opts = options();
    let parsed = parse_events(source, &opts);
    let kept = drop_metadata(&parsed);
    let anchored = anchor_headings(&kept);
    let pointed = point_links(&anchored, clean_urls);
    let (drawn, diagrams) = draw_diagrams(&pointed);
    proof {
        assert forall|i: int| 0 <= i < drawn.len() implies (at_of(
            #[trigger] drawn@[i]@,
        ) matches Some(a) ==> a < md_events(source@, opts).len()) by {
            if at_of(drawn@[i]@) is Some {
                let a = at_of(drawn@[i]@)->0;
                let j1 = choose|j: int| 0 <= j < pointed.len() && at_of(#[trigger] pointed@[j]@) == Some(a);
                assert(at_of(anchored@[j1]@) == Some(a));
                assert(at_of(kept@[j1]@) == Some(a));
                let j2 = choose|j: int| 0 <= j < parsed.len() && at_of(#[trigger] parsed@[j]@) == Some(a);
                assert(views(parsed@).len() == parsed@.len());
                assert(a == j2);
            }
        }
    }
    let body = write_html(source, &opts, &drawn);
    let title = match heading(&anchored) {
        Some(t) => t,
        None => {
            let mut t = String::new();
            push_str(&mut t, name);
            t
        },
    };
    Rendered { title, body, diagrams }
}

// ---------------------------------------------------------------------------
// Links

/// Where the address of a link ends: at its first `#` or `?`.
pub open spec fn address_end(dest: Seq<char>) -> int
    decreases dest.len(),
{
    if dest.len() == 0 || dest[0] == '#' || dest[0] == '?' {
        0
    } else {
        1 + address_end(dest.drop_first())
    }
}

/// A link off the machine.
pub open spec fn is_external(dest: Seq<char>) -> bool {
    starts_with(dest, "http://"@) || starts_with(dest, "https://"@)
}

/// A link to a markdown file on this machine: no scheme, and an address
/// ending in `.md`.
pub open spec fn is_page_link(dest: Seq<char>) -> bool {
    let a = dest.subrange(0, address_end(dest));
    !a.contains(':') && ends_with(a, ".md"@)
}

/// A markdown link pointed at the page serv serves for it: the address
/// cleaned the way a request for it would be redirected, the fragment or
/// query kept.
pub open spec fn spec_pointed(dest: Seq<char>) -> Seq<char> {
    spec_strip_suffix(dest.subrange(0, address_end(dest)), ".md"@) + dest.subrange(
        address_end(dest),
        dest.len() as int,
    )
}

/// The attributes of a link: where it goes, and its title when it has one.
pub open spec fn link_attrs(dest: Seq<char>, title: Seq<char>) -> Seq<char> {
    "<a href=\""@ + html_escape(dest) + "\""@ + (if title.len() > 0 {
        " title=\""@ + html_escape(title) + "\""@
    } else {
        Seq::empty()
    })
}

/// The opening tag of a link that opens in its own tab.
pub open spec fn new_tab(dest: Seq<char>, title: Seq<char>) -> Seq<char> {
    link_attrs(dest, title) + " target=\"_blank\" rel=\"noopener\">"@
}

/// The opening tag of a link within the site.
pub open spec fn same_tab(dest: Seq<char>, title: Seq<char>) -> Seq<char> {
    link_attrs(dest, title) + ">"@
}

/// One event with its link pointed: a link off the machine opens in its own
/// tab; with clean URLs, a link to a markdown file goes to its page.
pub open spec fn spec_link(e: MdView, clean_urls: bool) -> MdView {
    match e {
        MdView::LinkStart { dest, title, at } => if is_external(dest) {
            MdView::Raw(new_tab(dest, title))
        } else if clean_urls && is_page_link(dest) {
            MdView::Raw(same_tab(spec_pointed(dest), title))
        } else {
            e
        },
        _ => e,
    }
}

pub open spec fn spec_point_links(evs: Seq<MdView>, clean_urls: bool) -> Seq<MdView> {
    evs.map_values(|e: MdView| spec_link(e, clean_urls))
}

fn address_end_of(v: &Vec<char>) -> (r: usize)
    ensures
        r as int == address_end(v@),
        r <= v.len(),
{
    let mut i: usize = 0;
    assert(v@.skip(0) == v@);
    while i < v.len() && v[i] != '#' && v[i] != '?'
        invariant
            i <= v.len(),
            address_end(v@) == i + address_end(v@.skip(i as int)),
        decreases v.len() - i,
    {
        assert(v@.skip(i as int).drop_first() == v@.skip(i + 1));
        i += 1;
    }
    i
}

fn has_colon(v: &Vec<char>, hi: usize) -> (r: bool)
    requires
        hi <= v.len(),
    ensures
        r == v@.subrange(0, hi as int).contains(':'),
{
    let mut i: usize = 0;
    while i < hi
        invariant
            i <= hi <= v.len(),
            forall|k: int| 0 <= k < i ==> v@[k] != ':',
        decreases hi - i,
    {
        if v[i] == ':' {
            assert(v@.subrange(0, hi as int)[i as int] == ':');
            return true;
        }
        i += 1;
    }
    assert forall|k: int| 0 <= k < hi implies v@.subrange(0, hi as int)[k] != ':' by {}
    false
}

fn link_tag(dest: &str, title: &str, new_tab: bool) -> (r: String)
    ensures
        r@ == if new_tab {
            crate::markdown::new_tab(dest@, title@)
        } else {
            same_tab(dest@, title@)
        },
{
    let mut out = String::new();
    push_str(&mut out, "<a href=\"");
    escape_into(&mut out, dest);
    push_str(&mut out, "\"");
    if title.unicode_len() > 0 {
        push_str(&mut out, " title=\"");
        escape_into(&mut out, title);
        push_str(&mut out, "\"");
    }
    if new_tab {
        push_str(&mut out, " target=\"_blank\" rel=\"noopener\">");
    } else {
        push_str(&mut out, ">");
    }
    out
}

fn point_link(e: &MdEvent, clean_urls: bool) -> (r: MdEvent)
    ensures
        r@ == spec_link(e@, clean_urls),
        at_of(r@) matches Some(a) ==> at_of(e@) == Some(a),
{
    match e {
        MdEvent::LinkStart { dest, title, at } => {
            let v = chars_of(dest.as_str());
            let n = v.len();
            assert(v@.subrange(0, n as int) == dest@);
            let external = range_starts_with(&v, 0, n, "http://") || range_starts_with(
                &v,
                0,
                n,
                "https://",
            );
            if external {
                return MdEvent::Raw(link_tag(dest.as_str(), title.as_str(), true));
            }
            if clean_urls {
                let end = address_end_of(&v);
                let address = string_of_range(&v, 0, end);
                if !has_colon(&v, end) && range_ends_with(&v, 0, end, ".md") {
                    let mut pointed = strip_suffix(address.as_str(), ".md");
                    let rest = string_of_range(&v, end, n);
                    push_str(&mut pointed, rest.as_str());
                    return MdEvent::Raw(link_tag(pointed.as_str(), title.as_str(), false));
                }
            }
            clone_event(e)
        },
        _ => clone_event(e),
    }
}

/// Point every link: off the machine in its own tab, and, with clean URLs,
/// markdown files at their pages.
pub fn point_links(events: &Vec<MdEvent>, clean_urls: bool) -> (r: Vec<MdEvent>)
    ensures
        views(r@) == spec_point_links(views(events@), clean_urls),
        forall|i: int|
            0 <= i < r.len() ==> (at_of(#[trigger] r@[i]@) matches Some(a) ==> at_of(events@[i]@)
                == Some(a)),
{
    let ghost all = views(events@);
    let mut out: Vec<MdEvent> = Vec::new();
    let mut i: usize = 0;
    while i < events.len()
        invariant
            all == views(events@),
            i <= events.len(),
            out.len() == i,
            forall|k: int| 0 <= k < i ==> (#[trigger] views(out@)[k]) == spec_link(all[k], clean_urls),
            forall|k: int|
                0 <= k < i ==> (at_of(#[trigger] out@[k]@) matches Some(a) ==> at_of(events@[k]@)
                    == Some(a)),
        decreases events.len() - i,
    {
        assert(all[i as int] == events@[i as int]@);
        let next = point_link(&events[i], clean_urls);
        let ghost old_out = out@;
        out.push(next);
        proof {
            assert forall|k: int| 0 <= k < i + 1 implies (#[trigger] views(out@)[k]) == spec_link(
                all[k],
                clean_urls,
            ) by {
                assert(views(out@)[k] == out@[k]@);
                if k < i {
                    assert(out@[k] == old_out[k]);
                    assert(views(old_out)[k] == old_out[k]@);
                }
            }
        }
        i += 1;
    }
    assert(views(out@) == spec_point_links(all, clean_urls));
    out
}

// ---------------------------------------------------------------------------
// Diagrams

/// A fence whose language, the first word of its info string, is `mermaid`.
pub open spec fn is_mermaid(info: Seq<char>) -> bool {
    info == "mermaid"@ || starts_with(info, "mermaid "@) || starts_with(info, "mermaid,"@)
}

pub open spec fn opens_diagram(e: MdView) -> bool {
    e matches MdView::FenceStart { info, .. } && is_mermaid(info)
}

/// Where the code block that is open at `j` ends: the first block end from
/// `j` on, or the end of the stream.
pub open spec fn fence_end_from(evs: Seq<MdView>, j: int) -> int
    decreases evs.len() - j,
{
    if j < 0 || j >= evs.len() {
        evs.len() as int
    } else if evs[j] is FenceEnd {
        j
    } else {
        fence_end_from(evs, j + 1)
    }
}

/// The code of the block that is open at `j`: its text up to the block's end.
pub open spec fn fence_text(evs: Seq<MdView>, j: int) -> Seq<char>
    decreases evs.len() - j,
{
    if j < 0 || j >= evs.len() {
        Seq::empty()
    } else {
        match evs[j] {
            MdView::FenceEnd(_) => Seq::empty(),
            MdView::Text(t) => t + fence_text(evs, j + 1),
            _ => fence_text(evs, j + 1),
        }
    }
}

pub proof fn lemma_fence_end_from(evs: Seq<MdView>, j: int)
    requires
        0 <= j <= evs.len(),
    ensures
        j <= fence_end_from(evs, j) <= evs.len(),
    decreases evs.len() - j,
{
    if j < evs.len() && !(evs[j] is FenceEnd) {
        lemma_fence_end_from(evs, j + 1);
    }
}

/// A diagram as the page carries it: mermaid reads the text of the block.
pub open spec fn diagram(code: Seq<char>) -> Seq<char> {
    "<pre class=\"mermaid\">"@ + html_escape(code) + "</pre>\n"@
}

/// The events from `i` on, each mermaid block replaced by the diagram it
/// draws, end marker included.
pub open spec fn spec_drawn(evs: Seq<MdView>, i: int) -> Seq<MdView>
    decreases evs.len() + 1 - i,
{
    if i < 0 || i >= evs.len() {
        Seq::empty()
    } else if opens_diagram(evs[i]) {
        let k = fence_end_from(evs, i + 1);
        proof {
            lemma_fence_end_from(evs, i + 1);
        }
        seq![MdView::Raw(diagram(fence_text(evs, i + 1)))] + spec_drawn(evs, k + 1)
    } else {
        seq![evs[i]] + spec_drawn(evs, i + 1)
    }
}

/// Whether a stream draws any diagram.
pub open spec fn has_diagram(evs: Seq<MdView>) -> bool {
    exists|i: int| 0 <= i < evs.len() && opens_diagram(#[trigger] evs[i])
}

fn is_mermaid_info(info: &str) -> (r: bool)
    ensures
        r == is_mermaid(info@),
{
    let v = chars_of(info);
    let n = v.len();
    assert(v@.subrange(0, n as int) == info@);
    crate::text::range_eq(&v, 0, n, "mermaid") || range_starts_with(&v, 0, n, "mermaid ")
        || range_starts_with(&v, 0, n, "mermaid,")
}

fn opens_a_diagram(e: &MdEvent) -> (r: bool)
    ensures
        r == opens_diagram(e@),
{
    match e {
        MdEvent::FenceStart { info, .. } => is_mermaid_info(info.as_str()),
        _ => false,
    }
}

/// Replace each mermaid block with the diagram it draws; say whether there
/// was one.
pub fn draw_diagrams(events: &Vec<MdEvent>) -> (r: (Vec<MdEvent>, bool))
    ensures
        views(r.0@) == spec_drawn(views(events@), 0),
        r.1 == has_diagram(views(events@)),
        forall|i: int|
            0 <= i < r.0.len() ==> (at_of(#[trigger] r.0@[i]@) matches Some(a) ==> exists|j: int|
                0 <= j < events.len() && at_of(#[trigger] events@[j]@) == Some(a)),
{
    let ghost all = views(events@);
    let mut out: Vec<MdEvent> = Vec::new();
    let mut found = false;
    let mut i: usize = 0;
    assert(views(out@) == Seq::<MdView>::empty());
    while i < events.len()
        invariant
            all == views(events@),
            i <= events.len(),
            views(out@) + spec_drawn(all, i as int) == spec_drawn(all, 0),
            found <==> exists|k: int| 0 <= k < i && k < all.len() && opens_diagram(#[trigger] all[k]),
            forall|k: int|
                0 <= k < out.len() ==> (at_of(#[trigger] out@[k]@) matches Some(a) ==> exists|j: int|
                    0 <= j < events.len() && at_of(#[trigger] events@[j]@) == Some(a)),
        decreases events.len() - i,
    {
        assert(all[i as int] == events@[i as int]@);
        let ghost before = views(out@);
        if opens_a_diagram(&events[i]) {
            found = true;
            let mut code = String::new();
            let mut j = i + 1;
            proof {
                lemma_fence_end_from(all, i + 1);
            }
            while j < events.len() && !(matches!(events[j], MdEvent::FenceEnd(_)))
                invariant
                    all == views(events@),
                    i < j <= events.len(),
                    fence_text(all, i + 1) == code@ + fence_text(all, j as int),
                    fence_end_from(all, i + 1) == fence_end_from(all, j as int),
                decreases events.len() - j,
            {
                assert(all[j as int] == events@[j as int]@);
                match &events[j] {
                    MdEvent::Text(t) => push_str(&mut code, t.as_str()),
                    _ => {},
                }
                j += 1;
            }
            proof {
                if j < events.len() {
                    assert(all[j as int] == events@[j as int]@);
                }
                assert(fence_text(all, j as int) == Seq::<char>::empty());
                assert(fence_end_from(all, j as int) == j);
            }
            let mut drawn = String::new();
            push_str(&mut drawn, "<pre class=\"mermaid\">");
            escape_into(&mut drawn, code.as_str());
            push_str(&mut drawn, "</pre>\n");
            out.push(MdEvent::Raw(drawn));
            proof {
                assert(views(out@) == before.push(MdView::Raw(diagram(fence_text(all, i + 1)))));
                assert(spec_drawn(all, i as int) == seq![MdView::Raw(diagram(fence_text(all, i + 1)))]
                    + spec_drawn(all, j + 1));
                assert(at_of(out@[out.len() - 1]@) is None);
            }
            if j < events.len() {
                i = j + 1;
            } else {
                assert(spec_drawn(all, j + 1) == Seq::<MdView>::empty());
                i = j;
            }
        } else {
            out.push(clone_event(&events[i]));
            proof {
                assert(views(out@) == before.push(all[i as int]));
                assert(at_of(events@[i as int]@) == at_of(out@[out.len() - 1]@));
            }
            i += 1;
        }
    }
    proof {
        assert(spec_drawn(all, i as int) == Seq::<MdView>::empty());
    }
    assert(found == has_diagram(all));
    (out, found)
}

// ---------------------------------------------------------------------------
// What always holds of a rendered document

/// An `id` the author wrote by hand is left as it is.
pub proof fn an_explicit_id_is_left_alone(evs: Seq<MdView>, i: int)
    requires
        0 <= i < evs.len(),
        evs[i] matches MdView::HeadingStart { id: Some(_), .. },
    ensures
        spec_anchor(evs)[i] == evs[i],
{
}

proof fn lemma_slug_count_grows(evs: Seq<MdView>, a: int, b: int, s: Seq<char>)
    requires
        0 <= a <= b,
    ensures
        slug_count(evs, a, s) <= slug_count(evs, b, s),
    decreases b - a,
{
    if a < b {
        lemma_slug_count_grows(evs, a, b - 1, s);
    }
}

proof fn lemma_numbered_injective(s: Seq<char>, m: nat, n: nat)
    requires
        1 <= m,
        1 <= n,
        numbered(s, m) == numbered(s, n),
    ensures
        m == n,
{
    lemma_in_base(((m - 1) as nat), 10);
    lemma_in_base(((n - 1) as nat), 10);
    if m > 1 && n > 1 {
        let a = s + seq!['-'] + dec((m - 1) as nat);
        let b = s + seq!['-'] + dec((n - 1) as nat);
        assert(a.subrange(s.len() + 1int, a.len() as int) == dec((m - 1) as nat));
        assert(b.subrange(s.len() + 1int, b.len() as int) == dec((n - 1) as nat));
        lemma_in_base_injective((m - 1) as nat, (n - 1) as nat, 10);
    } else if m > 1 {
        assert(numbered(s, m).len() > s.len());
    } else if n > 1 {
        assert(numbered(s, n).len() > s.len());
    }
}

/// Two headings with the same words get different anchors, so the second is
/// still reachable: each later one is numbered past the one before.
pub proof fn repeated_headings_get_distinct_anchors(evs: Seq<MdView>, i: int, j: int)
    requires
        0 <= i < j < evs.len(),
        is_unanchored(evs[i]),
        is_unanchored(evs[j]),
        spec_slug(run_text(evs, i)) == spec_slug(run_text(evs, j)),
    ensures
        spec_anchor(evs)[i] != spec_anchor(evs)[j],
{
    let s = spec_slug(run_text(evs, i));
    lemma_slug_count_grows(evs, i + 1, j, s);
    lemma_slug_count_grows(evs, 0, i, s);
    let m = slug_count(evs, i + 1, s);
    let n = slug_count(evs, j + 1, s);
    assert(m >= 1);
    assert(n == slug_count(evs, j, s) + 1);
    if numbered(s, m) == numbered(s, n) {
        lemma_numbered_injective(s, m, n);
    }
    match (evs[i], evs[j]) {
        (
            MdView::HeadingStart { level: l1, id: None, at: a1 },
            MdView::HeadingStart { level: l2, id: None, at: a2 },
        ) => {
            assert(spec_anchor(evs)[i] == MdView::HeadingStart {
                level: l1,
                id: Some(numbered(s, m)),
                at: a1,
            });
            assert(spec_anchor(evs)[j] == MdView::HeadingStart {
                level: l2,
                id: Some(numbered(s, n)),
                at: a2,
            });
        },
        _ => {},
    }
}

/// Front matter leaves nothing behind: no block marker survives, so nothing
/// after it is read as part of it.
pub proof fn no_front_matter_is_left(evs: Seq<MdView>, inside: bool)
    ensures
        forall|k: int|
            0 <= k < spec_drop_metadata(evs, inside).len() ==> !(#[trigger] spec_drop_metadata(
                evs,
                inside,
            )[k] is MetaStart) && !(spec_drop_metadata(evs, inside)[k] is MetaEnd),
    decreases evs.len(),
{
    if evs.len() > 0 {
        let rest = evs.drop_first();
        no_front_matter_is_left(rest, true);
        no_front_matter_is_left(rest, false);
        match evs[0] {
            MdView::MetaStart(_) => {},
            MdView::MetaEnd(_) => {},
            _ => if !inside {
                let out = spec_drop_metadata(evs, inside);
                assert(out == seq![evs[0]] + spec_drop_metadata(rest, inside));
                assert forall|k: int| 0 <= k < out.len() implies !(#[trigger] out[k] is MetaStart)
                    && !(out[k] is MetaEnd) by {
                    if k > 0 {
                        assert(out[k] == spec_drop_metadata(rest, inside)[k - 1]);
                    }
                }
            },
        }
    }
}

proof fn lemma_trim_dashes(s: Seq<char>)
    ensures
        trim_dashes(s).len() > 0 ==> trim_dashes(s)[0] != '-' && trim_dashes(s).last() != '-',
    decreases s.len(),
{
    if s.len() > 0 && s[0] == '-' {
        lemma_trim_dashes(s.drop_first());
    } else if s.len() > 0 && s.last() == '-' {
        lemma_trim_dashes(s.drop_last());
    }
}

/// Every heading gets some anchor, and an anchor never starts or ends with
/// a dash.
pub proof fn a_slug_is_never_empty_nor_dashed_at_the_ends(text: Seq<char>)
    ensures
        spec_slug(text).len() > 0,
        spec_slug(text)[0] != '-',
        spec_slug(text).last() != '-',
{
    lemma_trim_dashes(slug_chars(text));
    reveal_strlit("section");
}


/// Every heading ends up with an `id`, so every `#fragment` link to a
/// heading has somewhere to land.
pub proof fn every_heading_gets_an_id(evs: Seq<MdView>, i: int)
    requires
        0 <= i < evs.len(),
        evs[i] is HeadingStart,
    ensures
        spec_anchor(evs)[i] matches MdView::HeadingStart { id: Some(_), .. },
{
}

} // verus!
