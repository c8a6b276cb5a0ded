//! Which answer a request gets.
//!
//! Routing reads the file system, so it is split in two. `candidates` names
//! every path the decision could look at — the resolved target and the files
//! that stand in for it — and the caller stats each of them into `Facts`.
//! `route` then decides, from the request and those facts alone, what to send.

use vstd::prelude::*;

use crate::config::Config;
use crate::path::{
    a_resolved_path_stays_below_the_root, components, components_of, decode_segment, is_within,
    join_all, lemma_decode_plain, lemma_decode_with_extension, lemma_split_dir_then_name,
    lemma_walk_concat, lemma_walk_one, page_extension, path_starts_with, push_name, resolve,
    spec_resolve, walk,
};
use crate::text::{
    chars_of, ends_with, lemma_find_none, lemma_rfind, push_char, push_str, range_ends_with,
    range_eq, rfind, rfind_in, split, starts_with, string_of_range,
};

verus! {

// ---------------------------------------------------------------------------
// Helpers on request paths

/// `str::strip_suffix`, or the text unchanged when the suffix is absent.
pub open spec fn strip_or_keep(s: Seq<char>, suffix: Seq<char>) -> Seq<char> {
    if ends_with(s, suffix) {
        s.subrange(0, s.len() - suffix.len())
    } else {
        s
    }
}

/// The clean address of a page: the extension removed, exactly once, and an
/// `index` page folded into its directory.
pub open spec fn spec_strip_suffix(url_path: Seq<char>, ext: Seq<char>) -> Seq<char> {
    let stem = strip_or_keep(url_path, ext);
    match rfind(stem, '/') {
        Some(i) => if stem.subrange(i + 1, stem.len() as int) == seq!['i', 'n', 'd', 'e', 'x'] {
            stem.subrange(0, i).push('/')
        } else {
            stem
        },
        None => stem,
    }
}

/// The address a page is redirected to: `/about.html` is `/about`,
/// `/docs/index.html` is `/docs/`, and `/index.html` is `/`.
pub fn strip_suffix(url_path: &str, ext: &str) -> (r: String)
    ensures
        r@ == spec_strip_suffix(url_path@, ext@),
{
    let v = chars_of(url_path);
    let n = v.len();
    assert(v@.subrange(0, n as int) == url_path@);
    let e = ext.unicode_len();
    let stem_end = if e <= n && range_eq(&v, n - e, n, ext) {
        n - e
    } else {
        n
    };
    proof {
        if e <= n {
            assert(url_path@.subrange(url_path@.len() - ext@.len(), url_path@.len() as int)
                == v@.subrange(n - e, n as int));
        }
        assert(strip_or_keep(url_path@, ext@) == v@.subrange(0, stem_end as int));
    }
    let ghost stem = v@.subrange(0, stem_end as int);
    match rfind_in(&v, 0, stem_end, '/') {
        Some(i) => {
            proof {
                lemma_rfind(stem, '/');
                reveal_strlit("index");
                assert("index"@ == seq!['i', 'n', 'd', 'e', 'x']);
                assert(stem.subrange(i + 1, stem.len() as int) == v@.subrange(i + 1, stem_end as int));
                assert(stem.subrange(0, i as int) == v@.subrange(0, i as int));
            }
            if range_eq(&v, i + 1, stem_end, "index") {
                let mut out = string_of_range(&v, 0, i);
                push_char(&mut out, '/');
                out
            } else {
                string_of_range(&v, 0, stem_end)
            }
        },
        None => string_of_range(&v, 0, stem_end),
    }
}

/// What follows the last `/` (all of it when there is none).
pub open spec fn spec_last_segment(url_path: Seq<char>) -> Seq<char> {
    match rfind(url_path, '/') {
        Some(i) => url_path.subrange(i + 1, url_path.len() as int),
        None => url_path,
    }
}

/// The last segment of a request path: what decides whether it names a file.
pub fn last_segment(url_path: &str) -> (r: String)
    ensures
        r@ == spec_last_segment(url_path@),
{
    let v = chars_of(url_path);
    let n = v.len();
    assert(v@.subrange(0, n as int) == url_path@);
    match rfind_in(&v, 0, n, '/') {
        Some(i) => {
            proof {
                lemma_rfind(url_path@, '/');
            }
            string_of_range(&v, i + 1, n)
        },
        None => string_of_range(&v, 0, n),
    }
}

/// The extension this URL would be redirected out of: `.html` always, `.md`
/// only when serv is rendering markdown.
pub open spec fn spec_page_suffix(url_path: Seq<char>, markdown: bool) -> Option<Seq<char>> {
    if ends_with(url_path, ".html"@) {
        Some(".html"@)
    } else if markdown && ends_with(url_path, ".md"@) {
        Some(".md"@)
    } else {
        None
    }
}

/// The extension this URL would be redirected out of, if any. `.md` counts only
/// when serv is rendering markdown; otherwise it is an ordinary file to hand over.
pub fn page_suffix(url_path: &str, config: &Config) -> (r: Option<&'static str>)
    ensures
        match r {
            Some(s) => spec_page_suffix(url_path@, config.markdown) == Some(s@),
            None => spec_page_suffix(url_path@, config.markdown) is None,
        },
{
    let v = chars_of(url_path);
    let n = v.len();
    assert(v@.subrange(0, n as int) == url_path@);
    if range_ends_with(&v, 0, n, ".html") {
        Some(".html")
    } else if config.markdown && range_ends_with(&v, 0, n, ".md") {
        Some(".md")
    } else {
        None
    }
}

/// `path` with `ext` appended to its last name, not substituted for an
/// extension it may already have.
pub fn with_suffix(path: &str, ext: &str) -> (r: String)
    ensures
        r@ == path@ + ext@,
{
    let mut out = String::new();
    push_str(&mut out, path);
    push_str(&mut out, ext);
    out
}

/// `Path::file_name`: the last component, when it is a name.
pub open spec fn file_name(p: Seq<char>) -> Option<Seq<char>> {
    let c = components(p);
    if c.len() > 0 && c.last() != seq!['/'] && c.last() != seq!['.'] && c.last() != seq![
        '.',
        '.',
    ] {
        Some(c.last())
    } else {
        None
    }
}

/// The file name of `path`, when it has one.
pub fn file_name_of(path: &str) -> (r: Option<String>)
    ensures
        match r {
            Some(n) => file_name(path@) == Some(n@),
            None => file_name(path@) is None,
        },
{
    let parts = components_of(path);
    let ghost c = parts@.map_values(|s: String| s@);
    if parts.len() == 0 {
        return None;
    }
    let last = chars_of(parts[parts.len() - 1].as_str());
    assert(c.last() == last@);
    let k = last.len();
    assert(last@.subrange(0, k as int) == last@);
    proof {
        reveal_strlit("/");
        reveal_strlit(".");
        reveal_strlit("..");
        assert("/"@ == seq!['/']);
        assert("."@ == seq!['.']);
        assert(".."@ == seq!['.', '.']);
    }
    if range_eq(&last, 0, k, "/") || range_eq(&last, 0, k, ".") || range_eq(&last, 0, k, "..") {
        return None;
    }
    Some(string_of_range(&last, 0, k))
}

/// `Path::extension`: what follows the last `.` of the file name, unless that
/// dot opens the name.
pub open spec fn extension(p: Seq<char>) -> Option<Seq<char>> {
    match file_name(p) {
        None => None,
        Some(name) => match rfind(name, '.') {
            None => None,
            Some(i) => if i == 0 {
                None
            } else {
                Some(name.subrange(i + 1, name.len() as int))
            },
        },
    }
}

/// `md` in any ASCII case.
pub open spec fn is_md(ext: Seq<char>) -> bool {
    ext.len() == 2 && (ext[0] == 'm' || ext[0] == 'M') && (ext[1] == 'd' || ext[1] == 'D')
}

pub open spec fn spec_is_markdown(p: Seq<char>) -> bool {
    match extension(p) {
        Some(ext) => is_md(ext),
        None => false,
    }
}

/// Whether a path names a markdown file, going by its extension.
pub fn is_markdown(path: &str) -> (r: bool)
    ensures
        r == spec_is_markdown(path@),
{
    let parts = components_of(path);
    let ghost c = parts@.map_values(|s: String| s@);
    if parts.len() == 0 {
        return false;
    }
    let last = chars_of(parts[parts.len() - 1].as_str());
    assert(c.last() == last@);
    let k = last.len();
    assert(last@.subrange(0, k as int) == last@);
    proof {
        reveal_strlit("/");
        reveal_strlit(".");
        reveal_strlit("..");
    }
    if range_eq(&last, 0, k, "/") || range_eq(&last, 0, k, ".") || range_eq(&last, 0, k, "..") {
        assert("/"@ == seq!['/']);
        assert("."@ == seq!['.']);
        assert(".."@ == seq!['.', '.']);
        return false;
    }
    assert("/"@ == seq!['/']);
    assert("."@ == seq!['.']);
    assert(".."@ == seq!['.', '.']);
    match rfind_in(&last, 0, k, '.') {
        None => false,
        Some(i) => {
            proof {
                lemma_rfind(last@, '.');
            }
            if i == 0 {
                return false;
            }
            k - i - 1 == 2 && (last[i + 1] == 'm' || last[i + 1] == 'M') && (last[i + 2] == 'd'
                || last[i + 2] == 'D')
        },
    }
}

/// `s` holds `p` somewhere.
pub open spec fn contains_text(s: Seq<char>, p: Seq<char>) -> bool {
    exists|i: int| 0 <= i && i + p.len() <= s.len() && #[trigger] s.subrange(i, i + p.len()) == p
}

fn text_contains(s: &str, p: &str) -> (r: bool)
    ensures
        r == contains_text(s@, p@),
{
    let v = chars_of(s);
    let m = p.unicode_len();
    let n = v.len();
    if m > n {
        return false;
    }
    let mut i: usize = 0;
    while i <= n - m
        invariant
            v@ == s@,
            n == v.len(),
            m == p@.len(),
            m <= n,
            i <= n - m + 1,
            forall|j: int| 0 <= j < i ==> #[trigger] s@.subrange(j, j + m) != p@,
        decreases n - m + 1 - i,
    {
        if range_eq(&v, i, i + m, p) {
            return true;
        }
        if i == n - m {
            return false;
        }
        i += 1;
    }
    false
}

/// Browsers ask for `text/html` when navigating; a last segment with no dot
/// in it is a route too.
pub open spec fn spec_wants_html(accept: Option<Seq<char>>, url_path: Seq<char>) -> bool {
    (match accept {
        Some(a) => contains_text(a, "text/html"@),
        None => false,
    }) || !spec_last_segment(url_path).contains('.')
}

/// Only navigations get the SPA shell — a missing script should stay a 404
/// rather than turn into an HTML file with a confusing MIME type. Browsers ask
/// for `text/html` when navigating; a bare path with no extension is treated as
/// a route too, so `curl /some/route` behaves the way you would expect.
pub fn wants_html(accept: Option<&str>, url_path: &str) -> (r: bool)
    ensures
        r == spec_wants_html(
            match accept {
                Some(a) => Some(a@),
                None => None,
            },
            url_path@,
        ),
{
    let accepts = match accept {
        Some(a) => text_contains(a, "text/html"),
        None => false,
    };
    if accepts {
        return true;
    }
    let seg = last_segment(url_path);
    let sv = chars_of(seg.as_str());
    let mut i: usize = 0;
    while i < sv.len()
        invariant
            i <= sv.len(),
            sv@ == spec_last_segment(url_path@),
            !(match accept {
                Some(a) => contains_text(a@, "text/html"@),
                None => false,
            }),
            forall|j: int| 0 <= j < i ==> sv@[j] != '.',
        decreases sv.len() - i,
    {
        if sv[i] == '.' {
            assert(sv@[i as int] == '.');
            return false;
        }
        i += 1;
    }
    true
}

/// `location`, with the request's query string carried over when it had one
/// — an empty one included.
pub open spec fn spec_with_query(location: Seq<char>, query: Option<Seq<char>>) -> Seq<char> {
    match query {
        Some(q) => location + seq!['?'] + q,
        None => location,
    }
}

pub fn with_query(location: &str, query: Option<&str>) -> (r: String)
    ensures
        r@ == spec_with_query(
            location@,
            match query {
                Some(q) => Some(q@),
                None => None,
            },
        ),
{
    let mut out = String::new();
    push_str(&mut out, location);
    match query {
        Some(q) => {
            push_char(&mut out, '?');
            push_str(&mut out, q);
        },
        None => {},
    }
    out
}


// ---------------------------------------------------------------------------
// Routing

/// The paths a request could be answered from, all derived from the
/// resolved target.
pub struct Candidates {
    /// Where the request path lands below the root.
    pub target: String,
    /// `target/index.html`.
    pub index: String,
    /// `target/index.md`.
    pub index_md: String,
    /// `target/README.md`.
    pub readme: String,
    /// `target.html`.
    pub html: String,
    /// `target.md`.
    pub md: String,
}

pub struct CandidatesView {
    pub target: Seq<char>,
    pub index: Seq<char>,
    pub index_md: Seq<char>,
    pub readme: Seq<char>,
    pub html: Seq<char>,
    pub md: Seq<char>,
}

impl View for Candidates {
    type V = CandidatesView;

    open spec fn view(&self) -> CandidatesView {
        CandidatesView {
            target: self.target@,
            index: self.index@,
            index_md: self.index_md@,
            readme: self.readme@,
            html: self.html@,
            md: self.md@,
        }
    }
}

/// The candidates for a resolved target.
pub open spec fn spec_candidates_of(target: Seq<char>) -> CandidatesView {
    CandidatesView {
        target,
        index: push_name(target, "index.html"@),
        index_md: push_name(target, "index.md"@),
        readme: push_name(target, "README.md"@),
        html: target + ".html"@,
        md: target + ".md"@,
    }
}

/// The candidates for a request path, or `None` when it does not resolve.
pub open spec fn spec_candidates(root: Seq<char>, url_path: Seq<char>) -> Option<CandidatesView> {
    match spec_resolve(root, url_path) {
        Some(t) => Some(spec_candidates_of(t)),
        None => None,
    }
}

fn join_name(path: &str, name: &str) -> (r: String)
    ensures
        r@ == push_name(path@, name@),
{
    let v = chars_of(path);
    let mut out = String::new();
    push_str(&mut out, path);
    if v.len() > 0 && v[v.len() - 1] != '/' {
        push_char(&mut out, '/');
    }
    push_str(&mut out, name);
    out
}

/// Every path the routing of `url_path` could look at, or `None` when the
/// request path does not resolve below the root.
pub fn candidates(config: &Config, url_path: &str) -> (r: Option<Candidates>)
    ensures
        match r {
            Some(c) => spec_candidates(config.root@, url_path@) == Some(c@),
            None => spec_candidates(config.root@, url_path@) is None,
        },
{
    let target = match resolve(config.root.as_str(), url_path) {
        Some(t) => t,
        None => return None,
    };
    let index = join_name(target.as_str(), "index.html");
    let index_md = join_name(target.as_str(), "index.md");
    let readme = join_name(target.as_str(), "README.md");
    let html = with_suffix(target.as_str(), ".html");
    let md = with_suffix(target.as_str(), ".md");
    Some(Candidates { target, index, index_md, readme, html, md })
}

/// What the file system says about the candidates, and about the two pages
/// a miss can fall back on.
pub struct Facts {
    /// The target, canonicalised; `None` when it could not be.
    pub canonical: Option<String>,
    /// The target is a file.
    pub is_file: bool,
    /// The target is a directory.
    pub is_dir: bool,
    /// `index` is a file.
    pub index: bool,
    /// `index_md` is a file.
    pub index_md: bool,
    /// `readme` is a file.
    pub readme: bool,
    /// `html` is a file.
    pub html: bool,
    /// `md` is a file.
    pub md: bool,
    /// The SPA shell, when there is one, is a file.
    pub spa: bool,
    /// The `--not-found` page, when there is one, is a file.
    pub not_found: bool,
}

/// The answer to a request.
#[derive(Debug)]
pub enum Outcome {
    /// Anything but GET and HEAD: `405`, as plain text.
    NotAllowed,
    /// `301` to this location.
    Redirect(String),
    /// Send this file with this status.
    File(String, u16),
    /// Render this markdown file as a page.
    Document(String),
    /// List this directory.
    Listing(String),
    /// serv's own not-found page.
    NotFound,
}

pub enum OutcomeView {
    NotAllowed,
    Redirect(Seq<char>),
    File(Seq<char>, u16),
    Document(Seq<char>),
    Listing(Seq<char>),
    NotFound,
}

impl View for Outcome {
    type V = OutcomeView;

    open spec fn view(&self) -> OutcomeView {
        match self {
            Outcome::NotAllowed => OutcomeView::NotAllowed,
            Outcome::Redirect(l) => OutcomeView::Redirect(l@),
            Outcome::File(p, s) => OutcomeView::File(p@, *s),
            Outcome::Document(p) => OutcomeView::Document(p@),
            Outcome::Listing(p) => OutcomeView::Listing(p@),
            Outcome::NotFound => OutcomeView::NotFound,
        }
    }
}

pub open spec fn opt_view(o: Option<String>) -> Option<Seq<char>> {
    match o {
        Some(s) => Some(s@),
        None => None,
    }
}

/// Nothing on disk matched. A single-page app answers navigations with its
/// shell; anything else gets the `--not-found` page when it exists, and
/// serv's own otherwise.
pub open spec fn spec_miss(
    config: Config,
    accept: Option<Seq<char>>,
    url_path: Seq<char>,
    facts: Facts,
) -> OutcomeView {
    if config.spa is Some && spec_wants_html(accept, url_path) && facts.spa {
        OutcomeView::File(config.spa->0@, 200)
    } else if config.not_found is Some && facts.not_found {
        OutcomeView::File(config.not_found->0@, 404)
    } else {
        OutcomeView::NotFound
    }
}

/// The answer for a directory target.
pub open spec fn spec_directory(
    config: Config,
    url_path: Seq<char>,
    query: Option<Seq<char>>,
    c: CandidatesView,
    facts: Facts,
) -> OutcomeView {
    if !ends_with(url_path, "/"@) {
        // Relative links inside the page only resolve under a trailing slash.
        OutcomeView::Redirect(spec_with_query(url_path + "/"@, query))
    } else if facts.index {
        OutcomeView::File(c.index, 200)
    } else if config.markdown && facts.index_md {
        OutcomeView::Document(c.index_md)
    } else if config.markdown && facts.readme {
        OutcomeView::Document(c.readme)
    } else {
        OutcomeView::Listing(c.target)
    }
}

/// Which answer a request gets, given what the file system says.
pub open spec fn spec_route(
    method: Seq<char>,
    url_path: Seq<char>,
    query: Option<Seq<char>>,
    accept: Option<Seq<char>>,
    config: Config,
    facts: Facts,
) -> OutcomeView {
    let miss = spec_miss(config, accept, url_path, facts);
    if method != "GET"@ && method != "HEAD"@ {
        OutcomeView::NotAllowed
    } else if config.only is Some {
        // One file, at `/` and nowhere else.
        let only = config.only->0@;
        if url_path == "/"@ {
            if config.markdown && spec_is_markdown(only) {
                OutcomeView::Document(only)
            } else {
                OutcomeView::File(only, 200)
            }
        } else {
            miss
        }
    } else {
        match spec_candidates(config.root@, url_path) {
            None => miss,
            Some(c) => if !(match facts.canonical {
                Some(p) => path_starts_with(p@, config.root@),
                None => true,
            }) {
                miss
            } else if !config.ext && spec_page_suffix(url_path, config.markdown) is Some
                && facts.is_file {
                // One page, one address.
                OutcomeView::Redirect(
                    spec_with_query(
                        spec_strip_suffix(
                            url_path,
                            spec_page_suffix(url_path, config.markdown)->0,
                        ),
                        query,
                    ),
                )
            } else if facts.is_file {
                if config.markdown && spec_is_markdown(c.target) {
                    OutcomeView::Document(c.target)
                } else {
                    OutcomeView::File(c.target, 200)
                }
            } else if facts.is_dir {
                spec_directory(config, url_path, query, c, facts)
            } else if !config.ext && facts.html {
                OutcomeView::File(c.html, 200)
            } else if !config.ext && config.markdown && facts.md {
                OutcomeView::Document(c.md)
            } else {
                miss
            }
        }
    }
}

fn copy(s: &String) -> (r: String)
    ensures
        r@ == s@,
{
    let mut out = String::new();
    push_str(&mut out, s.as_str());
    out
}

fn miss(config: &Config, accept: Option<&str>, url_path: &str, facts: &Facts) -> (r: Outcome)
    ensures
        r@ == spec_miss(
            *config,
            match accept {
                Some(a) => Some(a@),
                None => None,
            },
            url_path@,
            *facts,
        ),
{
    match &config.spa {
        Some(spa) => {
            if wants_html(accept, url_path) && facts.spa {
                return Outcome::File(copy(spa), 200);
            }
        },
        None => {},
    }
    match &config.not_found {
        Some(page) => {
            if facts.not_found {
                return Outcome::File(copy(page), 404);
            }
        },
        None => {},
    }
    Outcome::NotFound
}

fn is_text(s: &str, lit: &str) -> (r: bool)
    ensures
        r == (s@ == lit@),
{
    let v = chars_of(s);
    assert(v@.subrange(0, v.len() as int) == s@);
    range_eq(&v, 0, v.len(), lit)
}

/// Decide the answer to a request. `facts` describes the paths named by
/// `candidates(config, url_path)`, and the SPA shell and not-found page.
pub fn route(
    method: &str,
    url_path: &str,
    query: Option<&str>,
    accept: Option<&str>,
    config: &Config,
    facts: &Facts,
) -> (r: Outcome)
    ensures
        r@ == spec_route(
            method@,
            url_path@,
            match query {
                Some(q) => Some(q@),
                None => None,
            },
            match accept {
                Some(a) => Some(a@),
                None => None,
            },
            *config,
            *facts,
        ),
{
    if !is_text(method, "GET") && !is_text(method, "HEAD") {
        return Outcome::NotAllowed;
    }
    match &config.only {
        Some(only) => {
            if is_text(url_path, "/") {
                if config.markdown && is_markdown(only.as_str()) {
                    return Outcome::Document(copy(only));
                }
                return Outcome::File(copy(only), 200);
            }
            return miss(config, accept, url_path, facts);
        },
        None => {},
    }
    let c = match candidates(config, url_path) {
        Some(c) => c,
        None => return miss(config, accept, url_path, facts),
    };
    let inside = match &facts.canonical {
        Some(p) => is_within(config.root.as_str(), Some(p.as_str())),
        None => true,
    };
    if !inside {
        return miss(config, accept, url_path, facts);
    }
    if !config.ext && facts.is_file {
        match page_suffix(url_path, config) {
            Some(ext) => {
                let clean = strip_suffix(url_path, ext);
                return Outcome::Redirect(with_query(clean.as_str(), query));
            },
            None => {},
        }
    }
    if facts.is_file {
        if config.markdown && is_markdown(c.target.as_str()) {
            return Outcome::Document(c.target);
        }
        return Outcome::File(c.target, 200);
    }
    if facts.is_dir {
        let v = chars_of(url_path);
        assert(v@.subrange(0, v.len() as int) == url_path@);
        if !range_ends_with(&v, 0, v.len(), "/") {
            let slashed = with_suffix(url_path, "/");
            return Outcome::Redirect(with_query(slashed.as_str(), query));
        }
        if facts.index {
            return Outcome::File(c.index, 200);
        }
        if config.markdown && facts.index_md {
            return Outcome::Document(c.index_md);
        }
        if config.markdown && facts.readme {
            return Outcome::Document(c.readme);
        }
        return Outcome::Listing(c.target);
    }
    if !config.ext && facts.html {
        return Outcome::File(c.html, 200);
    }
    if !config.ext && config.markdown && facts.md {
        return Outcome::Document(c.md);
    }
    miss(config, accept, url_path, facts)
}


// ---------------------------------------------------------------------------
// What routing promises

/// Anything but GET and HEAD is refused before the path is looked at: the
/// answer does not depend on the path, the facts or the configuration.
pub proof fn a_refused_method_is_refused_first(
    method: Seq<char>,
    url_path: Seq<char>,
    query: Option<Seq<char>>,
    accept: Option<Seq<char>>,
    config: Config,
    facts: Facts,
)
    requires
        method != "GET"@,
        method != "HEAD"@,
    ensures
        spec_route(method, url_path, query, accept, config, facts) == OutcomeView::NotAllowed,
{
}

proof fn lemma_extends(p: Seq<char>, q: Seq<char>, root: Seq<char>)
    requires
        starts_with(p, root),
        p.len() <= q.len(),
        q.subrange(0, p.len() as int) == p,
    ensures
        starts_with(q, root),
{
    assert(q.subrange(0, root.len() as int) == p.subrange(0, root.len() as int));
}

/// Every candidate path lies below the root.
proof fn lemma_candidates_below_root(root: Seq<char>, url_path: Seq<char>)
    ensures
        spec_candidates(root, url_path) matches Some(c) ==> {
            &&& starts_with(c.target, root)
            &&& starts_with(c.index, root)
            &&& starts_with(c.index_md, root)
            &&& starts_with(c.readme, root)
            &&& starts_with(c.html, root)
            &&& starts_with(c.md, root)
        },
{
    a_resolved_path_stays_below_the_root(root, url_path);
    match spec_resolve(root, url_path) {
        None => {},
        Some(t) => {
            let c = spec_candidates_of(t);
            assert(c.index.subrange(0, t.len() as int) == t);
            lemma_extends(t, c.index, root);
            assert(c.index_md.subrange(0, t.len() as int) == t);
            lemma_extends(t, c.index_md, root);
            assert(c.readme.subrange(0, t.len() as int) == t);
            lemma_extends(t, c.readme, root);
            assert(c.html.subrange(0, t.len() as int) == t);
            lemma_extends(t, c.html, root);
            assert(c.md.subrange(0, t.len() as int) == t);
            lemma_extends(t, c.md, root);
        },
    }
}

/// Nothing outside the served folder is ever handed out: every file sent,
/// document rendered or folder listed is below the root, or is one of the
/// files the command line named (the SPA shell, the not-found page, the
/// single file).
pub proof fn nothing_outside_the_root_is_served(
    method: Seq<char>,
    url_path: Seq<char>,
    query: Option<Seq<char>>,
    accept: Option<Seq<char>>,
    config: Config,
    facts: Facts,
)
    ensures
        ({
            let named = |p: Seq<char>|
                starts_with(p, config.root@) || opt_view(config.spa) == Some(p) || opt_view(
                    config.not_found,
                ) == Some(p) || opt_view(config.only) == Some(p);
            match spec_route(method, url_path, query, accept, config, facts) {
                OutcomeView::File(p, _) => named(p),
                OutcomeView::Document(p) => named(p),
                OutcomeView::Listing(p) => named(p),
                _ => true,
            }
        }),
{
    lemma_candidates_below_root(config.root@, url_path);
}

/// Pointed at one file, serv serves that file at `/` and nothing else: every
/// other path gets the not-found answer.
pub proof fn a_single_file_is_served_at_the_root_only(
    method: Seq<char>,
    url_path: Seq<char>,
    query: Option<Seq<char>>,
    accept: Option<Seq<char>>,
    config: Config,
    facts: Facts,
)
    requires
        config.only is Some,
        config.spa is None,
        config.not_found is None,
        method == "GET"@ || method == "HEAD"@,
    ensures
        url_path == "/"@ ==> (spec_route(method, url_path, query, accept, config, facts)
            == OutcomeView::File(config.only->0@, 200) || spec_route(
            method,
            url_path,
            query,
            accept,
            config,
            facts,
        ) == OutcomeView::Document(config.only->0@)),
        url_path != "/"@ ==> spec_route(method, url_path, query, accept, config, facts)
            == OutcomeView::NotFound,
{
}

/// A file on disk is served as itself: the SPA shell and the not-found page
/// never shadow it, and it is only redirected when its address carries a
/// page extension clean URLs remove.
pub proof fn the_shell_never_shadows_a_real_file(
    method: Seq<char>,
    url_path: Seq<char>,
    query: Option<Seq<char>>,
    accept: Option<Seq<char>>,
    config: Config,
    facts: Facts,
)
    requires
        method == "GET"@ || method == "HEAD"@,
        config.only is None,
        spec_candidates(config.root@, url_path) is Some,
        facts.canonical is None || path_starts_with(facts.canonical->0@, config.root@),
        facts.is_file,
        config.ext || spec_page_suffix(url_path, config.markdown) is None,
    ensures
        ({
            let t = spec_candidates(config.root@, url_path)->0.target;
            spec_route(method, url_path, query, accept, config, facts) == OutcomeView::File(t, 200)
                || spec_route(method, url_path, query, accept, config, facts)
                == OutcomeView::Document(t)
        }),
{
}

/// A folder asked for with its trailing slash is answered by its own
/// `index.html` when that is a file, sent as it is with `200`, whatever else
/// the folder holds and whether or not markdown is rendered.
pub proof fn a_folder_with_an_index_serves_it(
    method: Seq<char>,
    url_path: Seq<char>,
    query: Option<Seq<char>>,
    accept: Option<Seq<char>>,
    config: Config,
    facts: Facts,
)
    requires
        method == "GET"@ || method == "HEAD"@,
        config.only is None,
        spec_resolve(config.root@, url_path) is Some,
        facts.canonical is None || path_starts_with(facts.canonical->0@, config.root@),
        !facts.is_file,
        facts.is_dir,
        url_path.len() > 0 && url_path.last() == '/',
        facts.index,
    ensures
        spec_route(method, url_path, query, accept, config, facts) == OutcomeView::File(
            push_name(spec_resolve(config.root@, url_path)->0, "index.html"@),
            200,
        ),
{
    assert(ends_with(url_path, "/"@)) by {
        reveal_strlit("/");
        assert(url_path.subrange(url_path.len() - 1, url_path.len() as int) =~= "/"@);
    }
}

/// A generated listing is only ever given for a folder without an
/// `index.html` of its own.
pub proof fn a_listing_only_where_there_is_no_index(
    method: Seq<char>,
    url_path: Seq<char>,
    query: Option<Seq<char>>,
    accept: Option<Seq<char>>,
    config: Config,
    facts: Facts,
)
    requires
        spec_route(method, url_path, query, accept, config, facts) is Listing,
    ensures
        facts.is_dir,
        !facts.index,
        !(config.markdown && (facts.index_md || facts.readme)),
{
}

/// HTML wins every collision: where `about.html` and `about.md` both exist,
/// `/about` is the HTML page.
pub proof fn html_wins_over_markdown(
    method: Seq<char>,
    url_path: Seq<char>,
    query: Option<Seq<char>>,
    accept: Option<Seq<char>>,
    config: Config,
    facts: Facts,
)
    requires
        method == "GET"@ || method == "HEAD"@,
        config.only is None,
        !config.ext,
        spec_candidates(config.root@, url_path) is Some,
        facts.canonical is None || path_starts_with(facts.canonical->0@, config.root@),
        !facts.is_file,
        !facts.is_dir,
        facts.html,
    ensures
        spec_route(method, url_path, query, accept, config, facts) == OutcomeView::File(
            spec_candidates(config.root@, url_path)->0.html,
            200,
        ),
{
}


/// Without `--markdown` a `.md` file is handed over exactly as it is on disk:
/// nothing is ever rendered as a document.
pub proof fn without_markdown_nothing_is_rendered(
    method: Seq<char>,
    url_path: Seq<char>,
    query: Option<Seq<char>>,
    accept: Option<Seq<char>>,
    config: Config,
    facts: Facts,
)
    requires
        !config.markdown,
    ensures
        !(spec_route(method, url_path, query, accept, config, facts) is Document),
{
}

/// The SPA shell answers navigations only: a missing script or stylesheet —
/// a last segment with a dot, asked for without `text/html` — stays a miss,
/// answered with a `404` rather than HTML with the wrong content type.
pub proof fn a_missing_asset_never_gets_the_shell(
    config: Config,
    accept: Option<Seq<char>>,
    url_path: Seq<char>,
    facts: Facts,
)
    requires
        !spec_wants_html(accept, url_path),
    ensures
        !(spec_miss(config, accept, url_path, facts) matches OutcomeView::File(_, 200)),
{
}


proof fn lemma_push_name_suffix(p: Seq<char>, n: Seq<char>, e: Seq<char>)
    ensures
        push_name(p, n) + e == push_name(p, n + e),
{
    if p.len() == 0 {
    } else if p.last() == '/' {
        assert((p + n) + e == p + (n + e));
    } else {
        assert((p + seq!['/'] + n) + e == p + seq!['/'] + (n + e));
    }
}

proof fn lemma_contains_before(d: Seq<char>, e: Seq<char>, c: char)
    ensures
        d.contains(c) ==> (d + e).contains(c),
{
    if d.contains(c) {
        let k = choose|k: int| 0 <= k < d.len() && d[k] == c;
        assert((d + e)[k] == c);
    }
}

/// The last raw segment of a page's address, with its extension, walked from
/// `trail`: it names the page file, and without the extension it names the
/// file's stem in the same folder.
proof fn lemma_walk_page(trail: Seq<Seq<char>>, r: Seq<char>, ext: Seq<char>)
    requires
        page_extension(ext),
        r.len() > 0,
        walk(trail, seq![r + ext]) is Some,
        decode_segment(r) != Some(seq!['.']),
        decode_segment(r) != Some(seq!['.', '.']),
    ensures
        decode_segment(r) is Some,
        walk(trail, seq![r + ext]) == Some(trail.push(decode_segment(r)->0 + ext)),
        walk(trail, seq![r]) == Some(trail.push(decode_segment(r)->0)),
{
    reveal_strlit(".html");
    reveal_strlit(".md");
    let x = r + ext;
    assert(seq![x][0] == x);
    assert(seq![x].drop_first() == Seq::<Seq<char>>::empty());
    assert(x.len() > 0);
    assert(decode_segment(x) is Some);
    lemma_decode_with_extension(r, ext);
    let d = decode_segment(r)->0;
    let n = d + ext;
    assert(n.last() != '.');
    assert(n != seq!['.']);
    assert(n != seq!['.', '.']);
    assert(!n.contains('/') && !n.contains('\\') && !n.contains('\0'));
    lemma_walk_one(trail, x, n);
    lemma_contains_before(d, ext, '/');
    lemma_contains_before(d, ext, '\\');
    lemma_contains_before(d, ext, '\0');
    lemma_walk_one(trail, r, d);
}

/// Clean URLs give a page one address: the address a page is redirected to
/// finds the same file among what it can serve — `/about.html` goes to
/// `/about`, whose `.html` candidate it is, and `/docs/index.html` to
/// `/docs/`, whose index it is; the same for `.md`. Left out is a file whose
/// name before the extension is empty, `.` or `..`: its clean address names a
/// folder instead.
pub proof fn a_page_keeps_one_address(root: Seq<char>, url_path: Seq<char>, ext: Seq<char>)
    requires
        page_extension(ext),
        ends_with(url_path, ext),
        spec_resolve(root, url_path) is Some,
        spec_last_segment(url_path.subrange(0, url_path.len() - ext.len())).len() > 0,
        decode_segment(spec_last_segment(url_path.subrange(0, url_path.len() - ext.len())))
            != Some(seq!['.']),
        decode_segment(spec_last_segment(url_path.subrange(0, url_path.len() - ext.len())))
            != Some(seq!['.', '.']),
    ensures
        spec_candidates(root, spec_strip_suffix(url_path, ext)) matches Some(c) && if ext
            == ".html"@ {
            c.html == spec_resolve(root, url_path)->0 || c.index == spec_resolve(root, url_path)->0
        } else {
            c.md == spec_resolve(root, url_path)->0 || c.index_md == spec_resolve(
                root,
                url_path,
            )->0
        },
{
    reveal_strlit(".html");
    reveal_strlit(".md");
    reveal_strlit("index");
    reveal_strlit("index.html");
    reveal_strlit("index.md");
    let stem = url_path.subrange(0, url_path.len() - ext.len());
    assert(url_path == stem + ext);
    assert(strip_or_keep(url_path, ext) == stem);
    lemma_rfind(stem, '/');
    let r = spec_last_segment(stem);
    assert(forall|k: int| 0 <= k < ext.len() ==> ext[k] != '/');
    match rfind(stem, '/') {
        Some(i) => {
            let dir = stem.subrange(0, i + 1);
            assert(r == stem.subrange(i + 1, stem.len() as int));
            assert(stem == dir + r);
            assert(url_path == dir + (r + ext));
            assert forall|k: int| 0 <= k < r.len() implies r[k] != '/' by {
                assert(r[k] == stem[i + 1 + k]);
            }
            assert forall|k: int| 0 <= k < (r + ext).len() implies (r + ext)[k] != '/' by {
                if k < r.len() {
                    assert((r + ext)[k] == r[k]);
                } else {
                    assert((r + ext)[k] == ext[k - r.len()]);
                }
            }
            lemma_split_dir_then_name(dir, r + ext);
            lemma_split_dir_then_name(dir, r);
            let front = split(dir, '/').drop_last();
            lemma_walk_concat(Seq::empty(), front, seq![r + ext]);
            lemma_walk_concat(Seq::empty(), front, seq![r]);
            assert(walk(Seq::empty(), front) is Some);
            let trail = walk(Seq::empty(), front)->0;
            lemma_walk_page(trail, r, ext);
            let d = decode_segment(r)->0;
            let base = join_all(root, trail);
            assert(trail.push(d + ext).drop_last() == trail);
            assert(spec_resolve(root, url_path) == Some(push_name(base, d + ext)));
            if r == "index"@ {
                assert(stem.subrange(0, i).push('/') == dir);
                lemma_split_dir_then_name(dir, Seq::empty());
                assert(dir + Seq::<char>::empty() == dir);
                lemma_walk_concat(Seq::empty(), front, seq![Seq::<char>::empty()]);
                assert(seq![Seq::<char>::empty()].drop_first() == Seq::<Seq<char>>::empty());
                assert(seq![Seq::<char>::empty()][0].len() == 0);
                assert(walk(trail, Seq::<Seq<char>>::empty()) == Some(trail));
                assert(walk(trail, seq![Seq::<char>::empty()]) == Some(trail));
                assert(spec_resolve(root, dir) == Some(base));
                lemma_decode_plain(r);
                assert(d + ext == "index"@ + ext);
                assert("index"@ == seq!['i', 'n', 'd', 'e', 'x']);
                assert(spec_strip_suffix(url_path, ext) == dir);
                assert(spec_candidates(root, dir) == Some(spec_candidates_of(base)));
                assert("index"@ + ".html"@ == "index.html"@);
                assert("index"@ + ".md"@ == "index.md"@);
            } else {
                assert(trail.push(d).drop_last() == trail);
                assert(spec_resolve(root, stem) == Some(push_name(base, d)));
                lemma_push_name_suffix(base, d, ext);
                assert("index"@ == seq!['i', 'n', 'd', 'e', 'x']);
                assert(spec_strip_suffix(url_path, ext) == stem);
                assert(spec_candidates(root, stem) == Some(spec_candidates_of(push_name(base, d))));
            }
        },
        None => {
            assert(r == stem);
            assert forall|k: int| 0 <= k < url_path.len() implies url_path[k] != '/' by {
                if k < stem.len() {
                    assert(url_path[k] == stem[k]);
                } else {
                    assert(url_path[k] == ext[k - stem.len()]);
                }
            }
            lemma_find_none(url_path, '/');
            lemma_find_none(stem, '/');
            assert(split(url_path, '/') == seq![stem + ext]);
            assert(split(stem, '/') == seq![stem]);
            let trail = Seq::<Seq<char>>::empty();
            lemma_walk_page(trail, r, ext);
            let d = decode_segment(r)->0;
            assert(trail.push(d + ext).drop_last() == trail);
            assert(trail.push(d).drop_last() == trail);
            assert(join_all(root, trail) == root);
            assert(spec_resolve(root, url_path) == Some(push_name(root, d + ext)));
            assert(spec_resolve(root, stem) == Some(push_name(root, d)));
            lemma_push_name_suffix(root, d, ext);
            assert(spec_strip_suffix(url_path, ext) == stem);
            assert(spec_candidates(root, stem) == Some(spec_candidates_of(push_name(root, d))));
        },
    }
}


/// With `--ext`, paths are served exactly as written: whether `about.html` or
/// `about.md` exists next to a requested `about` makes no difference.
pub proof fn literal_urls_look_for_no_page(
    method: Seq<char>,
    url_path: Seq<char>,
    query: Option<Seq<char>>,
    accept: Option<Seq<char>>,
    config: Config,
    facts: Facts,
    html: bool,
    md: bool,
)
    requires
        config.ext,
    ensures
        spec_route(method, url_path, query, accept, config, facts) == spec_route(
            method,
            url_path,
            query,
            accept,
            config,
            Facts { html, md, ..facts },
        ),
{
}

} // verus!
