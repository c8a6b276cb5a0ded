//! The 404: a missing sort in the printer's forme.

use vstd::prelude::*;

use crate::pages::{escape_into, html_escape, STYLE, FAVICON};
use crate::text::{
    chars_of, lemma_rfind, push_char, push_str, rfind, rfind_in, starts_with, string_of_range,
};

verus! {

/// The 404: a missing sort in the printer's forme.
pub struct NotFound {
    /// The address that was asked for, shown back verbatim.
    pub path: String,
    /// Where "up one level" goes.
    pub parent: String,
    /// Host and port, so the address reads the way the browser shows it.
    pub host: String,
}

/// `str::trim_end_matches('/')`.
pub open spec fn trim_end_slashes(s: Seq<char>) -> Seq<char>
    decreases s.len(),
{
    if s.len() > 0 && s.last() == '/' {
        trim_end_slashes(s.drop_last())
    } else {
        s
    }
}

/// Up one level from a request path: a trailing slash is ignored, then
/// everything after the last `/` goes; with no `/` left, the root.
pub open spec fn spec_parent_of(url_path: Seq<char>) -> Seq<char> {
    let trimmed = trim_end_slashes(url_path);
    match rfind(trimmed, '/') {
        Some(cut) => trimmed.subrange(0, cut + 1),
        None => seq!['/'],
    }
}

pub fn parent_of(url_path: &str) -> (r: String)
    ensures
        r@ == spec_parent_of(url_path@),
{
    let v = chars_of(url_path);
    let mut end = v.len();
    assert(v@.subrange(0, end as int) == url_path@);
    while end > 0 && v[end - 1] == '/'
        invariant
            end <= v.len(),
            v@ == url_path@,
            trim_end_slashes(v@.subrange(0, end as int)) == trim_end_slashes(url_path@),
        decreases end,
    {
        assert(v@.subrange(0, end as int).drop_last() == v@.subrange(0, end - 1));
        end -= 1;
    }
    assert(trim_end_slashes(v@.subrange(0, end as int)) == v@.subrange(0, end as int));
    match rfind_in(&v, 0, end, '/') {
        Some(cut) => {
            proof {
                lemma_rfind(v@.subrange(0, end as int), '/');
                assert(v@.subrange(0, end as int).subrange(0, cut + 1) == v@.subrange(0, cut + 1));
            }
            string_of_range(&v, 0, cut + 1)
        },
        None => {
            let mut s = String::new();
            push_char(&mut s, '/');
            s
        },
    }
}

fn copy_str(s: &str) -> (r: String)
    ensures
        r@ == s@,
{
    let mut out = String::new();
    push_str(&mut out, s);
    out
}

impl NotFound {
    pub fn new(url_path: &str, host: &str) -> (r: Self)
        ensures
            r.path@ == url_path@,
            r.parent@ == spec_parent_of(url_path@),
            r.host@ == host@,
    {
        NotFound { parent: parent_of(url_path), path: copy_str(url_path), host: copy_str(host) }
    }

    pub fn style(&self) -> (r: &'static str)
        ensures
            r == STYLE,
    {
        STYLE
    }

    pub open spec fn spec_render(&self) -> Seq<char> {
        "<!doctype html><html lang=\"en\"><head><meta charset=\"utf-8\"><title>Not found</title><link rel=\"icon\" href=\""@
            + html_escape(FAVICON@) + "\"><style>"@ + STYLE@
            + "</style></head><body><main><h1>Not found</h1><p>Nothing answers to <code>"@
            + html_escape(self.host@) + html_escape(self.path@)
            + "</code> here.</p><p><a href=\""@ + html_escape(self.parent@)
            + "\">Up one level</a></p></main></body></html>"@
    }

    /// The page, with the path and host escaped: they come straight off the
    /// wire.
    pub fn render(&self) -> (r: String)
        ensures
            r@ == self.spec_render(),
    {
        let mut out = String::new();
        push_str(
            &mut out,
            "<!doctype html><html lang=\"en\"><head><meta charset=\"utf-8\"><title>Not found</title><link rel=\"icon\" href=\"",
        );
        escape_into(&mut out, FAVICON);
        push_str(&mut out, "\"><style>");
        push_str(&mut out, STYLE);
        push_str(
            &mut out,
            "</style></head><body><main><h1>Not found</h1><p>Nothing answers to <code>",
        );
        escape_into(&mut out, self.host.as_str());
        escape_into(&mut out, self.path.as_str());
        push_str(&mut out, "</code> here.</p><p><a href=\"");
        escape_into(&mut out, self.parent.as_str());
        push_str(&mut out, "\">Up one level</a></p></main></body></html>");
        out
    }
}


/// Up one level is always a directory: the address it gives ends in `/`, and
/// it is the root or a beginning of the address asked for.
pub proof fn up_is_always_a_directory(url_path: Seq<char>)
    ensures
        spec_parent_of(url_path).len() > 0,
        spec_parent_of(url_path).last() == '/',
        spec_parent_of(url_path) == seq!['/'] || starts_with(url_path, spec_parent_of(url_path)),
{
    let trimmed = trim_end_slashes(url_path);
    lemma_trimmed_prefix(url_path);
    lemma_rfind(trimmed, '/');
    match rfind(trimmed, '/') {
        Some(cut) => {
            let p = trimmed.subrange(0, cut + 1);
            assert(p.last() == trimmed[cut]);
            assert(url_path.subrange(0, p.len() as int) == p);
        },
        None => {},
    }
}

/// Up one level really goes up: from an address with a last segment it is
/// never the missing page itself, and from a request path (one that starts
/// with `/`) it is strictly shorter.
pub proof fn up_one_level_leaves_the_page(url_path: Seq<char>)
    requires
        trim_end_slashes(url_path).len() > 0,
    ensures
        spec_parent_of(url_path) != url_path,
        url_path[0] == '/' ==> spec_parent_of(url_path).len() < url_path.len(),
{
    let trimmed = trim_end_slashes(url_path);
    lemma_trimmed_prefix(url_path);
    lemma_trimmed_has_no_slash_at_the_end(url_path);
    lemma_rfind(trimmed, '/');
    match rfind(trimmed, '/') {
        Some(cut) => {
            assert(cut + 1 < trimmed.len()) by {
                if cut + 1 == trimmed.len() {
                    assert(trimmed[cut] == '/');
                    assert(trimmed.last() == trimmed[cut]);
                }
            }
        },
        None => {
            assert(url_path.len() >= 1);
            assert(trimmed[0] == url_path[0]);
            if url_path.len() == 1 {
                assert(trimmed.len() == 1);
                assert(trimmed == url_path.subrange(0, 1));
                assert(trimmed[0] == url_path[0]);
                assert(url_path[0] != '/') by {
                    assert(trimmed.last() == trimmed[0]);
                }
                assert(spec_parent_of(url_path)[0] == '/');
            }
        },
    }
}

/// The 404 page ends with the way up: a link to the parent of the address
/// asked for, which is where a page made by `NotFound::new` points it.
pub proof fn the_page_links_up_to_the_parent(n: NotFound)
    requires
        n.parent@ == spec_parent_of(n.path@),
    ensures
        ({
            let page = n.spec_render();
            let link = "<a href=\""@ + html_escape(spec_parent_of(n.path@))
                + "\">Up one level</a></p></main></body></html>"@;
            link.len() <= page.len() && page.subrange(page.len() - link.len(), page.len() as int)
                == link
        }),
{
    let page = n.spec_render();
    let link = "<a href=\""@ + html_escape(spec_parent_of(n.path@))
        + "\">Up one level</a></p></main></body></html>"@;
    let head = "<!doctype html><html lang=\"en\"><head><meta charset=\"utf-8\"><title>Not found</title><link rel=\"icon\" href=\""@
        + html_escape(FAVICON@) + "\"><style>"@ + STYLE@
        + "</style></head><body><main><h1>Not found</h1><p>Nothing answers to <code>"@
        + html_escape(n.host@) + html_escape(n.path@) + "</code> here.</p><p>"@;
    reveal_strlit("</code> here.</p><p><a href=\"");
    reveal_strlit("</code> here.</p><p>");
    reveal_strlit("<a href=\"");
    assert("</code> here.</p><p><a href=\""@ =~= "</code> here.</p><p>"@ + "<a href=\""@);
    assert(page =~= head + link);
    assert(page.subrange(head.len() as int, page.len() as int) =~= link);
}

proof fn lemma_trimmed_has_no_slash_at_the_end(s: Seq<char>)
    ensures
        trim_end_slashes(s).len() > 0 ==> trim_end_slashes(s).last() != '/',
    decreases s.len(),
{
    if s.len() > 0 && s.last() == '/' {
        lemma_trimmed_has_no_slash_at_the_end(s.drop_last());
    }
}

proof fn lemma_trimmed_prefix(s: Seq<char>)
    ensures
        trim_end_slashes(s).len() <= s.len(),
        s.subrange(0, trim_end_slashes(s).len() as int) == trim_end_slashes(s),
    decreases s.len(),
{
    if s.len() > 0 && s.last() == '/' {
        lemma_trimmed_prefix(s.drop_last());
        assert(s.drop_last().subrange(0, trim_end_slashes(s).len() as int) == s.subrange(
            0,
            trim_end_slashes(s).len() as int,
        ));
    } else {
        assert(s.subrange(0, s.len() as int) == s);
    }
}

} // verus!
