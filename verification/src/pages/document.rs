//! A markdown file, set on the same sheet as the other two pages.

use vstd::prelude::*;

use crate::markdown::{
    has_diagram, md_html, prepared, render_with, serv_options, spec_point_links, spec_title, written,
};
use crate::pages::listing::{
    crumb_views, crumbs, push_trail_links, spec_crumbs, trail_links, Crumb, CrumbView,
};
use crate::pages::{escape_into, html_escape, FAVICON, STYLE};
use crate::text::push_str;

verus! {

/// A markdown file, set on the same sheet as the other two pages.
pub struct Document {
    /// The first heading, or the file name: the browser tab's label.
    pub title: String,
    /// The rendered markdown. Inserted raw; it is HTML by the time it gets here.
    pub body: String,
    /// Trail of links from the served root down to this file.
    pub crumbs: Vec<Crumb>,
    /// Absolute path of the served directory, for the colophon.
    pub root: String,
    /// Whether the body draws a diagram, which is what mermaid is loaded for.
    pub diagrams: bool,
}

/// Mermaid, loaded from jsdelivr: the one thing a page reaches the network
/// for, and only a page that draws a diagram.
pub const MERMAID: &'static str = "<script type=\"module\">import mermaid from \"https://cdn.jsdelivr.net/npm/mermaid@11/dist/mermaid.esm.min.mjs\";mermaid.initialize({startOnLoad:true});</script>";

impl Document {
    /// The page for the markdown `source` of the file `name`, reached at
    /// `url_path` under the served folder `root`; with `clean_urls`, links to
    /// markdown files point at their pages.
    pub fn new(source: &str, name: &str, url_path: &str, root: &str, clean_urls: bool) -> (r: Self)
        ensures
            r.title@ == spec_title(source@, name@),
            r.body@ == md_html(source@, serv_options(), written(source@, clean_urls)),
            r.diagrams == has_diagram(spec_point_links(prepared(source@), clean_urls)),
            crumb_views(r.crumbs@) == spec_crumbs(url_path@, root@),
            r.root@ == root@,
    {
        let rendered = render_with(source, name, clean_urls);
        let mut shown = String::new();
        push_str(&mut shown, root);
        Document {
            title: rendered.title,
            body: rendered.body,
            crumbs: crumbs(url_path, root),
            root: shown,
            diagrams: rendered.diagrams,
        }
    }

    pub fn style(&self) -> (r: &'static str)
        ensures
            r == STYLE,
    {
        STYLE
    }

    pub open spec fn spec_render(&self) -> Seq<char> {
        spec_document_page(
            self.title@,
            self.body@,
            crumb_views(self.crumbs@),
            self.root@,
            self.diagrams,
        )
    }

    /// The page: the title escaped, since it is text; the body as it is,
    /// since it is already HTML; mermaid only when there is a diagram.
    pub fn render(&self) -> (r: String)
        ensures
            r@ == self.spec_render(),
    {
        let mut out = String::new();
        push_str(&mut out, "<!doctype html><html lang=\"en\"><head><meta charset=\"utf-8\"><title>");
        escape_into(&mut out, self.title.as_str());
        push_str(&mut out, "</title><link rel=\"icon\" href=\"");
        escape_into(&mut out, FAVICON);
        push_str(&mut out, "\"><style>");
        push_str(&mut out, STYLE);
        push_str(&mut out, "</style></head><body><main><nav class=\"crumbs\">");
        push_trail_links(&mut out, &self.crumbs);
        push_str(&mut out, "</nav><article>");
        push_str(&mut out, self.body.as_str());
        push_str(&mut out, "</article><footer>");
        escape_into(&mut out, self.root.as_str());
        push_str(&mut out, "</footer></main>");
        if self.diagrams {
            push_str(&mut out, MERMAID);
        }
        push_str(&mut out, "</body></html>");
        out
    }
}

/// The document page around an already rendered body.
pub open spec fn spec_document_page(
    title: Seq<char>,
    body: Seq<char>,
    crumbs: Seq<CrumbView>,
    root: Seq<char>,
    diagrams: bool,
) -> Seq<char> {
    "<!doctype html><html lang=\"en\"><head><meta charset=\"utf-8\"><title>"@ + html_escape(title)
        + "</title><link rel=\"icon\" href=\""@ + html_escape(FAVICON@) + "\"><style>"@ + STYLE@
        + "</style></head><body><main><nav class=\"crumbs\">"@ + trail_links(crumbs)
        + "</nav><article>"@ + body + "</article><footer>"@ + html_escape(root) + "</footer></main>"@
        + (if diagrams {
        MERMAID@
    } else {
        Seq::empty()
    }) + "</body></html>"@
}

} // verus!
