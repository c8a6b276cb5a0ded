//! What kind of thing an entry of a directory listing is, and the mark the
//! listing draws beside it.

use vstd::prelude::*;

use crate::text::{chars_of, lemma_rfind, range_eq, rfind, rfind_in};

verus! {

/// The kinds of entry the listing tells apart.
#[derive(Debug, Clone, Copy, PartialEq, Eq, Structural)]
pub enum Kind {
    Folder,
    Html,
    Css,
    Js,
    Markdown,
    Image,
    File,
}

/// What follows the last `.` of a name, unless that dot opens the name.
pub open spec fn name_extension(name: Seq<char>) -> Option<Seq<char>> {
    match rfind(name, '.') {
        Some(i) => if i == 0 {
            None
        } else {
            Some(name.subrange(i + 1, name.len() as int))
        },
        None => None,
    }
}

/// The kind of a file, by its extension.
pub open spec fn spec_kind_of(name: Seq<char>) -> Kind {
    match name_extension(name) {
        Some(e) => if e == "html"@ || e == "htm"@ {
            Kind::Html
        } else if e == "css"@ {
            Kind::Css
        } else if e == "js"@ || e == "mjs"@ {
            Kind::Js
        } else if e == "md"@ || e == "markdown"@ {
            Kind::Markdown
        } else if e == "png"@ || e == "jpg"@ || e == "jpeg"@ || e == "gif"@ || e == "svg"@ || e
            == "webp"@ || e == "ico"@ {
            Kind::Image
        } else {
            Kind::File
        },
        None => Kind::File,
    }
}

impl Kind {
    /// The kind of a file (not a folder) named `name`.
    pub fn of(name: &str) -> (r: Kind)
        ensures
            r == spec_kind_of(name@),
    {
        let v = chars_of(name);
        let n = v.len();
        assert(v@.subrange(0, n as int) == name@);
        let dot = match rfind_in(&v, 0, n, '.') {
            Some(i) => i,
            None => return Kind::File,
        };
        proof {
            lemma_rfind(name@, '.');
        }
        if dot == 0 {
            return Kind::File;
        }
        let a = dot + 1;
        assert(name@.subrange(a as int, n as int) == v@.subrange(a as int, n as int));
        if range_eq(&v, a, n, "html") || range_eq(&v, a, n, "htm") {
            Kind::Html
        } else if range_eq(&v, a, n, "css") {
            Kind::Css
        } else if range_eq(&v, a, n, "js") || range_eq(&v, a, n, "mjs") {
            Kind::Js
        } else if range_eq(&v, a, n, "md") || range_eq(&v, a, n, "markdown") {
            Kind::Markdown
        } else if range_eq(&v, a, n, "png") || range_eq(&v, a, n, "jpg") || range_eq(
            &v,
            a,
            n,
            "jpeg",
        ) || range_eq(&v, a, n, "gif") || range_eq(&v, a, n, "svg") || range_eq(&v, a, n, "webp")
            || range_eq(&v, a, n, "ico") {
            Kind::Image
        } else {
            Kind::File
        }
    }

    /// The mark drawn beside an entry of this kind.
    pub fn icon(self) -> (r: &'static str)
        ensures
            r@ == spec_icon(self),
    {
        match self {
            Kind::Folder => "\u{1F4C1}",
            Kind::Html => "\u{1F310}",
            Kind::Css => "\u{1F3A8}",
            Kind::Js => "\u{2699}",
            Kind::Markdown => "\u{1F4DD}",
            Kind::Image => "\u{1F5BC}",
            Kind::File => "\u{1F4C4}",
        }
    }
}

/// The mark for each kind.
pub open spec fn spec_icon(kind: Kind) -> Seq<char> {
    match kind {
        Kind::Folder => "\u{1F4C1}"@,
        Kind::Html => "\u{1F310}"@,
        Kind::Css => "\u{1F3A8}"@,
        Kind::Js => "\u{2699}"@,
        Kind::Markdown => "\u{1F4DD}"@,
        Kind::Image => "\u{1F5BC}"@,
        Kind::File => "\u{1F4C4}"@,
    }
}

} // verus!
