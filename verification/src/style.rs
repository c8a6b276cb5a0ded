//! Whether and how to write ANSI escapes.
//!
//! Each stream — the banner's stdout, the request log's stderr — gets its own
//! answer, decided once by whoever owns the stream; what is decided here is
//! what that answer depends on and what painting does to the text.

use vstd::prelude::*;

use crate::text::push_str;

verus! {

/// Colour is on for a terminal, unless `NO_COLOR` is set.
pub fn enabled(is_terminal: bool, no_color: bool) -> (r: bool)
    ensures
        r == (is_terminal && !no_color),
{
    is_terminal && !no_color
}

/// `text` wrapped in the SGR sequence `code`, or `text` as it is.
pub open spec fn spec_paint(on: bool, code: Seq<char>, text: Seq<char>) -> Seq<char> {
    if on {
        "\x1b["@ + code + "m"@ + text + "\x1b[0m"@
    } else {
        text
    }
}

/// Wrap `text` in an SGR sequence, or hand it back untouched.
pub fn paint(on: bool, code: &str, text: &str) -> (r: String)
    ensures
        r@ == spec_paint(on, code@, text@),
{
    let mut out = String::new();
    if on {
        push_str(&mut out, "\x1b[");
        push_str(&mut out, code);
        push_str(&mut out, "m");
        push_str(&mut out, text);
        push_str(&mut out, "\x1b[0m");
    } else {
        push_str(&mut out, text);
    }
    out
}

/// Painting only brackets the text: whatever strips the escapes gets the
/// words back, and with colour off nothing is added at all.
pub proof fn painting_keeps_the_text(on: bool, code: Seq<char>, text: Seq<char>)
    ensures
        on ==> exists|pre: Seq<char>, post: Seq<char>| spec_paint(on, code, text) == pre + text + post,
        !on ==> spec_paint(on, code, text) == text,
{
    if on {
        let pre = "\x1b["@ + code + "m"@;
        let post = "\x1b[0m"@;
        assert(spec_paint(on, code, text) == pre + text + post);
    }
}

} // verus!
