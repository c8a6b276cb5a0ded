//! Request logging, in the shape a dev server wants: one line per request, no
//! timestamps, no target prefixes — just what was asked for and what came back.
//!
//! The logger itself is installed and fed by the program; what a line says is
//! decided here.

use vstd::prelude::*;

use crate::banner::{pad, repeat};
use crate::pages::{human_size, spec_human_size};
use crate::style::{paint, spec_paint};
use crate::text::{dec, push_char, push_dec, push_str};

verus! {

/// The target access lines are logged under, so `--quiet` can silence exactly
/// those and leave warnings and errors alone.
pub const ACCESS: &'static str = "serv::access";

/// The colour of a status: green for success, cyan for a redirect, yellow
/// for a client error, red for anything else.
pub open spec fn status_colour(status: u16) -> Seq<char> {
    if 200 <= status <= 299 {
        "32"@
    } else if 300 <= status <= 399 {
        "36"@
    } else if 400 <= status <= 499 {
        "33"@
    } else {
        "31"@
    }
}

/// The status code, coloured by its class.
pub fn status_badge(status: u16, on: bool) -> (r: String)
    ensures
        r@ == spec_paint(on, status_colour(status), dec(status as nat)),
{
    let colour = if 200 <= status && status <= 299 {
        "32"
    } else if 300 <= status && status <= 399 {
        "36"
    } else if 400 <= status && status <= 499 {
        "33"
    } else {
        "31"
    };
    let mut number = String::new();
    push_dec(&mut number, status as u128);
    paint(on, colour, number.as_str())
}

/// The size and timing half of a line: both, or the timing alone when the
/// response had no length to report.
pub open spec fn spec_meta(size: Option<u64>, took: Seq<char>) -> Seq<char> {
    match size {
        Some(bytes) => spec_human_size(bytes as nat) + "  "@ + took,
        None => took,
    }
}

/// One access line: the badge, the method padded to four columns, the path
/// padded to thirty-eight, and the dimmed size and timing.
pub open spec fn spec_access_line(
    method: Seq<char>,
    path: Seq<char>,
    status: u16,
    size: Option<u64>,
    took: Seq<char>,
    on: bool,
) -> Seq<char> {
    spec_paint(on, status_colour(status), dec(status as nat)) + " "@ + pad(method, 4) + " "@ + pad(
        path,
        38,
    ) + " "@ + spec_paint(on, "2"@, spec_meta(size, took))
}

fn push_padded(out: &mut String, s: &str, width: usize)
    ensures
        final(out)@ == old(out)@ + pad(s@, width as nat),
{
    push_str(out, s);
    let n = s.unicode_len();
    if n < width {
        let ghost start = out@;
        let mut i: usize = 0;
        while i < width - n
            invariant
                n < width,
                i <= width - n,
                out@ == start + repeat(' ', i as nat),
            decreases width - n - i,
        {
            push_char(out, ' ');
            i += 1;
            assert(repeat(' ', i as nat) == repeat(' ', (i - 1) as nat).push(' '));
        }
    }
}

/// The line logged for one request; `took` is how long it took, already
/// written out by the caller that timed it.
pub fn access_line(
    method: &str,
    path: &str,
    status: u16,
    size: Option<u64>,
    took: &str,
    on: bool,
) -> (r: String)
    ensures
        r@ == spec_access_line(method@, path@, status, size, took@, on),
{
    let mut meta = String::new();
    match size {
        Some(bytes) => {
            push_str(&mut meta, human_size(bytes).as_str());
            push_str(&mut meta, "  ");
            push_str(&mut meta, took);
        },
        None => push_str(&mut meta, took),
    }
    let mut out = status_badge(status, on);
    push_str(&mut out, " ");
    push_padded(&mut out, method, 4);
    push_str(&mut out, " ");
    push_padded(&mut out, path, 38);
    push_str(&mut out, " ");
    push_str(&mut out, paint(on, "2", meta.as_str()).as_str());
    out
}

} // verus!
