//! Everything the request handler needs, resolved once at startup.

use vstd::prelude::*;

verus! {

/// Everything the request handler needs, resolved once at startup. Paths are
/// held as text.
#[derive(Debug)]
pub struct Config {
    /// Canonical directory being served. Pointed at a single file, this is the
    /// folder that file sits in — paths still need something to be relative to.
    pub root: String,
    /// The one file to serve at `/`, when serv was pointed at a file rather than
    /// a directory. Nothing else is served while this is set.
    pub only: Option<String>,
    /// Single-page app entry point, when `--spa` is in play.
    pub spa: Option<String>,
    /// Require `.html` in URLs instead of stripping it.
    pub ext: bool,
    /// Page to serve for a miss, when `--not-found` is in play.
    pub not_found: Option<String>,
    /// Render `.md` files as pages, when `--markdown` is in play.
    pub markdown: bool,
}

} // verus!
