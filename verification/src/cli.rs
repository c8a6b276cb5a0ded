//! The command line, as the rest of serv reads it once parsed.

use vstd::prelude::*;

verus! {

/// A small, fast development server for static sites, single-page apps and
/// markdown: what was asked for on the command line.
#[derive(Debug)]
pub struct Args {
    /// Directory to serve (`.` when none is given).
    pub dir: String,
    /// Address to listen on (`127.0.0.1` when none is given).
    pub host: String,
    /// Port to listen on (8010 when none is given).
    pub port: u16,
    /// Serve a single-page app: unmatched paths fall back to this file
    /// (`index.html` when the flag is given bare).
    pub spa: Option<String>,
    /// Do not log requests.
    pub quiet: bool,
    /// Require the .html extension in URLs instead of stripping it.
    pub ext: bool,
    /// Render markdown files as pages in the browser.
    pub markdown: bool,
    /// Page to serve when nothing matches.
    pub not_found: Option<String>,
}

} // verus!
