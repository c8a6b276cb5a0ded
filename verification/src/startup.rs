//! Turning the command line into what the server runs with.
//!
//! The positional argument is canonicalised and looked at by the caller; what
//! follows from what it turned out to be is decided here.

use vstd::prelude::*;

use crate::cli::Args;
use crate::config::Config;
use crate::path::push_name;
use crate::text::{chars_of, lemma_rfind, push_str, rfind, rfind_in, string_of_range};

verus! {

/// `Path::parent` of an absolute, canonical path: everything before its last
/// `/`, which is the root itself for a name directly under it.
pub open spec fn parent_dir(path: Seq<char>) -> Seq<char> {
    match rfind(path, '/') {
        Some(i) => if i == 0 {
            seq!['/']
        } else {
            path.subrange(0, i)
        },
        None => Seq::empty(),
    }
}

/// What the positional argument turned out to be: the root directory, and —
/// when serv was pointed at a file — that file, with its folder as the root.
/// Anything else cannot be served.
pub open spec fn spec_place(target: Seq<char>, is_dir: bool, is_file: bool) -> Result<
    (Seq<char>, Option<Seq<char>>),
    Seq<char>,
> {
    if is_dir {
        Ok((target, None))
    } else if !is_file {
        Err("`"@ + target + "` is neither a file nor a directory"@)
    } else {
        Ok((parent_dir(target), Some(target)))
    }
}

pub open spec fn placed_view(r: Result<(String, Option<String>), String>) -> Result<
    (Seq<char>, Option<Seq<char>>),
    Seq<char>,
> {
    match r {
        Ok((root, only)) => Ok((
            root@,
            match only {
                Some(f) => Some(f@),
                None => None,
            },
        )),
        Err(e) => Err(e@),
    }
}

/// Where to serve from, given the canonical `target` and what it is on disk.
/// A lone file is served at `/` and nowhere else, with its own folder as the
/// root so the pages serv draws still have a path to show.
pub fn place(target: &str, is_dir: bool, is_file: bool) -> (r: Result<
    (String, Option<String>),
    String,
>)
    ensures
        placed_view(r) == spec_place(target@, is_dir, is_file),
{
    let mut whole = String::new();
    push_str(&mut whole, target);
    if is_dir {
        return Ok((whole, None));
    }
    if !is_file {
        let mut msg = String::new();
        push_str(&mut msg, "`");
        push_str(&mut msg, target);
        push_str(&mut msg, "` is neither a file nor a directory");
        return Err(msg);
    }
    let v = chars_of(target);
    let n = v.len();
    assert(v@.subrange(0, n as int) == target@);
    proof {
        lemma_rfind(target@, '/');
        reveal_strlit("/");
        assert("/"@ == seq!['/']);
    }
    let root = match rfind_in(&v, 0, n, '/') {
        Some(0) => {
            let mut s = String::new();
            push_str(&mut s, "/");
            s
        },
        Some(i) => string_of_range(&v, 0, i),
        None => String::new(),
    };
    Ok((root, Some(whole)))
}

/// The refusal of `flag` when serv is pointed at the single file `shown`.
pub open spec fn needs_a_directory(flag: Seq<char>, shown: Seq<char>) -> Seq<char> {
    "`"@ + flag + "` needs a directory to serve, not the single file `"@ + shown + "`"@
}

pub open spec fn spec_refuse(args: Args) -> Result<(), Seq<char>> {
    if args.spa is Some {
        Err(needs_a_directory("--spa"@, args.dir@))
    } else if args.not_found is Some {
        Err(needs_a_directory("--not-found"@, args.dir@))
    } else {
        Ok(())
    }
}

/// `--spa` and `--not-found` both name a file *inside* the served directory.
/// Pointed at one file there is no such directory, so say so at startup rather
/// than run a server that quietly ignores half of what it was asked for.
pub fn refuse_directory_flags(args: &Args) -> (r: Result<(), String>)
    ensures
        match r {
            Ok(()) => spec_refuse(*args) == Ok::<(), Seq<char>>(()),
            Err(e) => spec_refuse(*args) == Err::<(), Seq<char>>(e@),
        },
{
    let flag = if args.spa.is_some() {
        "--spa"
    } else if args.not_found.is_some() {
        "--not-found"
    } else {
        return Ok(());
    };
    let mut msg = String::new();
    push_str(&mut msg, "`");
    push_str(&mut msg, flag);
    push_str(&mut msg, "` needs a directory to serve, not the single file `");
    push_str(&mut msg, args.dir.as_str());
    push_str(&mut msg, "`");
    Err(msg)
}

/// `Path::join`: an absolute path replaces the base, a relative one is put
/// under it.
pub open spec fn spec_join(base: Seq<char>, p: Seq<char>) -> Seq<char> {
    if p.len() > 0 && p[0] == '/' {
        p
    } else {
        push_name(base, p)
    }
}

pub fn join(base: &str, p: &str) -> (r: String)
    ensures
        r@ == spec_join(base@, p@),
{
    let pn = p.unicode_len();
    let mut out = String::new();
    if pn > 0 && p.get_char(0) == '/' {
        push_str(&mut out, p);
        return out;
    }
    push_str(&mut out, base);
    let bn = base.unicode_len();
    if bn > 0 && base.get_char(bn - 1) != '/' {
        push_str(&mut out, "/");
        proof {
            reveal_strlit("/");
        }
    }
    push_str(&mut out, p);
    out
}

pub open spec fn join_opt(root: Seq<char>, p: Option<String>) -> Option<Seq<char>> {
    match p {
        Some(p) => Some(spec_join(root, p@)),
        None => None,
    }
}

/// The configuration the server runs with: the shell and the not-found page
/// found under the root, the switches as given.
pub fn configure(args: &Args, root: String, only: Option<String>) -> (r: Config)
    ensures
        r.root@ == root@,
        r.only == only,
        match r.spa {
            Some(s) => join_opt(root@, args.spa) == Some(s@),
            None => args.spa is None,
        },
        match r.not_found {
            Some(s) => join_opt(root@, args.not_found) == Some(s@),
            None => args.not_found is None,
        },
        r.ext == args.ext,
        r.markdown == args.markdown,
{
    let spa = match &args.spa {
        Some(p) => Some(join(root.as_str(), p.as_str())),
        None => None,
    };
    let not_found = match &args.not_found {
        Some(p) => Some(join(root.as_str(), p.as_str())),
        None => None,
    };
    Config { root, only, spa, ext: args.ext, not_found, markdown: args.markdown }
}

} // verus!
