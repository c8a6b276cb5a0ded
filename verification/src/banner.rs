//! The block of text serv prints on startup.
//!
//! It answers the questions you would otherwise have to guess at: which folder,
//! which address, which page a miss lands on, and whether `/about` will find
//! `about.html`. What it needs from the disk and the environment is looked up
//! by the caller and handed over as a `Survey`.

use vstd::prelude::*;

use crate::config::Config;
use crate::pages::{human_size, spec_human_size};
use crate::serve::{file_name, file_name_of};
use crate::style::{paint, spec_paint};
use crate::text::{chars_of, dec, push_char, push_dec, push_str, starts_with, string_of_range};

verus! {

/// serv's madder, warm enough to read on a light terminal and a dark one.
pub const MADDER: &'static str = "38;2;192;74;47";

pub const DIM: &'static str = "2";

pub const BOLD: &'static str = "1";

pub const GREEN: &'static str = "32";

pub const YELLOW: &'static str = "33";

/// The column the values of the rows start after.
pub const LABEL: usize = 11;

/// The version the wordmark shows.
pub const VERSION: &'static str = "0.4.0";

/// Colour, or none, for everything the banner writes.
pub struct Paint {
    pub on: bool,
}

impl Paint {
    /// `text` in the colour `code`, when colour is on.
    pub fn on(&self, code: &str, text: &str) -> (r: String)
        ensures
            r@ == spec_paint(self.on, code@, text@),
    {
        paint(self.on, code, text)
    }
}

/// `n` copies of `c`.
pub open spec fn repeat(c: char, n: nat) -> Seq<char> {
    Seq::new(n, |i: int| c)
}

fn push_repeat(out: &mut String, c: char, n: usize)
    ensures
        final(out)@ == old(out)@ + repeat(c, n as nat),
{
    let ghost start = out@;
    let mut i: usize = 0;
    while i < n
        invariant
            i <= n,
            out@ == start + repeat(c, i as nat),
        decreases n - i,
    {
        push_char(out, c);
        i += 1;
        assert(repeat(c, i as nat) == repeat(c, (i - 1) as nat).push(c));
    }
}

// ---------------------------------------------------------------------------
// The address, boxed

/// The rule across the top and bottom of the box: the width of the url and
/// the two spaces either side of it.
pub open spec fn bar(url: Seq<char>) -> Seq<char> {
    repeat('\u{2500}', url.len() + 4)
}

pub open spec fn box_top(on: bool, url: Seq<char>) -> Seq<char> {
    "  "@ + spec_paint(on, MADDER@, "\u{256d}"@) + spec_paint(on, MADDER@, bar(url)) + spec_paint(
        on,
        MADDER@,
        "\u{256e}"@,
    )
}

pub open spec fn box_middle(on: bool, url: Seq<char>) -> Seq<char> {
    "  "@ + spec_paint(on, MADDER@, "\u{2502}"@) + "  "@ + spec_paint(on, BOLD@, url) + "  "@
        + spec_paint(on, MADDER@, "\u{2502}"@)
}

pub open spec fn box_bottom(on: bool, url: Seq<char>) -> Seq<char> {
    "  "@ + spec_paint(on, MADDER@, "\u{2570}"@) + spec_paint(on, MADDER@, bar(url)) + spec_paint(
        on,
        MADDER@,
        "\u{256f}"@,
    )
}

/// The address, boxed: a blank line, three lines of box, a blank line.
pub open spec fn spec_frame(on: bool, url: Seq<char>) -> Seq<char> {
    "\n"@ + box_top(on, url) + "\n"@ + box_middle(on, url) + "\n"@ + box_bottom(on, url) + "\n\n"@
}

/// The address, boxed — it is the one line anyone actually needs.
pub fn frame(out: &mut String, paint: &Paint, url: &str)
    ensures
        final(out)@ == old(out)@ + spec_frame(paint.on, url@),
{
    let mut rule = String::new();
    let n = url.unicode_len();
    push_repeat(&mut rule, '\u{2500}', n);
    push_repeat(&mut rule, '\u{2500}', 4);
    assert(rule@ == bar(url@));
    push_str(out, "\n  ");
    push_str(out, paint.on(MADDER, "\u{256d}").as_str());
    push_str(out, paint.on(MADDER, rule.as_str()).as_str());
    push_str(out, paint.on(MADDER, "\u{256e}").as_str());
    push_str(out, "\n  ");
    push_str(out, paint.on(MADDER, "\u{2502}").as_str());
    push_str(out, "  ");
    push_str(out, paint.on(BOLD, url).as_str());
    push_str(out, "  ");
    push_str(out, paint.on(MADDER, "\u{2502}").as_str());
    push_str(out, "\n  ");
    push_str(out, paint.on(MADDER, "\u{2570}").as_str());
    push_str(out, paint.on(MADDER, rule.as_str()).as_str());
    push_str(out, paint.on(MADDER, "\u{256f}").as_str());
    push_str(out, "\n\n");
    proof {
        reveal_strlit("\n  ");
        reveal_strlit("\n");
        reveal_strlit("  ");
        assert("\n  "@ == "\n"@ + "  "@);
    }
}

/// Without colour the three lines of the box are the same width, eight
/// characters wider than the url, which is what makes it a box.
pub proof fn the_box_fits_the_url(url: Seq<char>)
    ensures
        box_top(false, url).len() == url.len() + 8,
        box_middle(false, url).len() == url.len() + 8,
        box_bottom(false, url).len() == url.len() + 8,
{
    reveal_strlit("  ");
    reveal_strlit("\u{256d}");
    reveal_strlit("\u{256e}");
    reveal_strlit("\u{2502}");
    reveal_strlit("\u{2570}");
    reveal_strlit("\u{256f}");
}

// ---------------------------------------------------------------------------
// Rows

/// `s` padded with spaces to `width` characters, as `{:<width$}` does.
pub open spec fn pad(s: Seq<char>, width: nat) -> Seq<char> {
    if s.len() >= width {
        s
    } else {
        s + repeat(' ', (width - s.len()) as nat)
    }
}

/// One labelled line of the banner.
pub open spec fn spec_row(on: bool, label: Seq<char>, value: Seq<char>) -> Seq<char> {
    "  "@ + spec_paint(on, DIM@, pad(label, LABEL as nat)) + "  "@ + value + "\n"@
}

pub fn row(out: &mut String, paint: &Paint, label: &str, value: &str)
    ensures
        final(out)@ == old(out)@ + spec_row(paint.on, label@, value@),
{
    let mut padded = String::new();
    push_str(&mut padded, label);
    let n = label.unicode_len();
    if n < LABEL {
        push_repeat(&mut padded, ' ', LABEL - n);
    }
    push_str(out, "  ");
    push_str(out, paint.on(DIM, padded.as_str()).as_str());
    push_str(out, "  ");
    push_str(out, value);
    push_str(out, "\n");
}

/// Without colour, every value whose label fits the column starts fifteen
/// characters in, whatever the label: the values line up.
pub proof fn values_line_up(label: Seq<char>, value: Seq<char>)
    requires
        label.len() <= LABEL,
    ensures
        spec_row(false, label, value).subrange(15, 15 + value.len() as int) == value,
        forall|i: int| 0 <= i < 2 ==> spec_row(false, label, value)[i] == ' ',
{
    reveal_strlit("  ");
    let r = spec_row(false, label, value);
    assert(pad(label, LABEL as nat).len() == 11);
    assert(r == "  "@ + pad(label, LABEL as nat) + "  "@ + value + "\n"@);
    assert(r.subrange(15, 15 + value.len() as int) =~= value);
}

/// A file named by its last component: in green when it exists, with a
/// yellow word of warning after it when it does not.
pub open spec fn spec_present(on: bool, path: Seq<char>, is_file: bool, missing: Seq<char>) -> Seq<
    char,
> {
    let name = match file_name(path) {
        Some(n) => n,
        None => path,
    };
    if is_file {
        spec_paint(on, GREEN@, name)
    } else {
        name + " "@ + spec_paint(on, YELLOW@, "\u{b7} "@ + missing)
    }
}

pub fn present(paint: &Paint, path: &str, is_file: bool, missing: &str) -> (r: String)
    ensures
        r@ == spec_present(paint.on, path@, is_file, missing@),
{
    let name = match file_name_of(path) {
        Some(n) => n,
        None => {
            let mut p = String::new();
            push_str(&mut p, path);
            p
        },
    };
    if is_file {
        paint.on(GREEN, name.as_str())
    } else {
        let mut warning = String::new();
        push_str(&mut warning, "\u{b7} ");
        push_str(&mut warning, missing);
        let mut out = name;
        push_str(&mut out, " ");
        push_str(&mut out, paint.on(YELLOW, warning.as_str()).as_str());
        out
    }
}

/// A path under the home folder, written from `~`: the home folder itself is
/// `~`, and only a whole leading component is replaced.
pub open spec fn spec_tilde(path: Seq<char>, home: Option<Seq<char>>) -> Seq<char> {
    match home {
        Some(h) => if h.len() > 0 && starts_with(path, h) {
            let rest = path.subrange(h.len() as int, path.len() as int);
            if rest.len() == 0 {
                seq!['~']
            } else if rest[0] == '/' {
                seq!['~'] + rest
            } else {
                path
            }
        } else {
            path
        },
        None => path,
    }
}

/// `/Users/you/site` is easier to read as `~/site`.
pub fn tilde(path: &str, home: Option<&str>) -> (r: String)
    ensures
        r@ == spec_tilde(path@, match home {
            Some(h) => Some(h@),
            None => None,
        }),
{
    let v = chars_of(path);
    let n = v.len();
    match home {
        Some(h) => {
            let hv = chars_of(h);
            let k = hv.len();
            if k > 0 && k <= n && crate::text::range_eq(&v, 0, k, h) {
                assert(starts_with(path@, h@));
                if k == n {
                    let mut out = String::new();
                    push_char(&mut out, '~');
                    return out;
                } else if v[k] == '/' {
                    let mut out = String::new();
                    push_char(&mut out, '~');
                    let rest = string_of_range(&v, k, n);
                    push_str(&mut out, rest.as_str());
                    return out;
                }
            } else {
                proof {
                    if k > 0 && starts_with(path@, h@) {
                        assert(path@.subrange(0, k as int) == v@.subrange(0, k as int));
                    }
                }
            }
            crate::text::string_of(&v)
        },
        None => crate::text::string_of(&v),
    }
}

/// `folder` for one, `folders` for any other number.
pub open spec fn spec_plural(n: nat, word: Seq<char>) -> Seq<char> {
    if n == 1 {
        word
    } else {
        word.push('s')
    }
}

pub fn plural(n: usize, word: &str) -> (r: String)
    ensures
        r@ == spec_plural(n as nat, word@),
{
    let mut out = String::new();
    push_str(&mut out, word);
    if n != 1 {
        push_char(&mut out, 's');
    }
    out
}


// ---------------------------------------------------------------------------
// What is in the folder

/// One item of the served folder, as the shallow read saw it.
pub struct Item {
    pub is_dir: bool,
    /// Length in bytes.
    pub len: u64,
}

pub open spec fn count_folders(items: Seq<Item>) -> nat
    decreases items.len(),
{
    if items.len() == 0 {
        0
    } else {
        count_folders(items.drop_last()) + if items.last().is_dir { 1nat } else { 0nat }
    }
}

/// The bytes of the files, folders not counted.
pub open spec fn file_bytes(items: Seq<Item>) -> nat
    decreases items.len(),
{
    if items.len() == 0 {
        0
    } else {
        file_bytes(items.drop_last()) + if items.last().is_dir { 0nat } else { items.last().len as nat }
    }
}

proof fn lemma_count_folders_bound(items: Seq<Item>)
    ensures
        count_folders(items) <= items.len(),
    decreases items.len(),
{
    if items.len() > 0 {
        lemma_count_folders_bound(items.drop_last());
    }
}

proof fn lemma_file_bytes_grow(items: Seq<Item>, i: int)
    requires
        0 <= i <= items.len(),
    ensures
        file_bytes(items.take(i)) <= file_bytes(items),
    decreases items.len() - i,
{
    if i < items.len() {
        lemma_file_bytes_grow(items, i + 1);
        assert(items.take(i + 1).drop_last() == items.take(i));
    } else {
        assert(items.take(i) == items);
    }
}

/// Folders, files, and the bytes of the files, in one pass.
pub fn count(items: &Vec<Item>) -> (r: (usize, usize, u64))
    requires
        file_bytes(items@) <= u64::MAX,
    ensures
        r.0 == count_folders(items@),
        r.0 + r.1 == items.len(),
        r.2 == file_bytes(items@),
{
    let mut folders: usize = 0;
    let mut files: usize = 0;
    let mut bytes: u64 = 0;
    let mut i: usize = 0;
    while i < items.len()
        invariant
            i <= items.len(),
            file_bytes(items@) <= u64::MAX,
            folders == count_folders(items@.take(i as int)),
            folders + files == i,
            bytes == file_bytes(items@.take(i as int)),
        decreases items.len() - i,
    {
        assert(items@.take(i + 1).drop_last() == items@.take(i as int));
        assert(items@.take(i + 1).last() == items@[i as int]);
        proof {
            lemma_file_bytes_grow(items@, i + 1);
        }
        if items[i].is_dir {
            folders += 1;
        } else {
            files += 1;
            bytes += items[i].len;
        }
        i += 1;
    }
    assert(items@.take(items.len() as int) == items@);
    (folders, files, bytes)
}

// ---------------------------------------------------------------------------
// The whole block

/// What the banner needs from the disk and the environment.
pub struct Survey {
    pub folders: usize,
    pub files: usize,
    pub bytes: u64,
    /// `$HOME`, when it is set.
    pub home: Option<String>,
    /// Whether `index.html` is a file in the served folder.
    pub index_is_file: bool,
    /// Whether the `--spa` shell is a file.
    pub spa_is_file: bool,
    /// Whether the `--not-found` page is a file.
    pub not_found_is_file: bool,
}

pub open spec fn opt_chars(o: Option<String>) -> Option<Seq<char>> {
    match o {
        Some(s) => Some(s@),
        None => None,
    }
}

pub open spec fn spec_wordmark(on: bool) -> Seq<char> {
    "\n  "@ + spec_paint(on, BOLD@, "serv"@) + spec_paint(on, MADDER@, "\u{258c}"@) + " "@
        + spec_paint(on, DIM@, VERSION@) + "\n"@
}

pub open spec fn spec_contents(on: bool, seen: Survey) -> Seq<char> {
    dec(seen.folders as nat) + " "@ + spec_plural(seen.folders as nat, "folder"@) + " "@
        + spec_paint(on, DIM@, "\u{b7}"@) + " "@ + dec(seen.files as nat) + " "@ + spec_plural(
        seen.files as nat,
        "file"@,
    ) + " "@ + spec_paint(on, DIM@, "\u{b7}"@) + " "@ + spec_human_size(seen.bytes as nat)
}

/// The `spa` row when there is a shell, else the `index` row.
pub open spec fn spec_entry_row(on: bool, config: Config, seen: Survey) -> Seq<char> {
    match config.spa {
        Some(spa) => spec_row(on, "spa"@, spec_present(on, spa@, seen.spa_is_file, "missing"@)),
        None => spec_row(
            on,
            "index"@,
            if seen.index_is_file {
                spec_paint(on, GREEN@, "index.html"@)
            } else {
                "no index.html "@ + spec_paint(on, DIM@, "\u{b7} folders get a generated listing"@)
            },
        ),
    }
}

pub open spec fn spec_not_found_row(on: bool, config: Config, seen: Survey) -> Seq<char> {
    spec_row(
        on,
        "not found"@,
        match config.not_found {
            Some(page) => spec_present(
                on,
                page@,
                seen.not_found_is_file,
                "missing, falling back to the built-in page"@,
            ),
            None => spec_paint(on, DIM@, "built-in page"@),
        },
    )
}

pub open spec fn spec_tail_rows(on: bool, config: Config, quiet: bool) -> Seq<char> {
    spec_row(
        on,
        "urls"@,
        if config.ext {
            "literal "@ + spec_paint(on, DIM@, "\u{b7} /about.html only"@)
        } else {
            "clean "@ + spec_paint(on, DIM@, "\u{b7} /about serves about.html"@)
        },
    ) + (if config.markdown {
        spec_row(on, "markdown"@, "rendered "@ + spec_paint(on, DIM@, "\u{b7} code plain"@))
    } else {
        Seq::empty()
    }) + spec_row(on, "encoding"@, "gzip "@ + spec_paint(on, DIM@, "\u{b7} text between 1 KiB and 8 MiB"@))
        + spec_row(
        on,
        "logs"@,
        if quiet {
            spec_paint(on, DIM@, "off (--quiet)"@)
        } else {
            "on"@
        },
    ) + "\n  "@ + spec_paint(on, DIM@, "ctrl-c to stop"@) + "\n"@
}

/// The startup block for serving `config` at `addr`: the wordmark, the boxed
/// url, one row each for the root, what is in it, the index or shell, the
/// not-found page, the url style, markdown when it is rendered (and that
/// code is set plain, highlighting not being built in), compression and
/// logging, and how to stop.
pub open spec fn spec_banner(on: bool, config: Config, addr: Seq<char>, quiet: bool, seen: Survey) -> Seq<
    char,
> {
    spec_wordmark(on) + spec_frame(on, "http://"@ + addr + "/"@) + spec_row(
        on,
        "root"@,
        spec_tilde(config.root@, opt_chars(seen.home)),
    ) + spec_row(on, "contents"@, spec_contents(on, seen)) + spec_entry_row(on, config, seen)
        + spec_not_found_row(on, config, seen) + spec_tail_rows(on, config, quiet)
}

/// With `--spa` set, the banner names the shell by its file name: plainly,
/// in green, when the shell is a file, and with the word of warning
/// `· missing` only when it is not. The row says which, and sits in the
/// banner between the contents and the not-found rows.
pub proof fn the_spa_row_says_whether_the_shell_is_there(
    on: bool,
    config: Config,
    addr: Seq<char>,
    quiet: bool,
    seen: Survey,
) -> (around: (Seq<char>, Seq<char>))
    requires
        config.spa is Some,
    ensures
        ({
            let spa = config.spa->0@;
            let name = match file_name(spa) {
                Some(n) => n,
                None => spa,
            };
            let value = if seen.spa_is_file {
                spec_paint(on, GREEN@, name)
            } else {
                name + " "@ + spec_paint(on, YELLOW@, "\u{b7} missing"@)
            };
            spec_banner(on, config, addr, quiet, seen) == around.0 + spec_row(on, "spa"@, value)
                + around.1
        }),
{
    reveal_strlit("\u{b7} ");
    reveal_strlit("missing");
    reveal_strlit("\u{b7} missing");
    assert("\u{b7} "@ + "missing"@ =~= "\u{b7} missing"@);
    let before = spec_wordmark(on) + spec_frame(on, "http://"@ + addr + "/"@) + spec_row(
        on,
        "root"@,
        spec_tilde(config.root@, opt_chars(seen.home)),
    ) + spec_row(on, "contents"@, spec_contents(on, seen));
    let after = spec_not_found_row(on, config, seen) + spec_tail_rows(on, config, quiet);
    assert(spec_banner(on, config, addr, quiet, seen) =~= before + spec_entry_row(on, config, seen)
        + after);
    (before, after)
}

/// Whether the shell is there always shows: the `spa` row for a shell that
/// is a file differs from the row for one that is not.
pub proof fn a_present_shell_and_a_missing_one_read_differently(
    on: bool,
    config: Config,
    seen: Survey,
)
    requires
        config.spa is Some,
        seen.spa_is_file,
    ensures
        spec_entry_row(on, config, seen) != spec_entry_row(
            on,
            config,
            Survey { spa_is_file: false, ..seen },
        ),
{
    let spa = config.spa->0@;
    let name = match file_name(spa) {
        Some(n) => n,
        None => spa,
    };
    let yes = spec_entry_row(on, config, seen);
    let no = spec_entry_row(on, config, Survey { spa_is_file: false, ..seen });
    reveal_strlit("\u{b7} ");
    reveal_strlit(" ");
    reveal_strlit("missing");
    reveal_strlit("32");
    reveal_strlit("33");
    reveal_strlit("\x1b[");
    reveal_strlit("m");
    reveal_strlit("\x1b[0m");
    let warn = name + " "@ + spec_paint(on, YELLOW@, "\u{b7} "@ + "missing"@);
    let good = spec_paint(on, GREEN@, name);
    assert(warn.len() > good.len());
    assert(yes == spec_row(on, "spa"@, good));
    assert(no == spec_row(on, "spa"@, warn));
    assert(yes.len() < no.len());
}

fn contents(paint: &Paint, seen: &Survey) -> (r: String)
    ensures
        r@ == spec_contents(paint.on, *seen),
{
    let mut out = String::new();
    push_dec(&mut out, seen.folders as u128);
    push_str(&mut out, " ");
    push_str(&mut out, plural(seen.folders, "folder").as_str());
    push_str(&mut out, " ");
    push_str(&mut out, paint.on(DIM, "\u{b7}").as_str());
    push_str(&mut out, " ");
    push_dec(&mut out, seen.files as u128);
    push_str(&mut out, " ");
    push_str(&mut out, plural(seen.files, "file").as_str());
    push_str(&mut out, " ");
    push_str(&mut out, paint.on(DIM, "\u{b7}").as_str());
    push_str(&mut out, " ");
    push_str(&mut out, human_size(seen.bytes).as_str());
    out
}

fn entry_row(out: &mut String, paint: &Paint, config: &Config, seen: &Survey)
    ensures
        final(out)@ == old(out)@ + spec_entry_row(paint.on, *config, *seen),
{
    match &config.spa {
        Some(spa) => {
            let value = present(paint, spa.as_str(), seen.spa_is_file, "missing");
            row(out, paint, "spa", value.as_str());
        },
        None => {
            let value = if seen.index_is_file {
                paint.on(GREEN, "index.html")
            } else {
                let mut v = String::new();
                push_str(&mut v, "no index.html ");
                push_str(&mut v, paint.on(DIM, "\u{b7} folders get a generated listing").as_str());
                v
            };
            row(out, paint, "index", value.as_str());
        },
    }
}

fn not_found_row(out: &mut String, paint: &Paint, config: &Config, seen: &Survey)
    ensures
        final(out)@ == old(out)@ + spec_not_found_row(paint.on, *config, *seen),
{
    let value = match &config.not_found {
        Some(page) => present(
            paint,
            page.as_str(),
            seen.not_found_is_file,
            "missing, falling back to the built-in page",
        ),
        None => paint.on(DIM, "built-in page"),
    };
    row(out, paint, "not found", value.as_str());
}

fn tail_rows(out: &mut String, paint: &Paint, config: &Config, quiet: bool)
    ensures
        final(out)@ == old(out)@ + spec_tail_rows(paint.on, *config, quiet),
{
    let mut urls = String::new();
    if config.ext {
        push_str(&mut urls, "literal ");
        push_str(&mut urls, paint.on(DIM, "\u{b7} /about.html only").as_str());
    } else {
        push_str(&mut urls, "clean ");
        push_str(&mut urls, paint.on(DIM, "\u{b7} /about serves about.html").as_str());
    }
    row(out, paint, "urls", urls.as_str());
    if config.markdown {
        let mut rendered = String::new();
        push_str(&mut rendered, "rendered ");
        push_str(&mut rendered, paint.on(DIM, "\u{b7} code plain").as_str());
        row(out, paint, "markdown", rendered.as_str());
    }
    let mut encoding = String::new();
    push_str(&mut encoding, "gzip ");
    push_str(&mut encoding, paint.on(DIM, "\u{b7} text between 1 KiB and 8 MiB").as_str());
    row(out, paint, "encoding", encoding.as_str());
    let logs = if quiet {
        paint.on(DIM, "off (--quiet)")
    } else {
        let mut v = String::new();
        push_str(&mut v, "on");
        v
    };
    row(out, paint, "logs", logs.as_str());
    push_str(out, "\n  ");
    push_str(out, paint.on(DIM, "ctrl-c to stop").as_str());
    push_str(out, "\n");
}

/// The block serv prints on startup.
pub fn text(config: &Config, addr: &str, quiet: bool, paint: &Paint, seen: &Survey) -> (r: String)
    ensures
        r@ == spec_banner(paint.on, *config, addr@, quiet, *seen),
{
    let mut out = String::new();
    push_str(&mut out, "\n  ");
    push_str(&mut out, paint.on(BOLD, "serv").as_str());
    push_str(&mut out, paint.on(MADDER, "\u{258c}").as_str());
    push_str(&mut out, " ");
    push_str(&mut out, paint.on(DIM, VERSION).as_str());
    push_str(&mut out, "\n");
    let mut url = String::new();
    push_str(&mut url, "http://");
    push_str(&mut url, addr);
    push_str(&mut url, "/");
    frame(&mut out, paint, url.as_str());
    let home = match &seen.home {
        Some(h) => Some(h.as_str()),
        None => None,
    };
    row(&mut out, paint, "root", tilde(config.root.as_str(), home).as_str());
    row(&mut out, paint, "contents", contents(paint, seen).as_str());
    entry_row(&mut out, paint, config, seen);
    not_found_row(&mut out, paint, config, seen);
    tail_rows(&mut out, paint, config, quiet);
    out
}

} // verus!
