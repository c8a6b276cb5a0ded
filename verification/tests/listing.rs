use serv::pages::icons::Kind;
use serv::pages::listing::{build, crumbs, encode, Listing, RawEntry};
use serv::pages::STYLE;

fn raw(name: &str, is_dir: bool, len: u64) -> RawEntry {
    RawEntry { name: name.to_string(), is_dir, len, modified: Some(1_757_000_853) }
}

/// A listing of the root from names; a name ending in `/` is a folder.
fn tree(names: &[&str]) -> Listing {
    let raws = names
        .iter()
        .map(|n| match n.strip_suffix('/') {
            Some(folder) => raw(folder, true, 4096),
            None => raw(n, false, 0),
        })
        .collect();
    build(raws, "/", "/home/alex/site")
}

fn names(listing: &Listing) -> Vec<&str> {
    listing.entries.iter().map(|e| e.name.as_str()).collect()
}

#[test]
fn puts_folders_first_then_sorts_alphabetically() {
    let page = tree(&["b.txt", "a.txt", "zeta/", "alpha/"]);
    assert_eq!(names(&page), ["alpha/", "zeta/", "a.txt", "b.txt"]);
}

#[test]
fn sorts_by_byte_order_so_capitals_come_first() {
    let page = tree(&["alpha.txt", "Beta.txt"]);
    assert_eq!(names(&page), ["Beta.txt", "alpha.txt"]);
}

#[test]
fn marks_folders_with_a_trailing_slash_and_no_size() {
    let page = tree(&["docs/", "a.txt"]);

    let docs = &page.entries[0];
    assert!(docs.is_dir);
    assert_eq!(docs.name, "docs/");
    assert_eq!(docs.href, "docs/");
    assert_eq!(docs.size, "");
    assert_eq!(docs.kind, Kind::Folder);

    let file = &page.entries[1];
    assert!(!file.is_dir);
    assert_eq!(file.href, "a.txt");
    assert_eq!(file.size, "0 B");
    assert!(!file.modified.is_empty());
}

#[test]
fn reports_a_files_size() {
    let page = build(vec![raw("big.bin", false, 2048)], "/", "/site");
    assert_eq!(page.entries[0].size, "2.0 kB");
}

#[test]
fn picks_an_icon_per_entry() {
    let page = tree(&["page.html", "app.css", "main.js", "notes.txt", "sub/"]);
    let kinds: Vec<Kind> = page.entries.iter().map(|e| e.kind).collect();

    assert_eq!(kinds, [Kind::Folder, Kind::Css, Kind::Js, Kind::File, Kind::Html]);
    assert_eq!(page.entries[0].icon(), Kind::Folder.icon());
}

#[test]
fn an_empty_directory_lists_nothing() {
    let page = tree(&[]);

    assert!(page.entries.is_empty());
    assert_eq!(page.tally(), "0 folders · 0 files");
}

#[test]
fn counts_folders_and_files_separately() {
    let page = tree(&["a/", "b/", "c.txt"]);
    assert_eq!(page.tally(), "2 folders · 1 files");
}

#[test]
fn there_is_nowhere_to_go_up_to_from_the_root() {
    assert_eq!(build(vec![], "/", "/site").parent, None);
    assert_eq!(build(vec![], "/docs/", "/site").parent, Some("../".to_string()));
}

#[test]
fn names_the_served_directory_for_the_colophon() {
    let page = build(vec![], "/", "/home/alex/site");
    assert_eq!(page.root, "/home/alex/site");
}

#[test]
fn renders_its_entries_and_its_stylesheet() {
    let page = tree(&["readme.md", "docs/"]);
    let html = page.render();

    assert!(html.contains("readme.md"));
    assert!(html.contains("docs/"));
    assert!(html.contains(STYLE));
    assert!(!page.style().is_empty());
}

#[test]
fn percent_encodes_names_that_would_break_a_url() {
    let page = tree(&["my file.txt", "a#b.txt", "q?.txt", "100%.txt"]);
    let hrefs: Vec<&str> = page.entries.iter().map(|e| e.href.as_str()).collect();

    assert!(hrefs.contains(&"my%20file.txt"));
    assert!(hrefs.contains(&"a%23b.txt"));
    assert!(hrefs.contains(&"q%3F.txt"));
    assert!(hrefs.contains(&"100%25.txt"));
    assert!(names(&page).contains(&"my file.txt"));
}

#[test]
fn encodes_a_segment_without_touching_what_is_already_safe() {
    assert_eq!(encode("plain.txt"), "plain.txt");
    assert_eq!(encode("a-b_c.d~e"), "a-b_c.d~e");
    assert_eq!(encode("my file.txt"), "my%20file.txt");
    assert_eq!(encode("a#b"), "a%23b");
    assert_eq!(encode("a?b"), "a%3Fb");
    assert_eq!(encode("50%"), "50%25");
    assert_eq!(encode("a/b"), "a%2Fb");
    assert_eq!(encode("a\\b"), "a%5Cb");
    assert_eq!(encode("<i>"), "%3Ci%3E");
    assert_eq!(encode("a\"b"), "a%22b");
    assert_eq!(encode("a`b^c{d}e|f"), "a%60b%5Ec%7Bd%7De%7Cf");
}

#[test]
fn encodes_unicode_as_utf8_bytes() {
    assert_eq!(encode("привет.txt"), "%D0%BF%D1%80%D0%B8%D0%B2%D0%B5%D1%82.txt");
    assert_eq!(encode("café"), "caf%C3%A9");
    assert_eq!(encode("🙂"), "%F0%9F%99%82");
}

#[test]
fn encodes_control_bytes_and_delete() {
    assert_eq!(encode("a\tb"), "a%09b");
    assert_eq!(encode("\u{7f}"), "%7F");
}

#[test]
fn the_root_gets_a_single_crumb_named_after_the_folder() {
    let trail = crumbs("/", "/home/alex/site");
    assert_eq!(trail.len(), 1);
    assert_eq!(trail[0].label, "site/");
    assert_eq!(trail[0].href, "/");
}

#[test]
fn a_root_with_no_name_of_its_own_stays_a_slash() {
    assert_eq!(crumbs("/", "/")[0].label, "/");
}

#[test]
fn a_nested_path_gets_a_crumb_per_segment() {
    let built = crumbs("/a/b/c/", "/home/alex/site");
    let trail: Vec<(&str, &str)> =
        built.iter().map(|c| (c.label.as_str(), c.href.as_str())).collect();

    assert_eq!(
        trail,
        [("site/", "/"), ("a/", "/a/"), ("b/", "/a/b/"), ("c/", "/a/b/c/")]
    );
}

#[test]
fn crumb_links_are_absolute_and_end_in_a_slash() {
    for crumb in crumbs("/docs/guide/", "/home/alex/site") {
        assert!(crumb.href.starts_with('/'));
        assert!(crumb.href.ends_with('/'));
    }
}

#[test]
fn a_file_without_a_time_shows_none() {
    let page = build(
        vec![RawEntry { name: "a".to_string(), is_dir: false, len: 1, modified: None }],
        "/",
        "/site",
    );
    assert_eq!(page.entries[0].modified, "");
    assert_eq!(page.entries[0].modified.len(), 0);
}

#[test]
fn names_in_the_page_are_escaped() {
    let page = tree(&["<b>.txt"]);
    let html = page.render();
    assert!(html.contains("&lt;b&gt;.txt"));
    assert!(!html.contains("<b>.txt"));
    assert!(html.contains("%3Cb%3E.txt"));
}

#[test]
fn a_listed_link_resolves_back_to_its_file() {
    for name in ["my file.txt", "a#b.txt", "q?.txt", "100%.txt", "привет.txt", "a%2Fb", "..."] {
        let page = build(vec![raw(name, false, 1)], "/docs/", "/srv");
        let href = &page.entries[0].href;
        assert_eq!(
            serv::path::resolve("/srv", &format!("/docs/{href}")),
            Some(format!("/srv/docs/{name}")),
            "{name}"
        );
    }
}

#[test]
fn a_name_with_a_backslash_cannot_be_followed() {
    let page = build(vec![raw("a\\b", false, 1)], "/", "/srv");
    assert_eq!(page.entries[0].href, "a%5Cb");
    assert_eq!(serv::path::resolve("/srv", "/a%5Cb"), None);
}
