use serv::config::Config;
use serv::serve::{
    candidates, is_markdown, last_segment, page_suffix, route, strip_suffix, wants_html,
    with_query, with_suffix, Facts, Outcome,
};

#[test]
fn strips_the_extension_and_folds_an_index_into_its_directory() {
    assert_eq!(strip_suffix("/about.html", ".html"), "/about");
    assert_eq!(strip_suffix("/docs/guide.html", ".html"), "/docs/guide");
    assert_eq!(strip_suffix("/index.html", ".html"), "/");
    assert_eq!(strip_suffix("/docs/index.html", ".html"), "/docs/");
    assert_eq!(strip_suffix("/a/b/index.html", ".html"), "/a/b/");
}

#[test]
fn strips_a_markdown_extension_the_same_way() {
    assert_eq!(strip_suffix("/about.md", ".md"), "/about");
    assert_eq!(strip_suffix("/docs/index.md", ".md"), "/docs/");
    assert_eq!(strip_suffix("/index.md", ".md"), "/");
}

#[test]
fn stripping_the_extension_removes_exactly_one() {
    assert_eq!(strip_suffix("/page.html.html", ".html"), "/page.html");
    assert_eq!(strip_suffix("/notes.md.md", ".md"), "/notes.md");
}

#[test]
fn the_last_segment_is_what_decides_a_navigation() {
    assert_eq!(last_segment("/a/b/c.js"), "c.js");
    assert_eq!(last_segment("/a/b/"), "");
    assert_eq!(last_segment("/"), "");
    assert_eq!(last_segment("plain"), "plain");
}

#[test]
fn the_suffix_is_appended_not_substituted() {
    assert_eq!(with_suffix("/srv/about", ".html"), "/srv/about.html");
    assert_eq!(with_suffix("/srv/a.b", ".html"), "/srv/a.b.html");
    assert_eq!(with_suffix("/srv/about", ".md"), "/srv/about.md");
}

fn config(markdown: bool) -> Config {
    Config {
        root: "/srv".to_string(),
        only: None,
        spa: None,
        ext: false,
        not_found: None,
        markdown,
    }
}

fn facts() -> Facts {
    Facts {
        canonical: None,
        is_file: false,
        is_dir: false,
        index: false,
        index_md: false,
        readme: false,
        html: false,
        md: false,
        spa: false,
        not_found: false,
    }
}

#[test]
fn only_html_and_rendered_markdown_are_redirected_out_of() {
    assert_eq!(page_suffix("/a.html", &config(false)), Some(".html"));
    assert_eq!(page_suffix("/a.md", &config(false)), None);
    assert_eq!(page_suffix("/a.md", &config(true)), Some(".md"));
    assert_eq!(page_suffix("/a.txt", &config(true)), None);
}

#[test]
fn markdown_is_known_by_its_extension() {
    assert!(is_markdown("/srv/a.md"));
    assert!(is_markdown("/srv/A.MD"));
    assert!(!is_markdown("/srv/a.markdown"));
    assert!(!is_markdown("/srv/a.txt"));
    assert!(!is_markdown("/srv/.md"));
}

#[test]
fn a_navigation_is_told_from_a_request_for_an_asset() {
    assert!(wants_html(Some("text/html,application/xhtml+xml"), "/app/route"));
    assert!(!wants_html(Some("*/*"), "/app.js"));
    assert!(wants_html(Some("text/css"), "/app"));
    assert!(!wants_html(None, "/app.css"));
}

#[test]
fn a_query_is_carried_onto_a_redirect() {
    assert_eq!(with_query("/about", Some("a=1")), "/about?a=1");
    assert_eq!(with_query("/about", None), "/about");
}

#[test]
fn the_candidates_are_named_from_the_resolved_target() {
    let c = candidates(&config(true), "/docs").unwrap();
    assert_eq!(c.target, "/srv/docs");
    assert_eq!(c.index, "/srv/docs/index.html");
    assert_eq!(c.index_md, "/srv/docs/index.md");
    assert_eq!(c.readme, "/srv/docs/README.md");
    assert_eq!(c.html, "/srv/docs.html");
    assert_eq!(c.md, "/srv/docs.md");
    assert!(candidates(&config(true), "/../etc").is_none());
}

fn is(outcome: Outcome, what: &str) -> bool {
    format!("{outcome:?}") == what
}

#[test]
fn a_method_other_than_get_or_head_is_refused() {
    assert!(is(route("POST", "/", None, None, &config(false), &facts()), "NotAllowed"));
}

#[test]
fn a_page_is_redirected_to_its_clean_address() {
    let mut f = facts();
    f.is_file = true;
    let r = route("GET", "/about.html", Some("x=1"), None, &config(false), &f);
    assert!(is(r, "Redirect(\"/about?x=1\")"), "redirect");
}

#[test]
fn a_file_is_served_as_it_is() {
    let mut f = facts();
    f.is_file = true;
    let r = route("GET", "/a.txt", None, None, &config(false), &f);
    assert!(is(r, "File(\"/srv/a.txt\", 200)"));
}

#[test]
fn a_clean_address_finds_its_page() {
    let mut f = facts();
    f.html = true;
    let r = route("GET", "/about", None, None, &config(false), &f);
    assert!(is(r, "File(\"/srv/about.html\", 200)"));
}

#[test]
fn a_folder_without_a_slash_is_redirected_to_one() {
    let mut f = facts();
    f.is_dir = true;
    let r = route("GET", "/docs", None, None, &config(false), &f);
    assert!(is(r, "Redirect(\"/docs/\")"));
}

#[test]
fn a_folder_without_an_index_is_listed() {
    let mut f = facts();
    f.is_dir = true;
    let r = route("GET", "/docs/", None, None, &config(false), &f);
    assert!(is(r, "Listing(\"/srv/docs\")"));
}

#[test]
fn nothing_there_is_not_found() {
    let r = route("GET", "/nope", None, None, &config(false), &facts());
    assert!(is(r, "NotFound"));
}

#[test]
fn without_markdown_a_markdown_file_is_handed_over_as_it_is() {
    let mut f = facts();
    f.is_file = true;
    let r = route("GET", "/notes.md", None, None, &config(false), &f);
    assert!(is(r, "File(\"/srv/notes.md\", 200)"));
    let r = route("GET", "/notes.md", None, None, &config(true), &f);
    assert!(is(r, "Redirect(\"/notes\")"));
}

#[test]
fn a_missing_script_stays_a_miss_under_an_spa() {
    let mut c = config(false);
    c.spa = Some("/srv/index.html".to_string());
    let mut f = facts();
    f.spa = true;
    assert!(is(route("GET", "/app.js", None, Some("*/*"), &c, &f), "NotFound"));
    assert!(is(
        route("GET", "/some/route", None, Some("text/html"), &c, &f),
        "File(\"/srv/index.html\", 200)"
    ));
}

#[test]
fn a_single_file_is_served_at_the_root_and_nowhere_else() {
    let mut c = config(true);
    c.only = Some("/srv/README.md".to_string());
    let mut f = facts();
    f.is_file = true;
    assert!(is(route("GET", "/", None, None, &c, &f), "Document(\"/srv/README.md\")"));
    assert!(is(route("GET", "/README.md", None, None, &c, &f), "NotFound"));
    c.markdown = false;
    assert!(is(route("GET", "/", None, None, &c, &f), "File(\"/srv/README.md\", 200)"));
}

#[test]
fn a_symlink_out_of_the_root_is_a_miss() {
    let mut f = facts();
    f.is_file = true;
    f.canonical = Some("/etc/passwd".to_string());
    assert!(is(route("GET", "/link", None, None, &config(false), &f), "NotFound"));
}

#[test]
fn a_page_and_its_clean_address_name_the_same_file() {
    let c = config(true);
    for (page, clean) in [
        ("/about.html", "/about"),
        ("/docs/guide.md", "/docs/guide"),
        ("/docs/index.html", "/docs/"),
        ("/my%20page.html", "/my%20page"),
    ] {
        let file = candidates(&c, page).unwrap().target;
        let ext = if page.ends_with(".md") { ".md" } else { ".html" };
        assert_eq!(strip_suffix(page, ext), clean);
        let there = candidates(&c, clean).unwrap();
        assert!(
            there.html == file || there.md == file || there.index == file,
            "{page} -> {clean}"
        );
    }
}
