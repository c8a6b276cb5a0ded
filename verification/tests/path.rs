use serv::path::{components_of, is_within, resolve};

fn root() -> &'static str {
    "/srv"
}

fn at(p: &str) -> Option<String> {
    Some(p.to_string())
}

#[test]
fn maps_a_plain_path() {
    assert_eq!(resolve(root(), "/a/b.txt"), at("/srv/a/b.txt"));
}

#[test]
fn the_root_path_is_the_root_itself() {
    assert_eq!(resolve(root(), "/"), at(root()));
    assert_eq!(resolve(root(), ""), at(root()));
    assert_eq!(resolve(root(), "///"), at(root()));
}

#[test]
fn ignores_empty_and_dot_segments() {
    assert_eq!(resolve(root(), "//a/./b/"), at("/srv/a/b"));
    assert_eq!(resolve(root(), "/./"), at(root()));
}

#[test]
fn a_relative_url_path_is_still_read_below_the_root() {
    assert_eq!(resolve(root(), "a/b"), at("/srv/a/b"));
}

#[test]
fn a_relative_root_stays_relative() {
    assert_eq!(resolve("site", "/a.txt"), at("site/a.txt"));
}

#[test]
fn decodes_percent_escapes() {
    assert_eq!(resolve(root(), "/my%20file.txt"), at("/srv/my file.txt"));
}

#[test]
fn decodes_unicode_names() {
    assert_eq!(
        resolve(root(), "/%D0%BF%D1%80%D0%B8%D0%B2%D0%B5%D1%82.txt"),
        at("/srv/привет.txt")
    );
    assert_eq!(resolve(root(), "/café/naïve.txt"), at("/srv/café/naïve.txt"));
}

#[test]
fn refuses_invalid_utf8_escapes() {
    assert_eq!(resolve(root(), "/%FF%FE"), None);
}

#[test]
fn refuses_to_climb_out_of_the_root() {
    assert_eq!(resolve(root(), "/../etc/passwd"), None);
    assert_eq!(resolve(root(), "/a/../../etc"), None);
    assert_eq!(resolve(root(), "/.."), None);
    assert_eq!(resolve(root(), "/a/b/../../../c"), None);
}

#[test]
fn refuses_a_percent_encoded_dot_dot() {
    assert_eq!(resolve(root(), "/%2e%2e/etc"), None);
    assert_eq!(resolve(root(), "/a/%2E%2E/%2E%2E/etc"), None);
}

#[test]
fn climbing_within_the_root_is_fine() {
    assert_eq!(resolve(root(), "/a/b/../c"), at("/srv/a/c"));
    assert_eq!(resolve(root(), "/a/.."), at(root()));
}

#[test]
fn refuses_separators_smuggled_through_encoding() {
    assert_eq!(resolve(root(), "/a%2f..%2f..%2fetc"), None);
    assert_eq!(resolve(root(), "/a%2F..%2Fetc"), None);
    assert_eq!(resolve(root(), "/a%5cb"), None);
    assert_eq!(resolve(root(), "/a%5Cb"), None);
}

#[test]
fn refuses_an_embedded_nul() {
    assert_eq!(resolve(root(), "/a%00b"), None);
}

#[test]
fn dots_are_only_special_as_a_whole_segment() {
    assert_eq!(resolve(root(), "/...."), at("/srv/...."));
    assert_eq!(resolve(root(), "/a/..b/c"), at("/srv/a/..b/c"));
    assert_eq!(resolve(root(), "/.hidden"), at("/srv/.hidden"));
}

#[test]
fn a_query_string_is_not_this_functions_business() {
    assert_eq!(resolve(root(), "/a?b=1"), at("/srv/a?b=1"));
}

#[test]
fn a_path_inside_the_root_is_within_it() {
    assert!(is_within("/srv/site", Some("/srv/site/page.html")));
    assert!(is_within("/srv/site", Some("/srv/site")));
}

#[test]
fn a_path_that_is_not_on_disk_is_allowed_through() {
    assert!(is_within("/srv/site", None));
}

#[test]
fn a_symlink_pointing_out_of_the_root_is_refused() {
    assert!(!is_within("/srv/site", Some("/etc/passwd")));
    assert!(!is_within("/srv/site", Some("/srv/site-backup/page.html")));
}

#[test]
fn a_root_with_a_trailing_slash_is_the_same_root() {
    assert_eq!(resolve("/srv/", "/a"), at("/srv/a"));
    assert!(is_within("/srv/site/", Some("/srv/site/a")));
}

#[test]
fn a_path_splits_into_its_components() {
    assert_eq!(components_of("/srv//a/./b/"), vec!["/", "srv", "a", "b"]);
    assert_eq!(components_of("a/b"), vec!["a", "b"]);
}

#[test]
fn a_symlink_staying_inside_the_root_is_allowed() {
    assert!(is_within("/srv/site", Some("/srv/site/docs/real.html")));
}

#[test]
fn a_dangling_symlink_cannot_be_canonicalised_so_it_passes() {
    assert!(is_within("/srv/site", None));
}
