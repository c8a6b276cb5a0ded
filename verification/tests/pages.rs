use serv::pages::icons::Kind;
use serv::pages::not_found::{parent_of, NotFound};
use serv::pages::{human_size, human_time, FAVICON, STYLE};

#[test]
fn bytes_below_a_kilobyte_are_printed_exactly() {
    assert_eq!(human_size(0), "0 B");
    assert_eq!(human_size(1), "1 B");
    assert_eq!(human_size(512), "512 B");
    assert_eq!(human_size(1023), "1023 B");
}

#[test]
fn steps_up_a_unit_at_each_multiple_of_1024() {
    assert_eq!(human_size(1024), "1.0 kB");
    assert_eq!(human_size(1024 * 1024), "1.0 MB");
    assert_eq!(human_size(1024 * 1024 * 1024), "1.0 GB");
    assert_eq!(human_size(1024u64.pow(4)), "1.0 TB");
}

#[test]
fn keeps_one_decimal_within_a_unit() {
    assert_eq!(human_size(1025), "1.0 kB");
    assert_eq!(human_size(1536), "1.5 kB");
    assert_eq!(human_size(1024 * 1024 - 1024), "1023.0 kB");
}

#[test]
fn rounds_up_to_a_unit_it_has_not_reached() {
    assert_eq!(human_size(1024 * 1024 - 1), "1024.0 kB");
}

#[test]
fn stops_climbing_at_terabytes() {
    assert_eq!(human_size(1024u64.pow(5)), "1024.0 TB");
    assert_eq!(human_size(u64::MAX), "16777216.0 TB");
}

#[test]
fn a_tie_in_the_last_digit_goes_to_the_even_one() {
    // 1280 bytes are 1.25 kB and 1792 are 1.75 kB exactly.
    assert_eq!(human_size(1280), "1.2 kB");
    assert_eq!(human_size(1792), "1.8 kB");
    assert_eq!(human_size(1075), "1.0 kB");
    assert_eq!(human_size(1177), "1.1 kB");
    assert_eq!(human_size(1178), "1.2 kB");
    assert_eq!(human_size(2400), "2.3 kB");
}

#[test]
fn a_timestamp_loses_its_weekday_and_its_seconds() {
    assert_eq!(human_time(0), "01 Jan 1970 00:00");
    assert_eq!(human_time(1_757_000_853), "04 Sep 2025 15:47");
}

#[test]
fn a_timestamp_keeps_its_leading_zeroes() {
    let stamp = human_time(60 * 60 * 5 + 60 * 7);
    assert_eq!(stamp, "01 Jan 1970 05:07");
    assert_eq!(stamp.len(), 17);
}

#[test]
fn the_favicon_is_inlined_rather_than_fetched() {
    assert!(FAVICON.starts_with("data:image/svg+xml,"));
    assert!(!STYLE.is_empty());
}

#[test]
fn the_parent_of_a_page_is_its_directory() {
    assert_eq!(parent_of("/a/b.html"), "/a/");
    assert_eq!(parent_of("/a/b/c"), "/a/b/");
    assert_eq!(parent_of("/top.html"), "/");
}

#[test]
fn a_trailing_slash_is_ignored_before_climbing() {
    assert_eq!(parent_of("/a/b/"), "/a/");
    assert_eq!(parent_of("/a/"), "/");
}

#[test]
fn the_root_is_its_own_parent() {
    assert_eq!(parent_of("/"), "/");
    assert_eq!(parent_of("//"), "/");
    assert_eq!(parent_of(""), "/");
}

#[test]
fn a_path_with_no_slash_at_all_climbs_to_the_root() {
    assert_eq!(parent_of("nope"), "/");
}

#[test]
fn shows_the_address_back_verbatim() {
    let page = NotFound::new("/missing/page.html", "127.0.0.1:8010");

    assert_eq!(page.path, "/missing/page.html");
    assert_eq!(page.parent, "/missing/");
    assert_eq!(page.host, "127.0.0.1:8010");
}

#[test]
fn renders_the_path_the_host_and_the_inlined_stylesheet() {
    let page = NotFound::new("/missing/page.html", "localhost:8010");
    let html = page.render();

    assert!(html.contains("/missing/page.html"));
    assert!(html.contains("localhost:8010"));
    assert!(html.contains(STYLE));
    assert!(!page.style().is_empty());
}

#[test]
fn escapes_markup_in_the_path_it_echoes() {
    let page = NotFound::new("/<script>alert(1)</script>", "localhost");
    let html = page.render();

    assert!(!html.contains("<script>alert(1)</script>"));
    assert!(html.contains("&lt;script&gt;"));
}

#[test]
fn kinds_are_told_apart_by_extension() {
    assert_eq!(Kind::of("page.html"), Kind::Html);
    assert_eq!(Kind::of("a.htm"), Kind::Html);
    assert_eq!(Kind::of("app.css"), Kind::Css);
    assert_eq!(Kind::of("main.js"), Kind::Js);
    assert_eq!(Kind::of("notes.md"), Kind::Markdown);
    assert_eq!(Kind::of("photo.jpeg"), Kind::Image);
    assert_eq!(Kind::of("notes.txt"), Kind::File);
    assert_eq!(Kind::of(".css"), Kind::File);
    assert_eq!(Kind::of("Makefile"), Kind::File);
}

#[test]
fn a_stamp_is_trimmed_to_the_day_and_the_minute() {
    assert_eq!(serv::pages::short_stamp("Thu, 04 Sep 2025 15:47:33 GMT"), "04 Sep 2025 15:47");
    assert_eq!(serv::pages::short_stamp("Thu, 01 Jan 1970 00:00:00 GMT"), "01 Jan 1970 00:00");
    assert_eq!(serv::pages::short_stamp("short"), "short");
}
