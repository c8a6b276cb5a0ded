use serv::logging::{access_line, status_badge, ACCESS};
use serv::pages::human_size;
use serv::style::{enabled, paint};

#[test]
fn access_lines_have_their_own_target() {
    assert_eq!(ACCESS, "serv::access");
}

#[test]
fn colours_a_status_by_its_class() {
    for on in [true, false] {
        for (status, colour) in [
            (200u16, "32"),
            (204, "32"),
            (299, "32"),
            (301, "36"),
            (304, "36"),
            (404, "33"),
            (405, "33"),
            (416, "33"),
            (500, "31"),
            (100, "31"),
        ] {
            assert_eq!(
                status_badge(status, on),
                paint(on, colour, &status.to_string()),
                "status {status}"
            );
        }
    }
}

#[test]
fn a_badge_always_says_the_number() {
    for on in [true, false] {
        for status in [200u16, 301, 404, 500] {
            assert!(status_badge(status, on).contains(&status.to_string()));
        }
    }
}

#[test]
fn sizes_are_the_same_ones_the_listing_prints() {
    assert_eq!(human_size(0), "0 B");
    assert_eq!(human_size(1023), "1023 B");
    assert_eq!(human_size(2048), "2.0 kB");
}

#[test]
fn a_size_is_dropped_when_there_is_none_to_report() {
    let with = access_line("GET", "/", 200, Some(2400), "600 µs", false);
    assert!(with.ends_with(" 2.3 kB  600 µs"));
    let without = access_line("GET", "/", 200, None, "600 µs", false);
    assert!(without.ends_with(" 600 µs"));
    assert!(!without.contains("kB"));
    let painted = access_line("GET", "/", 200, Some(2400), "600 µs", true);
    assert!(painted.contains("2.3 kB"));
}

#[test]
fn an_access_line_lines_its_columns_up() {
    let line = access_line("GET", "/index.html", 200, Some(2400), "600 µs", false);
    assert_eq!(line, format!("200 GET  {:<38} 2.3 kB  600 µs", "/index.html"));
    let line = access_line("POST", "/", 405, None, "3.0 ms", false);
    assert_eq!(line, format!("405 POST {:<38} 3.0 ms", "/"));
    let painted = access_line("GET", "/", 404, None, "200 µs", true);
    assert_eq!(painted, format!("\x1b[33m404\x1b[0m GET  {:<38} \x1b[2m200 µs\x1b[0m", "/"));
}

#[test]
fn wraps_text_in_an_sgr_sequence_when_colour_is_on() {
    assert_eq!(paint(true, "32", "200"), "\x1b[32m200\x1b[0m");
    assert_eq!(paint(true, "38;2;192;74;47", "▌"), "\x1b[38;2;192;74;47m▌\x1b[0m");
}

#[test]
fn hands_the_text_back_untouched_when_colour_is_off() {
    assert_eq!(paint(false, "32", "200"), "200");
    assert_eq!(paint(false, "1", ""), "");
}

#[test]
fn painting_never_changes_what_the_text_says() {
    for on in [true, false] {
        assert!(paint(on, "2", "root").contains("root"));
    }
}

#[test]
fn a_pipe_is_never_painted() {
    assert!(!enabled(false, false));
    assert!(!enabled(true, true));
    assert!(enabled(true, false));
}

#[test]
fn logging_a_request_without_a_logger_installed_is_harmless() {
    let line = access_line("GET", "/index.html", 200, Some(2400), "600 µs", true);
    assert!(line.contains("/index.html"));
    let line = access_line("POST", "/", 405, None, "3.0 ms", false);
    assert!(line.starts_with("405 POST "));
}
