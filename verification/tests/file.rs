use serv::compress::Encoding;
use serv::file::{content_range, content_type, etag, parse_range, plan, unsatisfied_range, Asked, Body, Range};

#[test]
fn reads_a_closed_range() {
    assert_eq!(parse_range("bytes=2-5", 10), Range::Partial(2, 5));
    assert_eq!(parse_range("bytes=0-0", 10), Range::Partial(0, 0));
    assert_eq!(parse_range("bytes=0-9", 10), Range::Partial(0, 9));
}

#[test]
fn reads_an_open_range() {
    assert_eq!(parse_range("bytes=7-", 10), Range::Partial(7, 9));
    assert_eq!(parse_range("bytes=0-", 10), Range::Partial(0, 9));
}

#[test]
fn reads_a_suffix_range() {
    assert_eq!(parse_range("bytes=-3", 10), Range::Partial(7, 9));
    assert_eq!(parse_range("bytes=-99", 10), Range::Partial(0, 9));
    assert_eq!(parse_range("bytes=-10", 10), Range::Partial(0, 9));
}

#[test]
fn tolerates_whitespace_around_the_spec() {
    assert_eq!(parse_range("bytes= 2 - 5 ", 10), Range::Partial(2, 5));
}

#[test]
fn clamps_an_end_past_the_file() {
    assert_eq!(parse_range("bytes=5-99", 10), Range::Partial(5, 9));
}

#[test]
fn rejects_a_range_that_starts_past_the_file() {
    assert_eq!(parse_range("bytes=10-12", 10), Range::Unsatisfiable);
    assert_eq!(parse_range("bytes=10-", 10), Range::Unsatisfiable);
    assert_eq!(parse_range("bytes=-0", 10), Range::Unsatisfiable);
}

#[test]
fn rejects_a_range_that_runs_backwards() {
    assert_eq!(parse_range("bytes=5-3", 10), Range::Unsatisfiable);
}

#[test]
fn falls_back_to_the_whole_file() {
    assert_eq!(parse_range("items=0-1", 10), Range::Whole);
    assert_eq!(parse_range("bytes=0-1,4-5", 10), Range::Whole);
    assert_eq!(parse_range("bytes=abc-", 10), Range::Whole);
    assert_eq!(parse_range("bytes=1-abc", 10), Range::Whole);
    assert_eq!(parse_range("bytes=nonsense", 10), Range::Whole);
    assert_eq!(parse_range("", 10), Range::Whole);
}

#[test]
fn a_range_over_an_empty_file_is_unsatisfiable() {
    assert_eq!(parse_range("bytes=0-", 0), Range::Unsatisfiable);
    assert_eq!(parse_range("bytes=-5", 0), Range::Unsatisfiable);
    assert_eq!(parse_range("bytes=0-5", 0), Range::Unsatisfiable);
}

#[test]
fn an_etag_is_built_from_the_size_and_the_timestamp() {
    assert_eq!(etag(0, Some(0), None), "\"0-0\"");
    assert_eq!(etag(255, Some(1_000_000_000), None), "\"ff-3b9aca00\"");
}

#[test]
fn an_etag_without_a_timestamp_still_has_a_shape() {
    assert_eq!(etag(16, None, None), "\"10-0\"");
}

#[test]
fn an_etag_names_its_encoding() {
    let epoch = Some(0);
    assert_eq!(etag(0, epoch, Some(Encoding::Gzip)), "\"0-0-gz\"");
    assert_ne!(etag(0, epoch, None), etag(0, epoch, Some(Encoding::Gzip)));
}

#[test]
fn an_etag_moves_with_either_half_of_what_it_is_made_of() {
    let epoch = Some(0);
    let later = Some(1_000_000_000);

    assert_ne!(etag(1, epoch, None), etag(2, epoch, None));
    assert_ne!(etag(1, epoch, None), etag(1, later, None));
    assert_eq!(etag(1, epoch, None), etag(1, epoch, None));
}

#[test]
fn a_validator_matches_itself_a_list_or_a_wildcard() {
    assert!(serv::file::matches(Some("\"abc\""), "\"abc\""));
    assert!(serv::file::matches(Some("*"), "\"abc\""));
    assert!(serv::file::matches(Some("\"x\", \"abc\""), "\"abc\""));
    assert!(serv::file::matches(Some("  \"abc\"  "), "\"abc\""));
}

#[test]
fn a_validator_does_not_match_anything_else() {
    assert!(!serv::file::matches(None, "\"abc\""));
    assert!(!serv::file::matches(Some(""), "\"abc\""));
    assert!(!serv::file::matches(Some("\"other\""), "\"abc\""));
    assert!(!serv::file::matches(Some("W/\"abc\""), "\"abc\""));
}

#[test]
fn tags_text_with_a_charset() {
    assert_eq!(content_type("a.html"), "text/html; charset=utf-8");
    assert_eq!(content_type("a.css"), "text/css; charset=utf-8");
    assert_eq!(content_type("a.svg"), "image/svg+xml; charset=utf-8");
    assert_eq!(content_type("a.json"), "application/json; charset=utf-8");
    assert_eq!(content_type("a.png"), "image/png");
    assert_eq!(content_type("a.woff2"), "font/woff2");
}

#[test]
fn an_unknown_name_is_a_stream_of_bytes() {
    assert_eq!(content_type("LICENSE"), "application/octet-stream");
    assert_eq!(content_type("a.whatever"), "application/octet-stream");
}

#[test]
fn a_range_is_reported_inclusively() {
    assert_eq!(content_range(2, 5, 10), "bytes 2-5/10");
    assert_eq!(unsatisfied_range(10), "bytes */10");
    assert_eq!(unsatisfied_range(0), "bytes */0");
}

fn asked<'a>(
    accept_encoding: Option<&'a str>,
    if_none_match: Option<&'a str>,
    if_range: Option<&'a str>,
    range: Option<&'a str>,
) -> Asked<'a> {
    Asked { accept_encoding, if_none_match, if_range, range }
}

#[test]
fn a_plain_request_streams_the_whole_file() {
    let p = plan("a.bin", 200, 10, Some(0), &asked(None, None, None, None));
    assert_eq!(p.body, Body::Stream { status: 200, start: 0, span: 10 });
    assert_eq!(p.etag, "\"a-0\"");
    assert_eq!(p.content_type, "application/octet-stream");
    assert_eq!(p.last_modified.as_deref(), Some("Thu, 01 Jan 1970 00:00:00 GMT"));
    assert_eq!(p.cache_control, "no-cache");
    assert!(p.accept_ranges);
}

#[test]
fn a_matching_validator_is_not_modified() {
    let p = plan("a.bin", 200, 10, Some(0), &asked(None, Some("\"a-0\""), None, None));
    assert_eq!(p.body, Body::NotModified);
    let p = plan("a.bin", 200, 10, Some(0), &asked(None, Some("*"), None, None));
    assert_eq!(p.body, Body::NotModified);
    assert_eq!(p.cache_control, "no-cache");
    assert!(!p.accept_ranges);
}

#[test]
fn a_not_found_page_is_never_revalidated() {
    let p = plan("404.html", 404, 4, Some(0), &asked(None, Some("*"), None, None));
    assert_eq!(p.body, Body::Stream { status: 404, start: 0, span: 4 });
}

#[test]
fn a_range_is_streamed_with_206() {
    let p = plan("a.bin", 200, 10, Some(0), &asked(None, None, None, Some("bytes=2-5")));
    assert_eq!(p.body, Body::Stream { status: 206, start: 2, span: 4 });
    let p = plan("a.bin", 200, 10, Some(0), &asked(None, None, None, Some("bytes=10-20")));
    assert_eq!(p.body, Body::Unsatisfiable);
    assert!(p.accept_ranges);
}

#[test]
fn a_stale_if_range_gets_the_whole_file() {
    let p = plan(
        "a.bin",
        200,
        10,
        Some(0),
        &asked(None, None, Some("\"old\""), Some("bytes=5-")),
    );
    assert_eq!(p.body, Body::Stream { status: 200, start: 0, span: 10 });
    let p = plan(
        "a.bin",
        200,
        10,
        Some(0),
        &asked(None, None, Some("\"a-0\""), Some("bytes=5-")),
    );
    assert_eq!(p.body, Body::Stream { status: 206, start: 5, span: 5 });
}

#[test]
fn text_of_a_middling_size_is_compressed_when_welcome() {
    let p = plan("a.txt", 200, 2048, Some(0), &asked(Some("gzip"), None, None, None));
    assert_eq!(p.body, Body::Compressed(Encoding::Gzip));
    assert_eq!(p.etag, "\"800-0-gz\"");
    assert!(p.vary);
    assert_eq!(p.cache_control, "no-cache");
    assert!(!p.accept_ranges);
    let p = plan("a.txt", 200, 100, Some(0), &asked(Some("gzip"), None, None, None));
    assert_eq!(p.body, Body::Stream { status: 200, start: 0, span: 100 });
    let p = plan("a.png", 200, 2048, Some(0), &asked(Some("gzip"), None, None, None));
    assert_eq!(p.body, Body::Stream { status: 200, start: 0, span: 2048 });
}

#[test]
fn text_and_the_formats_read_as_text_carry_a_charset() {
    assert!(serv::file::needs_charset("text/html"));
    assert!(serv::file::needs_charset("text/plain"));
    assert!(serv::file::needs_charset("application/json"));
    assert!(serv::file::needs_charset("image/svg+xml"));
    assert!(!serv::file::needs_charset("image/png"));
    assert!(!serv::file::needs_charset("application/wasm"));
    assert!(!serv::file::needs_charset("textual/x"));
}
