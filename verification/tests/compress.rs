use std::io::Read;

use serv::compress::{encode, negotiate, settle, worthwhile, EncodeError, Encoding, MAX_BODY, MIN_BODY};

fn unzip(packed: &[u8]) -> Vec<u8> {
    let mut out = Vec::new();
    flate2::read::GzDecoder::new(packed).read_to_end(&mut out).unwrap();
    out
}

#[test]
fn takes_gzip_when_offered() {
    assert_eq!(negotiate(Some("gzip")), Some(Encoding::Gzip));
    assert_eq!(negotiate(Some("gzip, deflate")), Some(Encoding::Gzip));
    assert_eq!(negotiate(Some("gzip, deflate, br")), Some(Encoding::Gzip));
    assert_eq!(negotiate(Some("br, gzip")), Some(Encoding::Gzip));
}

#[test]
fn tolerates_the_whitespace_clients_actually_send() {
    assert_eq!(negotiate(Some("  gzip  ")), Some(Encoding::Gzip));
    assert_eq!(negotiate(Some("deflate,gzip")), Some(Encoding::Gzip));
    assert_eq!(negotiate(Some("gzip ; q=1.0")), Some(Encoding::Gzip));
}

#[test]
fn honours_a_refusal() {
    assert_eq!(negotiate(Some("gzip;q=0")), None);
    assert_eq!(negotiate(Some("br, gzip;q=0")), None);
    assert_eq!(negotiate(Some("gzip;q=0.0")), None);
    assert_eq!(negotiate(Some("gzip;q=0.000")), None);
    assert_eq!(negotiate(Some("gzip; q=0")), None);
}

#[test]
fn any_q_above_zero_is_acceptance() {
    assert_eq!(negotiate(Some("gzip;q=0.001")), Some(Encoding::Gzip));
    assert_eq!(negotiate(Some("gzip;q=0.5")), Some(Encoding::Gzip));
    assert_eq!(negotiate(Some("gzip;q=1")), Some(Encoding::Gzip));
}

#[test]
fn a_malformed_q_is_not_a_refusal() {
    assert_eq!(negotiate(Some("gzip;q=")), Some(Encoding::Gzip));
    assert_eq!(negotiate(Some("gzip;q=nonsense")), Some(Encoding::Gzip));
    assert_eq!(negotiate(Some("gzip;level=9")), Some(Encoding::Gzip));
}

#[test]
fn a_refusal_does_not_poison_a_later_acceptance() {
    assert_eq!(negotiate(Some("gzip;q=0, gzip")), Some(Encoding::Gzip));
}

#[test]
fn identity_when_gzip_is_not_offered() {
    assert_eq!(negotiate(None), None);
    assert_eq!(negotiate(Some("")), None);
    assert_eq!(negotiate(Some("identity")), None);
    assert_eq!(negotiate(Some("br")), None);
    assert_eq!(negotiate(Some("deflate, br, zstd")), None);
    assert_eq!(negotiate(Some("x-gzip")), None);
}

#[test]
fn matches_the_encoding_name_literally() {
    assert_eq!(negotiate(Some("GZIP")), None);
    assert_eq!(negotiate(Some("*")), None);
}

#[test]
fn compresses_only_what_benefits() {
    assert!(worthwhile("text/css; charset=utf-8"));
    assert!(worthwhile("text/html"));
    assert!(worthwhile("text/plain"));
    assert!(worthwhile("application/json"));
    assert!(worthwhile("application/javascript"));
    assert!(worthwhile("application/manifest+json"));
    assert!(worthwhile("application/wasm"));
    assert!(worthwhile("application/xml"));
    assert!(worthwhile("application/xhtml+xml"));
    assert!(worthwhile("image/svg+xml"));
}

#[test]
fn leaves_already_compressed_formats_alone() {
    assert!(!worthwhile("image/png"));
    assert!(!worthwhile("image/jpeg"));
    assert!(!worthwhile("image/webp"));
    assert!(!worthwhile("video/mp4"));
    assert!(!worthwhile("audio/mpeg"));
    assert!(!worthwhile("application/zip"));
    assert!(!worthwhile("application/octet-stream"));
    assert!(!worthwhile("font/woff2"));
}

#[test]
fn reads_past_the_parameters_and_the_whitespace() {
    assert!(worthwhile("  text/html ; charset=utf-8 "));
    assert!(!worthwhile(""));
}

#[test]
fn the_thresholds_are_one_kib_and_eight_mib() {
    assert_eq!(MIN_BODY, 1024);
    assert_eq!(MAX_BODY, 8 * 1024 * 1024);
}

#[test]
fn names_itself_for_the_wire_and_for_the_etag() {
    assert_eq!(Encoding::Gzip.name(), "gzip");
    assert_eq!(Encoding::Gzip.tag(), "-gz");
}

#[test]
fn round_trips_through_gzip() {
    let data = b"hello hello hello hello".repeat(64);
    let packed = encode(&data, Encoding::Gzip).unwrap();
    assert!(packed.len() < data.len());
    assert_eq!(unzip(&packed), data);
}

#[test]
fn round_trips_bytes_that_are_not_text() {
    let data: Vec<u8> = (0..=255u8).cycle().take(4096).collect();
    let packed = encode(&data, Encoding::Gzip).unwrap();
    assert_eq!(unzip(&packed), data);
}

#[test]
fn encodes_an_empty_body() {
    let packed = encode(b"", Encoding::Gzip).unwrap();
    assert!(!packed.is_empty());
    assert_eq!(unzip(&packed), Vec::<u8>::new());
}

#[test]
fn an_exact_one_is_acceptance_and_a_long_zero_a_refusal() {
    assert_eq!(negotiate(Some("gzip;q=1.000")), Some(Encoding::Gzip));
    assert_eq!(negotiate(Some("gzip;q=0.0000000")), None);
    assert_eq!(negotiate(Some("gzip;q=-0")), None);
    assert_eq!(negotiate(Some("gzip;q=0e5")), None);
    assert_eq!(negotiate(Some("gzip;q=1e-50")), None);
    assert_eq!(negotiate(Some("gzip;q=1e-40")), Some(Encoding::Gzip));
}

#[test]
fn the_gzip_header_starts_every_packed_body() {
    let packed = encode(b"some text", Encoding::Gzip).unwrap();
    assert_eq!(&packed[..2], &[0x1f, 0x8b]);
    assert_ne!(packed, b"some text".to_vec());
}

#[test]
fn every_packed_body_carries_the_header_and_its_length() {
    for data in [Vec::new(), b"some text".to_vec(), b"hello hello ".repeat(300)] {
        let packed = encode(&data, Encoding::Gzip).unwrap();
        assert!(packed.len() >= 18);
        assert_eq!(&packed[..10], &[0x1f, 0x8b, 8, 0, 0, 0, 0, 0, 0, 0xff]);
        let tail = &packed[packed.len() - 4..];
        assert_eq!(u32::from_le_bytes([tail[0], tail[1], tail[2], tail[3]]), data.len() as u32);
    }
}

#[test]
fn a_written_stream_is_handed_on_and_a_failure_named() {
    assert_eq!(settle(Ok(vec![1, 2, 3])).unwrap(), vec![1, 2, 3]);
    let failed = settle(Err(std::io::Error::other("corrupt deflate stream")));
    assert!(matches!(failed, Err(EncodeError::Write)));
}
