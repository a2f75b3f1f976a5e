use zif_tiff::http::{chunk_from_response, parse_content_range, parse_u64};
use zif_tiff::Error;

#[test]
fn content_range_gives_half_open_range() {
    assert_eq!(parse_content_range(b"bytes 0-99/1000"), Some(0..100));
    assert_eq!(parse_content_range(b"bytes 16-31/*"), Some(16..32));
    assert_eq!(parse_content_range(b"bytes +5-+9/10"), Some(5..10));
}

#[test]
fn content_range_rejects_malformed_values() {
    assert_eq!(parse_content_range(b"bits 0-99/1000"), None);
    assert_eq!(parse_content_range(b"bytes 0-99"), None);
    assert_eq!(parse_content_range(b"bytes 099/1000"), None);
    assert_eq!(parse_content_range(b"bytes -5-9/10"), None);
    assert_eq!(parse_content_range(b"bytes 0-18446744073709551615/1"), None);
    assert_eq!(parse_content_range(b"bytes a-9/10"), None);
    assert_eq!(parse_content_range(b""), None);
}

#[test]
fn decimal_parse_follows_from_str() {
    assert_eq!(parse_u64(b"0"), Some(0));
    assert_eq!(parse_u64(b"+42"), Some(42));
    assert_eq!(parse_u64(b"18446744073709551615"), Some(u64::MAX));
    assert_eq!(parse_u64(b"18446744073709551616"), None);
    assert_eq!(parse_u64(b"+"), None);
    assert_eq!(parse_u64(b""), None);
    assert_eq!(parse_u64(b"-1"), None);
    assert_eq!(parse_u64(b"1 "), None);
    for v in [7u64, 123456789, u64::MAX / 3] {
        assert_eq!(parse_u64(v.to_string().as_bytes()), v.to_string().parse().ok());
    }
}

#[test]
fn partial_content_response_carries_announced_range() {
    let chunk = chunk_from_response(206, Some(b"bytes 10-12/100"), vec![1, 2, 3]).unwrap();
    assert_eq!(chunk.range(), 10..13);
    assert_eq!(chunk.bytes(), &[1, 2, 3]);
}

#[test]
fn partial_content_response_with_wrong_length_is_refused() {
    assert!(matches!(
        chunk_from_response(206, Some(b"bytes 10-12/100"), vec![1, 2]),
        Err(Error::InvalidInput(_))
    ));
}

#[test]
fn full_response_and_unusable_header_start_at_zero() {
    let full = chunk_from_response(200, Some(b"bytes 10-12/100"), vec![1, 2, 3]).unwrap();
    assert_eq!(full.range(), 0..3);
    let no_header = chunk_from_response(206, None, vec![4, 5]).unwrap();
    assert_eq!(no_header.range(), 0..2);
    let bad_header = chunk_from_response(206, Some(b"garbage"), vec![4, 5]).unwrap();
    assert_eq!(bad_header.range(), 0..2);
}

#[test]
fn other_statuses_are_refused() {
    assert!(matches!(
        chunk_from_response(404, None, Vec::new()),
        Err(Error::InvalidInput(_))
    ));
    assert!(matches!(
        chunk_from_response(416, Some(b"bytes */100"), Vec::new()),
        Err(Error::InvalidInput(_))
    ));
}

#[test]
fn range_header_names_the_inclusive_byte_range() {
    let req = zif_tiff::Request::new(16..272).unwrap();
    assert_eq!(zif_tiff::http::range_header(&req).unwrap(), b"bytes=16-271".to_vec());
    let one = zif_tiff::Request::new(0..1).unwrap();
    assert_eq!(zif_tiff::http::range_header(&one).unwrap(), b"bytes=0-0".to_vec());
    let empty = zif_tiff::Request::new(5..5).unwrap();
    assert!(zif_tiff::http::range_header(&empty).is_none());
}

#[test]
fn only_a_full_response_tells_the_file_length() {
    let full = zif_tiff::http::chunk_from_response(200, None, vec![1, 2, 3]).unwrap();
    assert_eq!(full.file_len(), Some(3));
    let part = zif_tiff::http::chunk_from_response(206, Some(b"bytes 0-2/100"), vec![1, 2, 3]).unwrap();
    assert_eq!(part.file_len(), None);
}

#[test]
fn partial_content_with_signed_numbers_keeps_its_range() {
    let chunk = chunk_from_response(206, Some(b"bytes +10-+12/100"), vec![1, 2, 3]).unwrap();
    assert_eq!(chunk.range(), 10..13);
    assert_eq!(chunk.file_len(), None);
}
