use reqwless::headers::{ContentType, KeepAlive, TransferEncoding};

#[test]
fn content_type_round_trips_known_names() {
    assert_eq!(ContentType::ApplicationJson, ContentType::from_bytes(b"application/json"));
    assert_eq!(ContentType::ApplicationCbor, ContentType::from_bytes(b"application/cbor"));
    assert_eq!(ContentType::TextHtml, ContentType::from_bytes(b"text/html"));
    assert_eq!(ContentType::TextPlain, ContentType::from_bytes(b"text/plain"));
    assert_eq!("application/json", ContentType::ApplicationJson.as_str());
    assert_eq!("application/octet-stream", ContentType::ApplicationOctetStream.as_str());
}

#[test]
fn unknown_content_type_collapses_to_octet_stream() {
    assert_eq!(
        ContentType::ApplicationOctetStream,
        ContentType::from_bytes(b"application/x-surprise")
    );
}

#[test]
fn transfer_encoding_parses_known_names() {
    assert_eq!(Ok(TransferEncoding::Chunked), TransferEncoding::from_bytes(b"chunked"));
    assert_eq!(Ok(TransferEncoding::Gzip), TransferEncoding::from_bytes(b"gzip"));
    assert_eq!(Ok(TransferEncoding::Deflate), TransferEncoding::from_bytes(b"deflate"));
    assert_eq!(Ok(TransferEncoding::Compress), TransferEncoding::from_bytes(b"compress"));
    assert_eq!(Err(()), TransferEncoding::from_bytes(b"sevenbit"));
    assert_eq!("chunked", TransferEncoding::Chunked.as_str());
}

#[test]
fn keep_alive_parses_both_parameters() {
    let ka = KeepAlive::parse(b"timeout=5, max=100").unwrap();
    assert_eq!(Some(5), ka.timeout);
    assert_eq!(Some(100), ka.max);
}

#[test]
fn keep_alive_keys_are_case_insensitive() {
    let ka = KeepAlive::parse(b"TIMEOUT=7").unwrap();
    assert_eq!(Some(7), ka.timeout);
    assert_eq!(None, ka.max);
}

#[test]
fn keep_alive_out_of_range_value_is_dropped() {
    let ka = KeepAlive::parse(b"timeout=300, max=2").unwrap();
    assert_eq!(None, ka.timeout);
    assert_eq!(Some(2), ka.max);
}

#[test]
fn keep_alive_rejects_bytes_that_are_not_text() {
    let result = KeepAlive::parse(&[0xFFu8, 0xFE]);
    assert!(matches!(result, Err(reqwless::Error::Codec)));
}

#[test]
fn keep_alive_later_value_wins() {
    let ka = KeepAlive::parse(b"timeout=5, timeout=9").unwrap();
    assert_eq!(Some(9), ka.timeout);
}
