use reqwless::io::SliceSource;
use reqwless::request::Method;
use reqwless::response::Response;
use reqwless::status::Status;
use reqwless::Error;

fn conn(bytes: &[u8]) -> SliceSource {
    SliceSource::new(bytes.to_vec(), 1)
}

#[test]
fn response_can_read_with_content_length_with_same_buffer() {
    let mut conn = conn(b"HTTP/1.1 200 OK\r\nContent-Length: 11\r\n\r\nHELLO WORLD");
    let response = Response::read(&mut conn, Method::GET, vec![0u8; 200]).unwrap();
    assert_eq!(response.status, Status::OK);
    let body = response.body().read_to_end(&mut conn).unwrap();
    assert_eq!(b"HELLO WORLD", body.as_slice());
    assert!(conn.is_exhausted());
}

#[test]
fn mod_can_read_with_content_length_with_same_buffer() {
    let mut conn = conn(b"HTTP/1.1 200 OK\r\nContent-Length: 11\r\n\r\nHELLO WORLD");
    let response = Response::read(&mut conn, Method::GET, vec![0u8; 200]).unwrap();
    let body = response.body().read_to_end(&mut conn).unwrap();
    assert_eq!(b"HELLO WORLD", body.as_slice());
    assert!(conn.is_exhausted());
}

#[test]
fn response_can_read_with_content_length_to_other_buffer() {
    let mut conn = conn(b"HTTP/1.1 200 OK\r\nContent-Length: 11\r\n\r\nHELLO WORLD");
    let response = Response::read(&mut conn, Method::GET, vec![0u8; 200]).unwrap();
    let mut body_buf = vec![0u8; 200];
    let len = response.body().reader().read_to_end(&mut conn, &mut body_buf).unwrap();
    assert_eq!(b"HELLO WORLD", &body_buf[..len]);
    assert!(conn.is_exhausted());
}

#[test]
fn mod_can_read_with_content_length_to_other_buffer() {
    let mut conn = conn(b"HTTP/1.1 200 OK\r\nContent-Length: 11\r\n\r\nHELLO WORLD");
    let response = Response::read(&mut conn, Method::GET, vec![0u8; 200]).unwrap();
    let mut body_buf = vec![0u8; 200];
    let len = response.body().reader().read_to_end(&mut conn, &mut body_buf).unwrap();
    assert_eq!(b"HELLO WORLD", &body_buf[..len]);
    assert!(conn.is_exhausted());
}

#[test]
fn read_to_end_with_content_length_with_small_buffer() {
    let mut conn = conn(
        b"HTTP/1.1 200 OK\r\nContent-Length: 52\r\n\r\nHELLO WORLD this is some longer response for testing",
    );
    let response = Response::read(&mut conn, Method::GET, vec![0u8; 40]).unwrap();
    let body = response.body().read_to_end(&mut conn);
    match body {
        Err(Error::BufferTooSmall) => {}
        other => panic!("Unexpected result: {:?}", other.map(|_| ())),
    }
}

#[test]
fn response_can_discard_with_content_length() {
    let mut conn = conn(b"HTTP/1.1 200 OK\r\nContent-Length: 11\r\n\r\nHELLO WORLD");
    let response = Response::read(&mut conn, Method::GET, vec![0u8; 200]).unwrap();
    assert_eq!(11, response.body().discard(&mut conn).unwrap());
    assert!(conn.is_exhausted());
}

#[test]
fn mod_can_discard_with_content_length() {
    let mut conn = conn(b"HTTP/1.1 200 OK\r\nContent-Length: 11\r\n\r\nHELLO WORLD");
    let response = Response::read(&mut conn, Method::GET, vec![0u8; 200]).unwrap();
    assert_eq!(11, response.body().discard(&mut conn).unwrap());
    assert!(conn.is_exhausted());
}

#[test]
fn response_incorrect_fragment_length_does_not_panic() {
    let mut conn = conn(
        b"HTTP/1.1 200 OK\r\nTransfer-Encoding: chunked\r\n\r\n\n\r\nHELLO WORLD\r\n0\r\n\r\n",
    );
    let response = Response::read(&mut conn, Method::GET, vec![0u8; 200]).unwrap();
    let error = response.body().read_to_end(&mut conn).unwrap_err();
    assert!(matches!(error, Error::Codec));
}

#[test]
fn mod_incorrect_fragment_length_does_not_panic() {
    let mut conn = conn(
        b"HTTP/1.1 200 OK\r\nTransfer-Encoding: chunked\r\n\r\n\n\r\nHELLO WORLD\r\n0\r\n\r\n",
    );
    let response = Response::read(&mut conn, Method::GET, vec![0u8; 200]).unwrap();
    let error = response.body().read_to_end(&mut conn).unwrap_err();
    assert!(matches!(error, Error::Codec));
}

#[test]
fn response_can_read_with_chunked_encoding() {
    let mut conn = conn(
        b"HTTP/1.1 200 OK\r\nTransfer-Encoding: chunked\r\n\r\n5\r\nHELLO\r\n6\r\n WORLD\r\n0\r\n\r\n",
    );
    let response = Response::read(&mut conn, Method::GET, vec![0u8; 200]).unwrap();
    let mut body_buf = vec![0u8; 200];
    let len = response.body().reader().read_to_end(&mut conn, &mut body_buf).unwrap();
    assert_eq!(b"HELLO WORLD", &body_buf[..len]);
    assert!(conn.is_exhausted());
}

#[test]
fn mod_can_read_with_chunked_encoding() {
    let mut conn = conn(
        b"HTTP/1.1 200 OK\r\nTransfer-Encoding: chunked\r\n\r\n5\r\nHELLO\r\n6\r\n WORLD\r\n0\r\n\r\n",
    );
    let response = Response::read(&mut conn, Method::GET, vec![0u8; 200]).unwrap();
    let mut body_buf = vec![0u8; 200];
    let len = response.body().reader().read_to_end(&mut conn, &mut body_buf).unwrap();
    assert_eq!(b"HELLO WORLD", &body_buf[..len]);
    assert!(conn.is_exhausted());
}

#[test]
fn can_read_chunked_with_preloaded() {
    let mut conn = SliceSource::new(
        b"HTTP/1.1 200 OK\r\nTransfer-Encoding: chunked\r\n\r\n5\r\nHELLO\r\n6\r\n WORLD\r\n0\r\n\r\n"
            .to_vec(),
        100,
    );
    let response = Response::read(&mut conn, Method::GET, vec![0u8; 200]).unwrap();
    let mut body_buf = vec![0u8; 200];
    let len = response.body().reader().read_to_end(&mut conn, &mut body_buf).unwrap();
    assert_eq!(b"HELLO WORLD", &body_buf[..len]);
    assert!(conn.is_exhausted());
}

#[test]
fn response_can_read_with_chunked_encoding_empty_body() {
    let mut conn = conn(b"HTTP/1.1 200 OK\r\nTransfer-Encoding: chunked\r\n\r\n0\r\n\r\n");
    let response = Response::read(&mut conn, Method::GET, vec![0u8; 200]).unwrap();
    let mut body_buf = vec![0u8; 200];
    let len = response.body().reader().read_to_end(&mut conn, &mut body_buf).unwrap();
    assert_eq!(0, len);
    assert!(conn.is_exhausted());
}

#[test]
fn mod_can_read_with_chunked_encoding_empty_body() {
    let mut conn = conn(b"HTTP/1.1 200 OK\r\nTransfer-Encoding: chunked\r\n\r\n0\r\n\r\n");
    let response = Response::read(&mut conn, Method::GET, vec![0u8; 200]).unwrap();
    let mut body_buf = vec![0u8; 200];
    let len = response.body().reader().read_to_end(&mut conn, &mut body_buf).unwrap();
    assert_eq!(0, len);
    assert!(conn.is_exhausted());
}

#[test]
fn response_can_discard_with_chunked_encoding() {
    let mut conn = conn(
        b"HTTP/1.1 200 OK\r\nTransfer-Encoding: chunked\r\n\r\nB\r\nHELLO WORLD\r\n0\r\n\r\n",
    );
    let response = Response::read(&mut conn, Method::GET, vec![0u8; 200]).unwrap();
    assert_eq!(11, response.body().discard(&mut conn).unwrap());
    assert!(conn.is_exhausted());
}

#[test]
fn mod_can_discard_with_chunked_encoding() {
    let mut conn = conn(
        b"HTTP/1.1 200 OK\r\nTransfer-Encoding: chunked\r\n\r\nB\r\nHELLO WORLD\r\n0\r\n\r\n",
    );
    let response = Response::read(&mut conn, Method::GET, vec![0u8; 200]).unwrap();
    assert_eq!(11, response.body().discard(&mut conn).unwrap());
    assert!(conn.is_exhausted());
}

#[test]
fn can_read_to_end_with_chunked_encoding() {
    let mut conn = SliceSource::new(
        b"HTTP/1.1 200 OK\r\nTransfer-Encoding: chunked\r\n\r\n5\r\nHELLO\r\n6\r\n WORLD\r\n0\r\n\r\n"
            .to_vec(),
        10,
    );
    let response = Response::read(&mut conn, Method::GET, vec![0u8; 200]).unwrap();
    let body = response.body().read_to_end(&mut conn).unwrap();
    assert_eq!(b"HELLO WORLD", body.as_slice());
    assert!(conn.is_exhausted());
}

#[test]
fn can_read_to_end_into_a_small_buffer() {
    let mut conn = SliceSource::new(
        b"HTTP/1.1 200 OK\r\nTransfer-Encoding: chunked\r\n\r\n5\r\nHELLO\r\n6\r\n WORLD\r\n1\r\n \r\n5\r\nHELLO\r\n6\r\n WORLD\r\n1\r\n \r\n5\r\nHELLO\r\n6\r\n WORLD\r\n0\r\n\r\n"
            .to_vec(),
        10,
    );
    // The buffer is long enough to hold the complete response.
    let response = Response::read(&mut conn, Method::GET, vec![0u8; 50]).unwrap();
    let body = response.body().read_to_end(&mut conn).unwrap();
    assert_eq!(b"HELLO WORLD HELLO WORLD HELLO WORLD", body.as_slice());
    assert!(conn.is_exhausted());
}

#[test]
fn response_can_read_to_end_of_connection_with_same_buffer() {
    let mut conn = conn(b"HTTP/1.1 200 OK\r\n\r\nHELLO WORLD");
    let response = Response::read(&mut conn, Method::GET, vec![0u8; 200]).unwrap();
    let body = response.body().read_to_end(&mut conn).unwrap();
    assert_eq!(b"HELLO WORLD", body.as_slice());
    assert!(conn.is_exhausted());
}

#[test]
fn mod_can_read_to_end_of_connection_with_same_buffer() {
    let mut conn = conn(b"HTTP/1.1 200 OK\r\n\r\nHELLO WORLD");
    let response = Response::read(&mut conn, Method::GET, vec![0u8; 200]).unwrap();
    let body = response.body().read_to_end(&mut conn).unwrap();
    assert_eq!(b"HELLO WORLD", body.as_slice());
    assert!(conn.is_exhausted());
}

#[test]
fn response_can_read_to_end_of_connection_to_other_buffer() {
    let mut conn = conn(b"HTTP/1.1 200 OK\r\n\r\nHELLO WORLD");
    let response = Response::read(&mut conn, Method::GET, vec![0u8; 200]).unwrap();
    let mut body_buf = vec![0u8; 200];
    let len = response.body().reader().read_to_end(&mut conn, &mut body_buf).unwrap();
    assert_eq!(b"HELLO WORLD", &body_buf[..len]);
    assert!(conn.is_exhausted());
}

#[test]
fn mod_can_read_to_end_of_connection_to_other_buffer() {
    let mut conn = conn(b"HTTP/1.1 200 OK\r\n\r\nHELLO WORLD");
    let response = Response::read(&mut conn, Method::GET, vec![0u8; 200]).unwrap();
    let mut body_buf = vec![0u8; 200];
    let len = response.body().reader().read_to_end(&mut conn, &mut body_buf).unwrap();
    assert_eq!(b"HELLO WORLD", &body_buf[..len]);
    assert!(conn.is_exhausted());
}

#[test]
fn response_can_discard_to_end_of_connection() {
    let mut conn = conn(b"HTTP/1.1 200 OK\r\n\r\nHELLO WORLD");
    let response = Response::read(&mut conn, Method::GET, vec![0u8; 200]).unwrap();
    assert_eq!(11, response.body().discard(&mut conn).unwrap());
    assert!(conn.is_exhausted());
}

#[test]
fn mod_can_discard_to_end_of_connection() {
    let mut conn = conn(b"HTTP/1.1 200 OK\r\n\r\nHELLO WORLD");
    let response = Response::read(&mut conn, Method::GET, vec![0u8; 200]).unwrap();
    assert_eq!(11, response.body().discard(&mut conn).unwrap());
    assert!(conn.is_exhausted());
}

#[test]
fn can_read_no_content() {
    let mut conn = conn(b"HTTP/1.1 204 No Content\r\n\r\n");
    let response = Response::read(&mut conn, Method::POST, vec![0u8; 200]).unwrap();
    assert_eq!(b"", response.body().read_to_end(&mut conn).unwrap().as_slice());
    assert!(conn.is_exhausted());
}

#[test]
fn can_read_no_content_with_zero_content_length() {
    let mut conn = conn(b"HTTP/1.1 204 No Content\r\nContent-Length: 0\r\n\r\n");
    let response = Response::read(&mut conn, Method::POST, vec![0u8; 200]).unwrap();
    assert_eq!(b"", response.body().read_to_end(&mut conn).unwrap().as_slice());
    assert!(conn.is_exhausted());
}

#[test]
fn cannot_read_no_content_with_nonzero_content_length() {
    let mut conn = conn(b"HTTP/1.1 204 No Content\r\nContent-Length: 5\r\n\r\nHELLO");
    let response = Response::read(&mut conn, Method::POST, vec![0u8; 200]);
    assert!(matches!(response, Err(Error::Codec)));
}

#[test]
fn head_response_has_empty_body() {
    let mut conn = conn(b"HTTP/1.1 200 OK\r\nContent-Length: 11\r\n\r\n");
    let response = Response::read(&mut conn, Method::HEAD, vec![0u8; 200]).unwrap();
    assert_eq!(b"", response.body().read_to_end(&mut conn).unwrap().as_slice());
}

#[test]
fn headers_iterate_the_same_every_time() {
    let mut conn = conn(b"HTTP/1.1 200 OK\r\nContent-Length: 11\r\n\r\nHELLO WORLD");
    let response = Response::read(&mut conn, Method::GET, vec![0u8; 200]).unwrap();
    let mut first = response.headers();
    let mut second = response.headers();
    loop {
        let a = first.next();
        let b = second.next();
        assert_eq!(a, b);
        if a.is_none() {
            break;
        }
    }
}

#[test]
fn aborted_header_read_is_reported() {
    let mut conn = conn(b"HTTP/1.1 200 OK\r\nContent-Le");
    let response = Response::read(&mut conn, Method::GET, vec![0u8; 200]);
    assert!(matches!(response, Err(Error::ConnectionAborted)));
}

#[test]
fn header_buffer_too_small_is_reported() {
    let mut conn = conn(b"HTTP/1.1 200 OK\r\nContent-Length: 11\r\n\r\nHELLO WORLD");
    let response = Response::read(&mut conn, Method::GET, vec![0u8; 8]);
    assert!(matches!(response, Err(Error::BufferTooSmall)));
}

#[test]
fn too_many_transfer_encodings_are_a_codec_error() {
    let mut conn = conn(
        b"HTTP/1.1 200 OK\r\nTransfer-Encoding: gzip\r\nTransfer-Encoding: gzip\r\nTransfer-Encoding: gzip\r\nTransfer-Encoding: gzip\r\nTransfer-Encoding: chunked\r\n\r\n",
    );
    let response = Response::read(&mut conn, Method::GET, vec![0u8; 300]);
    assert!(matches!(response, Err(Error::Codec)));
}

#[test]
fn malformed_content_length_is_a_codec_error() {
    let mut conn = conn(b"HTTP/1.1 200 OK\r\nContent-Length: eleven\r\n\r\n");
    let response = Response::read(&mut conn, Method::GET, vec![0u8; 200]);
    assert!(matches!(response, Err(Error::Codec)));
}

#[test]
fn overflowing_content_length_is_a_codec_error() {
    let mut conn = conn(b"HTTP/1.1 200 OK\r\nContent-Length: 99999999999999999999999\r\n\r\n");
    let response = Response::read(&mut conn, Method::GET, vec![0u8; 200]);
    assert!(matches!(response, Err(Error::Codec)));
}

#[test]
fn exactly_filled_buffer_without_a_head_is_too_small() {
    // The stream fills the buffer to the byte while the head is still
    // incomplete: the buffer, not the connection, is at fault.
    let mut conn = conn(b"HTTP/1.1 2");
    let response = Response::read(&mut conn, Method::GET, vec![0u8; 10]);
    assert!(matches!(response, Err(Error::BufferTooSmall)));
}
