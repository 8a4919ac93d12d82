use reqwless::client::{send_request, send_request_buffered};
use reqwless::io::TestConnection;
use reqwless::request::{Method, Request, StreamedBody};
use reqwless::status::Status;

#[test]
fn send_writes_head_and_fixed_body_then_reads_response() {
    let conn = TestConnection::new(b"HTTP/1.1 200 OK\r\nContent-Length: 4\r\n\r\nPONG".to_vec());
    let request = Request::new(Method::POST, "/").body(b"PING".as_slice()).build();
    let (response, mut conn, _) = send_request(conn, &request, vec![0u8; 256]).unwrap();
    assert_eq!(response.status, Status::OK);
    assert_eq!(
        b"POST / HTTP/1.1\r\nContent-Length: 4\r\n\r\nPING",
        conn.sent.data.as_slice()
    );
    let body = response.body().read_to_end(&mut conn).unwrap();
    assert_eq!(b"PONG", body.as_slice());
}

#[test]
fn send_streams_unknown_length_body_as_chunks() {
    let conn = TestConnection::new(b"HTTP/1.1 200 OK\r\nContent-Length: 0\r\n\r\n".to_vec());
    let parts: [&[u8]; 2] = [b"PART1", b"PART2"];
    let request = Request::new(Method::POST, "/")
        .body(StreamedBody { parts: &parts })
        .build();
    let (_response, conn, _) = send_request(conn, &request, vec![0u8; 256]).unwrap();
    assert_eq!(
        b"POST / HTTP/1.1\r\nTransfer-Encoding: chunked\r\n\r\n5\r\nPART1\r\n5\r\nPART2\r\n0\r\n\r\n",
        conn.sent.data.as_slice()
    );
}

#[test]
fn buffered_send_coalesces_chunks_into_one_write() {
    let conn = TestConnection::new(b"HTTP/1.1 200 OK\r\nContent-Length: 0\r\n\r\n".to_vec());
    let parts: [&[u8]; 2] = [b"PART1", b"PART2"];
    let request = Request::new(Method::POST, "/")
        .body(StreamedBody { parts: &parts })
        .build();
    let (_response, conn, _) =
        send_request_buffered(conn, vec![0u8; 1024], &request, vec![0u8; 256]).unwrap();
    assert_eq!(
        b"POST / HTTP/1.1\r\nTransfer-Encoding: chunked\r\n\r\na\r\nPART1PART2\r\n0\r\n\r\n",
        conn.sent.data.as_slice()
    );
}
