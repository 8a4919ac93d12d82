use reqwless::body_writer::{BufferingChunkedBodyWriter, ChunkedBodyWriter, FixedBodyWriter};
use reqwless::io::{VecSink, Write};
use reqwless::request::{Method, Request};

fn prewritten(size: usize, prefix: &[u8]) -> Vec<u8> {
    let mut buf = vec![0u8; size];
    buf[..prefix.len()].copy_from_slice(prefix);
    buf
}

#[test]
fn body_writer_preserves_already_written_bytes_in_the_buffer_without_any_chunks() {
    let conn = VecSink::new();
    let buf = prewritten(1024, b"HELLO");
    let mut writer = BufferingChunkedBodyWriter::new_with_data(conn, buf, 5);
    writer.terminate().unwrap();
    let conn = writer.into_inner();
    assert_eq!(b"HELLO0\r\n\r\n", conn.data.as_slice());
}

#[test]
fn buffering_chunked_preserves_already_written_bytes_in_the_buffer_without_any_chunks() {
    let conn = VecSink::new();
    let buf = prewritten(1024, b"HELLO");
    let mut writer = BufferingChunkedBodyWriter::new_with_data(conn, buf, 5);
    writer.terminate().unwrap();
    let conn = writer.into_inner();
    assert_eq!(b"HELLO0\r\n\r\n", conn.data.as_slice());
}

#[test]
fn body_writer_preserves_already_written_bytes_in_the_buffer_with_chunks() {
    let conn = VecSink::new();
    let buf = prewritten(1024, b"HELLO");
    let mut writer = BufferingChunkedBodyWriter::new_with_data(conn, buf, 5);
    writer.write_all(b"BODY").unwrap();
    writer.terminate().unwrap();
    let conn = writer.into_inner();
    assert_eq!(b"HELLO4\r\nBODY\r\n0\r\n\r\n", conn.data.as_slice());
}

#[test]
fn buffering_chunked_preserves_already_written_bytes_in_the_buffer_with_chunks() {
    let conn = VecSink::new();
    let buf = prewritten(1024, b"HELLO");
    let mut writer = BufferingChunkedBodyWriter::new_with_data(conn, buf, 5);
    writer.write_all(b"BODY").unwrap();
    writer.terminate().unwrap();
    let conn = writer.into_inner();
    assert_eq!(b"HELLO4\r\nBODY\r\n0\r\n\r\n", conn.data.as_slice());
}

#[test]
fn current_chunk_is_emitted_before_empty_chunk_is_emitted() {
    let conn = VecSink::new();
    let buf = prewritten(14, b"HELLO");
    let mut writer = BufferingChunkedBodyWriter::new_with_data(conn, buf, 5);
    writer.write_all(b"BODY").unwrap(); // Can fit
    writer.terminate().unwrap(); // Cannot fit
    let conn = writer.into_inner();
    assert_eq!(b"HELLO4\r\nBODY\r\n0\r\n\r\n", conn.data.as_slice());
}

#[test]
fn body_writer_write_emits_chunks() {
    let conn = VecSink::new();
    let buf = prewritten(12, b"HELLO");
    let mut writer = BufferingChunkedBodyWriter::new_with_data(conn, buf, 5);
    writer.write_all(b"BODY").unwrap(); // Only "BO" can fit first, then "DY" goes in another chunk
    writer.terminate().unwrap();
    let conn = writer.into_inner();
    assert_eq!(b"HELLO2\r\nBO\r\n2\r\nDY\r\n0\r\n\r\n", conn.data.as_slice());
}

#[test]
fn buffering_chunked_write_emits_chunks() {
    let conn = VecSink::new();
    let buf = prewritten(12, b"HELLO");
    let mut writer = BufferingChunkedBodyWriter::new_with_data(conn, buf, 5);
    writer.write_all(b"BODY").unwrap();
    writer.terminate().unwrap();
    let conn = writer.into_inner();
    assert_eq!(b"HELLO2\r\nBO\r\n2\r\nDY\r\n0\r\n\r\n", conn.data.as_slice());
}

#[test]
fn write_when_entire_buffer_is_prewritten() {
    let conn = VecSink::new();
    let buf = prewritten(10, b"HELLOHELLO");
    let mut writer = BufferingChunkedBodyWriter::new_with_data(conn, buf, 10);
    writer.write_all(b"BODY").unwrap(); // Cannot fit
    writer.terminate().unwrap();
    let conn = writer.into_inner();
    assert_eq!(b"HELLOHELLO4\r\nBODY\r\n0\r\n\r\n", conn.data.as_slice());
}

#[test]
fn flush_empty_body_when_entire_buffer_is_prewritten() {
    let conn = VecSink::new();
    let buf = prewritten(10, b"HELLOHELLO");
    let mut writer = BufferingChunkedBodyWriter::new_with_data(conn, buf, 10);
    writer.flush().unwrap();
    let conn = writer.into_inner();
    assert_eq!(b"HELLOHELLO", conn.data.as_slice());
}

#[test]
fn terminate_empty_body_when_entire_buffer_is_prewritten() {
    let conn = VecSink::new();
    let buf = prewritten(10, b"HELLOHELLO");
    let mut writer = BufferingChunkedBodyWriter::new_with_data(conn, buf, 10);
    writer.terminate().unwrap();
    let conn = writer.into_inner();
    assert_eq!(b"HELLOHELLO0\r\n\r\n", conn.data.as_slice());
}

#[test]
fn flush_when_entire_buffer_is_nearly_prewritten() {
    let conn = VecSink::new();
    let buf = prewritten(11, b"HELLOHELLO");
    let mut writer = BufferingChunkedBodyWriter::new_with_data(conn, buf, 10);
    writer.flush().unwrap();
    let conn = writer.into_inner();
    assert_eq!(b"HELLOHELLO", conn.data.as_slice());
}

#[test]
fn flushes_already_written_bytes_if_first_cannot_fit() {
    let conn = VecSink::new();
    let buf = prewritten(10, b"HELLO");
    let mut writer = BufferingChunkedBodyWriter::new_with_data(conn, buf, 5);
    writer.write_all(b"BODY").unwrap(); // Cannot fit
    writer.terminate().unwrap(); // Can fit
    let conn = writer.into_inner();
    assert_eq!(b"HELLO4\r\nBODY\r\n0\r\n\r\n", conn.data.as_slice());
}

#[test]
fn written_bytes_fit_exactly() {
    let conn = VecSink::new();
    let buf = prewritten(14, b"HELLO");
    let mut writer = BufferingChunkedBodyWriter::new_with_data(conn, buf, 5);
    writer.write_all(b"BODY").unwrap(); // Can fit exactly
    writer.write_all(b"BODY").unwrap(); // Can fit
    writer.terminate().unwrap(); // Can fit
    let conn = writer.into_inner();
    assert_eq!(b"HELLO4\r\nBODY\r\n4\r\nBODY\r\n0\r\n\r\n", conn.data.as_slice());
}

#[test]
fn current_chunk_is_emitted_on_termination_before_empty_chunk_is_emitted() {
    let conn = VecSink::new();
    let buf = prewritten(14, b"HELLO");
    let mut writer = BufferingChunkedBodyWriter::new_with_data(conn, buf, 5);
    writer.write_all(b"BOD").unwrap(); // Can fit
    writer.terminate().unwrap(); // Cannot fit
    let conn = writer.into_inner();
    assert_eq!(b"HELLO3\r\nBOD\r\n0\r\n\r\n", conn.data.as_slice());
}

#[test]
fn streaming_chunked_writer_frames_every_write() {
    let conn = VecSink::new();
    let mut writer = ChunkedBodyWriter::new(conn);
    writer.write_all(b"PART1").unwrap();
    writer.write_all(b"PART2").unwrap();
    writer.terminate().unwrap();
    let conn = writer.into_inner();
    assert_eq!(b"5\r\nPART1\r\n5\r\nPART2\r\n0\r\n\r\n", conn.data.as_slice());
}

#[test]
fn streaming_chunked_writer_skips_empty_writes() {
    let conn = VecSink::new();
    let mut writer = ChunkedBodyWriter::new(conn);
    writer.write_all(b"").unwrap();
    writer.write_all(b"HI").unwrap();
    writer.terminate().unwrap();
    let conn = writer.into_inner();
    assert_eq!(b"2\r\nHI\r\n0\r\n\r\n", conn.data.as_slice());
}

#[test]
fn fixed_body_writer_tallies_bytes() {
    let conn = VecSink::new();
    let mut writer = FixedBodyWriter::new(conn);
    writer.write_all(b"HELLO").unwrap();
    writer.write_all(b" WORLD").unwrap();
    assert_eq!(11, writer.written());
    let conn = writer.into_inner();
    assert_eq!(b"HELLO WORLD", conn.data.as_slice());
}

#[test]
fn unknown_length_body_buffered_coalesces_writes() {
    // The request head goes into the scratch buffer first; the two caller
    // writes then coalesce into one chunk behind it.
    let mut head = VecSink::new();
    Request::new(Method::POST, "/")
        .body(Option::<&[u8]>::None)
        .build()
        .write_header(&mut head)
        .unwrap();
    let head_len = head.data.len();
    let mut buf = vec![0u8; 1024];
    buf[..head_len].copy_from_slice(&head.data);

    let conn = VecSink::new();
    let mut writer = BufferingChunkedBodyWriter::new_with_data(conn, buf, head_len);
    writer.write_all(b"PART1").unwrap();
    writer.write_all(b"PART2").unwrap();
    writer.terminate().unwrap();
    let conn = writer.into_inner();
    assert_eq!(
        b"POST / HTTP/1.1\r\nTransfer-Encoding: chunked\r\n\r\na\r\nPART1PART2\r\n0\r\n\r\n",
        conn.data.as_slice()
    );
}
