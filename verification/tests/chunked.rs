use reqwless::chunked::ChunkedBodyReader;
use reqwless::io::SliceSource;
use reqwless::reader::BufferingReader;
use reqwless::Error;

#[test]
fn chunked_body_reader_can_read_preloaded() {
    let data = b"1\r\nX\r\n10\r\nYYYYYYYYYYYYYYYY\r\n0\r\n\r\n";
    let mut buffer = vec![0u8; 128];
    buffer[..data.len()].copy_from_slice(data);
    let mut raw_body = SliceSource::new(Vec::new(), 1);
    let mut reader = ChunkedBodyReader::new(BufferingReader::new(buffer, data.len()));

    let mut body = vec![0u8; 17];
    let mut got = 0;
    while got < 17 {
        let mut tmp = vec![0u8; 17 - got];
        let n = reader.read(&mut raw_body, &mut tmp).unwrap();
        assert!(n > 0);
        body[got..got + n].copy_from_slice(&tmp[..n]);
        got += n;
    }
    let mut tmp = vec![0u8; 4];
    assert_eq!(0, reader.read(&mut raw_body, &mut tmp).unwrap());
    assert_eq!(0, reader.read(&mut raw_body, &mut tmp).unwrap());
    assert_eq!(b"XYYYYYYYYYYYYYYYY", body.as_slice());
}

#[test]
fn response_chunked_body_reader_can_read_with_large_buffer() {
    let mut raw_body = SliceSource::new(b"1\r\nX\r\n10\r\nYYYYYYYYYYYYYYYY\r\n0\r\n\r\n".to_vec(), 64);
    let mut reader = ChunkedBodyReader::new(BufferingReader::new(vec![0u8; 128], 0));

    let mut body = vec![0u8; 17];
    let mut got = 0;
    while got < 17 {
        let mut tmp = vec![0u8; 17 - got];
        let n = reader.read(&mut raw_body, &mut tmp).unwrap();
        assert!(n > 0);
        body[got..got + n].copy_from_slice(&tmp[..n]);
        got += n;
    }
    let mut tmp = vec![0u8; 4];
    assert_eq!(0, reader.read(&mut raw_body, &mut tmp).unwrap());
    assert_eq!(0, reader.read(&mut raw_body, &mut tmp).unwrap());
    assert_eq!(b"XYYYYYYYYYYYYYYYY", body.as_slice());
}

#[test]
fn mod_chunked_body_reader_can_read_with_large_buffer() {
    let mut raw_body = SliceSource::new(b"1\r\nX\r\n10\r\nYYYYYYYYYYYYYYYY\r\n0\r\n\r\n".to_vec(), 64);
    let reader = ChunkedBodyReader::new(BufferingReader::new(vec![0u8; 128], 0));
    let body = reader.read_to_end(&mut raw_body).unwrap();
    assert_eq!(b"XYYYYYYYYYYYYYYYY", body.as_slice());
}

#[test]
fn response_chunked_body_reader_can_read_with_tiny_buffer() {
    let mut raw_body = SliceSource::new(b"1\r\nX\r\n10\r\nYYYYYYYYYYYYYYYY\r\n0\r\n\r\n".to_vec(), 64);
    let mut reader = ChunkedBodyReader::new(BufferingReader::new(vec![0u8; 128], 0));

    let mut body: Vec<u8> = Vec::new();
    for _ in 0..17 {
        let mut buf = vec![0u8; 1];
        assert_eq!(1, reader.read(&mut raw_body, &mut buf).unwrap());
        body.push(buf[0]);
    }
    let mut buf = vec![0u8; 1];
    assert_eq!(0, reader.read(&mut raw_body, &mut buf).unwrap());
    assert_eq!(0, reader.read(&mut raw_body, &mut buf).unwrap());
    assert_eq!(b"XYYYYYYYYYYYYYYYY", body.as_slice());
}

#[test]
fn mod_chunked_body_reader_can_read_with_tiny_buffer() {
    let mut raw_body = SliceSource::new(b"1\r\nX\r\n10\r\nYYYYYYYYYYYYYYYY\r\n0\r\n\r\n".to_vec(), 1);
    let reader = ChunkedBodyReader::new(BufferingReader::new(vec![0u8; 128], 0));
    let body = reader.read_to_end(&mut raw_body).unwrap();
    assert_eq!(b"XYYYYYYYYYYYYYYYY", body.as_slice());
}

#[test]
fn leading_zeros_in_chunk_sizes_are_accepted() {
    let mut raw_body = SliceSource::new(b"0005\r\nHELLO\r\n0\r\n\r\n".to_vec(), 3);
    let reader = ChunkedBodyReader::new(BufferingReader::new(vec![0u8; 64], 0));
    let body = reader.read_to_end(&mut raw_body).unwrap();
    assert_eq!(b"HELLO", body.as_slice());
}

#[test]
fn overlong_chunk_size_is_a_codec_error() {
    let mut raw_body = SliceSource::new(b"123456789\r\nX\r\n0\r\n\r\n".to_vec(), 3);
    let reader = ChunkedBodyReader::new(BufferingReader::new(vec![0u8; 64], 0));
    assert!(matches!(reader.read_to_end(&mut raw_body), Err(Error::Codec)));
}

#[test]
fn missing_carriage_return_is_a_codec_error() {
    let mut raw_body = SliceSource::new(b"5\nHELLO\r\n0\r\n\r\n".to_vec(), 3);
    let reader = ChunkedBodyReader::new(BufferingReader::new(vec![0u8; 64], 0));
    assert!(matches!(reader.read_to_end(&mut raw_body), Err(Error::Codec)));
}

#[test]
fn truncated_chunk_is_a_connection_abort() {
    let mut raw_body = SliceSource::new(b"5\r\nHE".to_vec(), 3);
    let reader = ChunkedBodyReader::new(BufferingReader::new(vec![0u8; 64], 0));
    assert!(matches!(reader.read_to_end(&mut raw_body), Err(Error::ConnectionAborted)));
}

#[test]
fn round_trip_of_encoded_chunks() {
    // encode(B) with chunk sizes 5 and 6, decoded back to exactly B.
    let wire = b"5\r\nHELLO\r\n6\r\n WORLD\r\n0\r\n\r\n";
    let mut raw_body = SliceSource::new(wire.to_vec(), 2);
    let reader = ChunkedBodyReader::new(BufferingReader::new(vec![0u8; 64], 0));
    let body = reader.read_to_end(&mut raw_body).unwrap();
    assert_eq!(b"HELLO WORLD", body.as_slice());
    assert!(raw_body.is_exhausted());
}
