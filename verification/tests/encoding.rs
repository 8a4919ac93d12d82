use reqwless::encoding::{get_max_chunk_header_size, get_num_hex_chars, make_chunk_header};

#[test]
fn body_writer_can_get_hex_chars() {
    assert_eq!(1, get_num_hex_chars(0));
    assert_eq!(1, get_num_hex_chars(1));
    assert_eq!(1, get_num_hex_chars(0xF));
    assert_eq!(2, get_num_hex_chars(0x10));
    assert_eq!(2, get_num_hex_chars(0xFF));
    assert_eq!(3, get_num_hex_chars(0x100));
}

#[test]
fn buffering_chunked_can_get_hex_chars() {
    assert_eq!(1, get_num_hex_chars(0));
    assert_eq!(1, get_num_hex_chars(1));
    assert_eq!(1, get_num_hex_chars(0xF));
    assert_eq!(2, get_num_hex_chars(0x10));
    assert_eq!(2, get_num_hex_chars(0xFF));
    assert_eq!(3, get_num_hex_chars(0x100));
}

#[test]
fn body_writer_can_get_max_chunk_header_size() {
    assert_eq!(0, get_max_chunk_header_size(3));
    assert_eq!(3, get_max_chunk_header_size(0x00 + 2 + 2));
    assert_eq!(3, get_max_chunk_header_size(0x01 + 2 + 2));
    assert_eq!(3, get_max_chunk_header_size(0x0F + 2 + 2));
    assert_eq!(4, get_max_chunk_header_size(0x10 + 2 + 2));
    assert_eq!(4, get_max_chunk_header_size(0x11 + 2 + 2));
    assert_eq!(4, get_max_chunk_header_size(0x12 + 2 + 2));
}

#[test]
fn buffering_chunked_can_get_max_chunk_header_size() {
    assert_eq!(0, get_max_chunk_header_size(0));
    assert_eq!(0, get_max_chunk_header_size(1));
    assert_eq!(0, get_max_chunk_header_size(2));
    assert_eq!(0, get_max_chunk_header_size(3));
    assert_eq!(3, get_max_chunk_header_size(0x00 + 2 + 2));
    assert_eq!(3, get_max_chunk_header_size(0x01 + 2 + 2));
    assert_eq!(3, get_max_chunk_header_size(0x0F + 2 + 2));
    assert_eq!(4, get_max_chunk_header_size(0x10 + 2 + 2));
    assert_eq!(4, get_max_chunk_header_size(0x11 + 2 + 2));
    assert_eq!(4, get_max_chunk_header_size(0x12 + 2 + 2));
}

#[test]
fn body_writer_can_write_chunked_header() {
    assert_eq!(b"0\r\n", make_chunk_header(0x00).as_slice());
    assert_eq!(b"1\r\n", make_chunk_header(0x01).as_slice());
    assert_eq!(b"f\r\n", make_chunk_header(0x0F).as_slice());
    assert_eq!(b"10\r\n", make_chunk_header(0x10).as_slice());
}

#[test]
fn chunked_can_write_chunked_header() {
    assert_eq!(b"0\r\n", make_chunk_header(0x00).as_slice());
    assert_eq!(b"1\r\n", make_chunk_header(0x01).as_slice());
    assert_eq!(b"f\r\n", make_chunk_header(0x0F).as_slice());
    assert_eq!(b"10\r\n", make_chunk_header(0x10).as_slice());
}
