use reqwless::buffering::BufferedWrite;
use reqwless::io::{VecSink, Write};

#[test]
fn can_append_to_buffer() {
    let inner = VecSink::new();
    let mut buffered = BufferedWrite::new(inner, vec![0u8; 8]);

    assert_eq!(2, buffered.write(&[1, 2]).unwrap());
    assert_eq!(2, buffered.write(&[3, 4]).unwrap());
    let pending = buffered.into_inner();
    assert_eq!(0, pending.data.len());

    let inner = VecSink::new();
    let mut buffered = BufferedWrite::new(inner, vec![0u8; 8]);
    assert_eq!(2, buffered.write(&[1, 2]).unwrap());
    assert_eq!(2, buffered.write(&[3, 4]).unwrap());
    assert_eq!(4, buffered.write(&[5, 6, 7, 8]).unwrap());
    let inner = buffered.into_inner();
    assert_eq!(8, inner.data.len());
    assert_eq!(&[1, 2, 3, 4, 5, 6, 7, 8], inner.data.as_slice());
}

#[test]
fn bypass_large_write_when_empty() {
    let inner = VecSink::new();
    let mut buffered = BufferedWrite::new(inner, vec![0u8; 8]);

    assert_eq!(8, buffered.write(&[1, 2, 3, 4, 5, 6, 7, 8]).unwrap());
    let inner = buffered.into_inner();
    assert_eq!(8, inner.data.len());
}

#[test]
fn large_write_when_not_empty() {
    let inner = VecSink::new();
    let mut buffered = BufferedWrite::new(inner, vec![0u8; 8]);

    assert_eq!(1, buffered.write(&[1]).unwrap());
    assert_eq!(7, buffered.write(&[2, 3, 4, 5, 6, 7, 8, 9]).unwrap());
    let inner = buffered.into_inner();
    assert_eq!(8, inner.data.len());
}

#[test]
fn flush_clears_buffer() {
    let inner = VecSink::new();
    let mut buffered = BufferedWrite::new(inner, vec![0u8; 8]);

    assert_eq!(2, buffered.write(&[1, 2]).unwrap());
    buffered.flush().unwrap();
    let inner = buffered.into_inner();
    assert_eq!(2, inner.data.len());
}
