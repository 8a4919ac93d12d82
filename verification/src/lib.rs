//! An embeddable HTTP/1.1 client core: request encoding, chunked and
//! fixed-length body codecs, and a response reader that parses headers into a
//! caller buffer and exposes the body through the same buffer.

use vstd::prelude::*;

pub mod body_writer;
pub mod buffering;
pub mod bytebuf;
pub mod chunked;
pub mod client;
pub mod concat;
pub mod encoding;
pub mod fixed_length;
pub mod headers;
pub mod io;
pub mod reader;
pub mod request;
pub mod response;
pub mod status;
pub mod url;

verus! {

/// The transport's classification of an I/O failure, as a closed set.
#[derive(Clone, Copy, Debug, PartialEq, Eq, Structural)]
pub enum ErrorKind {
    ConnectionAborted,
    UnexpectedEof,
    WriteZero,
    TimedOut,
    Other,
}

/// Errors that can be returned by this library.
#[derive(Clone, Copy, Debug, PartialEq, Eq, Structural)]
pub enum Error {
    /// An error with DNS.
    Dns,
    /// An error with the underlying network.
    Network(ErrorKind),
    /// An error encoding or decoding data.
    Codec,
    /// The URL could not be parsed.
    InvalidUrl,
    /// A TLS session failure.
    Tls,
    /// The provided buffer is too small.
    BufferTooSmall,
    /// The request is already sent.
    AlreadySent,
    /// An invalid number of bytes were written to the request body.
    IncorrectBodyWritten,
    /// The underlying connection was closed while being used.
    ConnectionAborted,
}

impl Error {
    /// Reduce the error to the transport error-kind classification.
    pub fn kind(&self) -> (r: ErrorKind)
        ensures
            r == self.spec_kind(),
    {
        match self {
            Error::Network(kind) => *kind,
            Error::ConnectionAborted => ErrorKind::ConnectionAborted,
            _ => ErrorKind::Other,
        }
    }

    /// What `kind` returns: the network kind is echoed, an aborted connection
    /// keeps its classification, everything else is `Other`.
    pub open spec fn spec_kind(&self) -> ErrorKind {
        match self {
            Error::Network(kind) => *kind,
            Error::ConnectionAborted => ErrorKind::ConnectionAborted,
            _ => ErrorKind::Other,
        }
    }
}

} // verus!
