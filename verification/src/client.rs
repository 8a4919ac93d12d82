//! Sending a request over an established connection: the head, then the body
//! through the writer its framing calls for, a flush, and the response head.

use vstd::prelude::*;

use crate::body_writer::{BufferingChunkedBodyWriter, ChunkedBodyWriter, FixedBodyWriter};
use crate::encoding::{all_chunks_nonempty, chunked_encoding, flatten};
use crate::io::{Read, Write};
use crate::request::{spec_auth_fits, spec_request_head, Request, RequestBody};
use crate::response::Response;
use crate::Error;

verus! {

/// TLS configuration for a client: a seed for the session's randomness, the
/// record buffers, and the verification mode.
pub struct TlsConfig {
    pub seed: u64,
    pub read_buffer: Vec<u8>,
    pub write_buffer: Vec<u8>,
    pub verify: TlsVerify,
}

/// Supported verification modes.
pub enum TlsVerify {
    /// No verification of the remote host.
    Off,
    /// Pre-shared keys for verifying.
    Psk { identity: Vec<u8>, psk: Vec<u8> },
}

impl TlsConfig {
    pub fn new(seed: u64, read_buffer: Vec<u8>, write_buffer: Vec<u8>, verify: TlsVerify) -> (r:
        TlsConfig)
        ensures
            r.seed == seed,
            r.read_buffer == read_buffer,
            r.write_buffer == write_buffer,
            r.verify == verify,
    {
        TlsConfig { seed, write_buffer, read_buffer, verify }
    }
}

/// Wraps a connection so its two error types collapse into one; the
/// surrounding program implements its byte-stream interfaces.
pub struct ConnErrorAdapter<C>(pub C);

/// What the connection has accepted after a successful send: the serialised
/// head, then the body in its framing. A body of known length goes verbatim:
/// the transport carries exactly the head's bytes plus the declared length.
/// A body of unknown length goes as a chunked encoding of its writes.
pub open spec fn spec_sent_bytes<B: RequestBody>(req: &Request<'_, B>, wire: Seq<u8>) -> bool {
    match req.body {
        None => wire == spec_request_head(req),
        Some(b) => match b.spec_len() {
            Some(n) => wire == spec_request_head(req) + flatten(b.segments()),
            None => exists|cs: Seq<Seq<u8>>|
                {
                    &&& all_chunks_nonempty(cs)
                    &&& flatten(cs) == flatten(b.segments())
                    &&& wire == spec_request_head(req) + #[trigger] chunked_encoding(cs)
                },
        },
    }
}

/// Write a request, head and body, to an established connection.
///
/// On success the connection has accepted, after what it had, exactly the
/// serialised request: the head, then the body in its declared framing.
#[verifier::rlimit(100)]
pub fn write_request<C, B: RequestBody>(conn: C, request: &Request<'_, B>) -> (r: Result<
    C,
    Error,
>) where C: Write
    requires
        <C as Write>::wf(&conn),
    ensures
        match r {
            Ok(c2) => {
                &&& <C as Write>::wf(&c2)
                &&& spec_auth_fits(&request.auth)
                &&& exists|wire: Seq<u8>|
                    #[trigger] spec_sent_bytes(request, wire) && c2.log() == conn.log() + wire
                &&& c2.pending_log() == Seq::<u8>::empty()
            },
            Err(e) => (e == Error::Codec && !spec_auth_fits(&request.auth)) || (
            e matches Error::Network(_)),
        },
{
    let ghost log0 = conn.log();
    let mut conn = conn;
    match request.write_header(&mut conn) {
        Ok(()) => (),
        Err(e) => {
            return Err(e);
        },
    }
    let ghost head = spec_request_head(request);
    if let Some(body) = request.body.as_ref() {
        match body.len() {
            Some(len) => {
                let mut writer = FixedBodyWriter::new(conn);
                match body.write(&mut writer) {
                    Ok(()) => (),
                    Err(k) => {
                        return Err(Error::Network(k));
                    },
                }
                if writer.is_poisoned() {
                    // A write failed somewhere below the body; nothing more
                    // is known of the sink.
                    return Err(Error::Network(crate::ErrorKind::Other));
                }
                let written = writer.written();
                conn = writer.into_inner();
                if written != len {
                    // A body that wrote a different count than it declared;
                    // unreachable for a body that meets its own contract.
                    proof {
                        assert(false);
                    }
                    return Err(Error::IncorrectBodyWritten);
                }
                proof {
                    let wire = head + flatten(body.segments());
                    assert(conn.log() == (log0 + head) + flatten(body.segments()));
                    assert((log0 + head) + flatten(body.segments()) =~= log0 + (head + flatten(
                        body.segments(),
                    )));
                    assert(conn.log() == log0 + wire);
                    assert(spec_sent_bytes(request, wire));
                }
            },
            None => {
                let mut writer = ChunkedBodyWriter::new(conn);
                match body.write(&mut writer) {
                    Ok(()) => (),
                    Err(k) => {
                        return Err(Error::Network(k));
                    },
                }
                let ghost cs = writer.chunks();
                proof {
                    assert(Seq::<u8>::empty() + flatten(body.segments()) =~= flatten(
                        body.segments(),
                    ));
                }
                match writer.terminate() {
                    Ok(()) => (),
                    Err(k) => {
                        return Err(Error::Network(k));
                    },
                }
                conn = writer.into_inner();
                proof {
                    let wire = head + chunked_encoding(cs);
                    assert(conn.log() == (log0 + head) + chunked_encoding(cs));
                    assert((log0 + head) + chunked_encoding(cs) =~= log0 + (head
                        + chunked_encoding(cs)));
                    assert(conn.log() == log0 + wire);
                    assert(flatten(cs) == flatten(body.segments()));
                    assert(spec_sent_bytes(request, wire));
                }
            },
        }
    } else {
        proof {
            assert(spec_sent_bytes(request, head));
        }
    }
    match conn.flush() {
        Ok(()) => (),
        Err(k) => {
            return Err(Error::Network(k));
        },
    }
    Ok(conn)
}

/// Send a request on an established connection and read the response head
/// into `rx_buf`. The connection comes back beside the response, and the
/// ghost result names the exact wire bytes the connection accepted for the
/// request, per `spec_sent_bytes`.
pub fn send_request<C, B: RequestBody>(
    conn: C,
    request: &Request<'_, B>,
    rx_buf: Vec<u8>,
) -> (r: Result<(Response, C, Ghost<Seq<u8>>), Error>) where C: Read + Write
    requires
        <C as Write>::wf(&conn),
        <C as Read>::wf(&conn),
        // A connection that is sound to write stays sound to read.
        forall|c: C| #[trigger] <C as Write>::wf(&c) ==> <C as Read>::wf(&c),
    ensures
        match r {
            Ok((resp, c2, wire)) => {
                &&& <C as Read>::wf(&c2)
                &&& spec_auth_fits(&request.auth)
                &&& spec_sent_bytes(request, wire@)
                &&& resp.wf()
                &&& resp.method == request.method
                &&& ({
                    let p = crate::response::httparse_of(resp.consumed());
                    &&& p.complete
                    &&& !p.malformed
                    &&& resp.spec_header_len() == p.header_len
                    &&& resp.status == crate::status::StatusCode(p.code)
                    &&& crate::response::spec_finish_head(p, resp.consumed().len() as int)
                        matches Ok(f) && {
                        &&& resp.content_type == f.content_type
                        &&& resp.content_length == f.content_length
                        &&& resp.transfer_encoding@ == f.transfer_encoding
                        &&& resp.keep_alive == f.keep_alive
                    }
                })
            },
            Err(e) => e == Error::Codec || e == Error::ConnectionAborted || e
                == Error::BufferTooSmall || (e matches Error::Network(_)),
        },
{
    let ghost log0 = conn.log();
    let mut conn = match write_request(conn, request) {
        Ok(c) => c,
        Err(e) => {
            return Err(e);
        },
    };
    let ghost wire = choose|w: Seq<u8>|
        #[trigger] spec_sent_bytes(request, w) && conn.log() == log0 + w;
    let resp = match Response::read(&mut conn, request.method, rx_buf) {
        Ok(resp) => resp,
        Err(e) => {
            return Err(e);
        },
    };
    Ok((resp, conn, Ghost(wire)))
}

/// Send a request whose writes are batched in the caller's scratch buffer:
/// the serialised head goes into the buffer first, a body of unknown length
/// is coalesced behind it by the buffering chunked writer — so the head and
/// whole chunks leave in as few transport writes as the buffer allows — and
/// the response head is read into `rx_buf`. A body of known length takes the
/// plain path. The ghost result names the wire bytes the connection
/// accepted, per `spec_sent_bytes`.
pub fn send_request_buffered<C, B: RequestBody>(
    conn: C,
    tx_buf: Vec<u8>,
    request: &Request<'_, B>,
    rx_buf: Vec<u8>,
) -> (r: Result<(Response, C, Ghost<Seq<u8>>), Error>) where C: Read + Write
    requires
        <C as Write>::wf(&conn),
        <C as Read>::wf(&conn),
        // The buffering writer needs room for a header slot and a footer.
        tx_buf@.len() >= 6,
        // A connection that is sound to write stays sound to read.
        forall|c: C| #[trigger] <C as Write>::wf(&c) ==> <C as Read>::wf(&c),
    ensures
        match r {
            Ok((resp, c2, wire)) => {
                &&& <C as Read>::wf(&c2)
                &&& spec_auth_fits(&request.auth)
                &&& spec_sent_bytes(request, wire@)
                &&& resp.wf()
                &&& resp.method == request.method
                &&& crate::response::httparse_of(resp.consumed()).complete
            },
            Err(e) => e == Error::Codec || e == Error::ConnectionAborted || e
                == Error::BufferTooSmall || (e matches Error::Network(_)),
        },
{
    let streamed = match request.body.as_ref() {
        Some(body) => body.len().is_none(),
        None => false,
    };
    if !streamed {
        return send_request(conn, request, rx_buf);
    }
    let ghost log0 = conn.log();
    let mut conn = conn;
    // Serialise the head into memory, then seat it at the front of the
    // scratch buffer; a head larger than the buffer goes out directly.
    let mut sink = crate::io::VecSink::new();
    match request.write_header(&mut sink) {
        Ok(()) => (),
        Err(e) => {
            return Err(e);
        },
    }
    let ghost head = spec_request_head(request);
    let head_bytes = sink.data;
    let mut tx_buf = tx_buf;
    let mut prewritten: usize = 0;
    if head_bytes.len() <= tx_buf.len() {
        crate::bytebuf::splice(&mut tx_buf, 0, head_bytes.as_slice());
        prewritten = head_bytes.len();
    } else {
        match conn.write_all(head_bytes.as_slice()) {
            Ok(()) => (),
            Err(k) => {
                return Err(Error::Network(k));
            },
        }
    }
    let mut writer = BufferingChunkedBodyWriter::new_with_data(conn, tx_buf, prewritten);
    proof {
        assert(writer.base_log() =~= log0 + head);
    }
    if let Some(body) = request.body.as_ref() {
        match body.write(&mut writer) {
            Ok(()) => (),
            Err(k) => {
                return Err(Error::Network(k));
            },
        }
        proof {
            assert(Seq::<u8>::empty() + flatten(body.segments()) =~= flatten(body.segments()));
        }
    }
    let ghost cs = if writer.cur_chunk().len() > 0 {
        writer.chunks().push(writer.cur_chunk())
    } else {
        writer.chunks()
    };
    let ghost body_written = writer.body();
    match writer.terminate() {
        Ok(()) => (),
        Err(k) => {
            return Err(Error::Network(k));
        },
    }
    let mut conn = writer.into_inner();
    match conn.flush() {
        Ok(()) => (),
        Err(k) => {
            return Err(Error::Network(k));
        },
    }
    let ghost wire = head + chunked_encoding(cs);
    proof {
        assert(conn.log() == (log0 + head) + chunked_encoding(cs));
        assert((log0 + head) + chunked_encoding(cs) =~= log0 + wire);
        match &request.body {
            Some(b) => {
                assert(flatten(cs) == flatten(b.segments()));
                assert(spec_sent_bytes(request, wire));
            },
            None => {
                assert(false);
            },
        }
    }
    let resp = match Response::read(&mut conn, request.method, rx_buf) {
        Ok(resp) => resp,
        Err(e) => {
            return Err(e);
        },
    };
    Ok((resp, conn, Ghost(wire)))
}

/// The fixed-length accounting law: when the connection accepted the head
/// and then a body of declared length, the transport byte count is exactly
/// the head's length plus the declared length.
pub proof fn lemma_fixed_length_accounting(
    log0: Seq<u8>,
    head: Seq<u8>,
    body: Seq<u8>,
    log1: Seq<u8>,
)
    requires
        log1 == log0 + head + body,
    ensures
        log1.len() == log0.len() + head.len() + body.len(),
{
}

} // verus!
