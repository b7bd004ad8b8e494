//! Message framing on a byte stream, and the errors of the daemon and its
//! clients.

use vstd::prelude::*;
use crate::bytes::{le32, from_le32, lemma_le32_roundtrip, write_u32, read_u32_at, append_bytes};
use crate::errors::text;

verus! {

/// `std::io::Error`, carried through from the stream.
#[verifier::external_type_specification]
#[verifier::external_body]
pub struct ExIoError(std::io::Error);

/// Why the daemon could not serve.
#[derive(Debug, PartialEq, Eq)]
pub enum ServeError {
    Io(String),
    Internal(String),
}

impl ServeError {
    /// The text this error displays as.
    pub fn message(&self) -> (s: String)
        ensures
            s@ == match self {
                ServeError::Io(m) => "i/o: "@ + m@,
                ServeError::Internal(m) => m@,
            },
    {
        match self {
            ServeError::Io(m) => {
                let mut s = text("i/o: ");
                s.append(m.as_str());
                s
            },
            ServeError::Internal(m) => m.clone(),
        }
    }
}

/// Why a call to the daemon failed.
#[derive(Debug, PartialEq, Eq)]
pub enum ClientError {
    Io(String),
    Protocol(String),
    Remote(String),
}

impl ClientError {
    /// The text this error displays as.
    pub fn message(&self) -> (s: String)
        ensures
            s@ == match self {
                ClientError::Io(m) => "client i/o: "@ + m@,
                ClientError::Protocol(m) => "protocol: "@ + m@,
                ClientError::Remote(m) => m@,
            },
    {
        match self {
            ClientError::Io(m) => {
                let mut s = text("client i/o: ");
                s.append(m.as_str());
                s
            },
            ClientError::Protocol(m) => {
                let mut s = text("protocol: ");
                s.append(m.as_str());
                s
            },
            ClientError::Remote(m) => m.clone(),
        }
    }

    /// A daemon-side failure as the client reports it.
    pub fn from_serve(e: ServeError) -> (r: ClientError)
        ensures
            r matches ClientError::Io(m) && m@ == match e {
                ServeError::Io(x) => "i/o: "@ + x@,
                ServeError::Internal(x) => x@,
            },
    {
        ClientError::Io(e.message())
    }
}

/// The file name of the daemon's socket inside its data directory.
pub open spec fn socket_name() -> Seq<char> {
    "alefs.sock"@
}

/// `dir` joined with `name`: a separator is added unless `dir` is empty or
/// already ends in one.
pub open spec fn path_joined(dir: Seq<char>, name: Seq<char>) -> Seq<char> {
    if dir.len() == 0 {
        name
    } else if dir.last() == '/' {
        dir + name
    } else {
        dir + seq!['/'] + name
    }
}

/// Where the daemon for data directory `data_dir` listens.
pub fn default_socket_path(data_dir: &str) -> (r: String)
    ensures
        r@ == path_joined(data_dir@, socket_name()),
{
    let cs = crate::strings::chars_of(data_dir);
    let mut s = text(data_dir);
    if cs.len() > 0 && cs[cs.len() - 1] != '/' {
        crate::strings::string_push(&mut s, '/');
    }
    s.append("alefs.sock");
    proof {
        if cs.len() == 0 {
            assert(s@ =~= socket_name());
        }
    }
    s
}

// ---------------------------------------------------------------------------
// Framing: a little-endian `u32` length, then the payload

/// The largest payload a reader accepts.
pub open spec fn max_message() -> nat {
    64 * 1024 * 1024
}

/// The frame that carries `payload`: its length modulo 2^32, then itself.
pub open spec fn frame(payload: Seq<u8>) -> Seq<u8> {
    le32((payload.len() % 0x1_0000_0000) as u32) + payload
}

/// What a reader makes of a frame header: the payload length, or the
/// refusal of one that is too large.
pub open spec fn header_length(header: Seq<u8>) -> Result<nat, Seq<char>> {
    let n = from_le32(header);
    if n > max_message() {
        Err("message too large"@)
    } else {
        Ok(n as nat)
    }
}

/// The frame that carries `payload`.
pub fn encode_frame(payload: &[u8]) -> (r: Vec<u8>)
    ensures
        r@ == frame(payload@),
{
    let mut out: Vec<u8> = Vec::new();
    let len: u64 = payload.len() as u64;
    let n: u32 = #[verifier::truncate] (len as u32);
    assert(n == (len % 0x1_0000_0000) as u32) by (bit_vector)
        requires
            n == #[verifier::truncate] (len as u32),
    ;
    write_u32(&mut out, n);
    append_bytes(&mut out, payload);
    out
}

/// The payload length a 4-byte frame header announces.
pub fn frame_length(header: &[u8]) -> (r: Result<usize, ServeError>)
    requires
        header@.len() == 4,
    ensures
        match header_length(header@) {
            Ok(n) => r matches Ok(x) && x == n,
            Err(m) => r matches Err(ServeError::Internal(x)) && x@ == m,
        },
{
    let n = read_u32_at(header, 0);
    assert(header@.subrange(0, 4) =~= header@);
    if n > 64 * 1024 * 1024 {
        return Err(ServeError::Internal(text("message too large")));
    }
    Ok(n as usize)
}

/// A frame's header announces its payload's length, and its payload follows.
pub proof fn lemma_frame_roundtrip(payload: Seq<u8>)
    requires
        payload.len() <= max_message(),
    ensures
        header_length(frame(payload).take(4)) == Ok::<nat, Seq<char>>(payload.len()),
        frame(payload).skip(4) == payload,
{
    let n = (payload.len() % 0x1_0000_0000) as u32;
    lemma_le32_roundtrip(n);
    assert(frame(payload).take(4) =~= le32(n));
    assert(frame(payload).skip(4) =~= payload);
}

// ---------------------------------------------------------------------------
// Streams

/// `std::io::Read::read_exact`: fills all of `buf` from the stream, or
/// fails; the bytes read depend on the stream alone.
#[verifier::external_body]
fn read_exact<R: std::io::Read>(stream: &mut R, buf: &mut Vec<u8>) -> (r: Result<(), std::io::Error>)
    ensures
        final(buf)@.len() == old(buf)@.len(),
{
    stream.read_exact(buf.as_mut_slice())
}

/// Whether an I/O error's kind (`std::io::Error::kind`) is an end of stream
/// before the buffer was filled.
#[verifier::external_body]
fn is_unexpected_eof(e: &std::io::Error) -> bool {
    matches!(e.kind(), std::io::ErrorKind::UnexpectedEof)
}

/// The text of an I/O error (its `Display`).
#[verifier::external_body]
fn io_text(e: &std::io::Error) -> String {
    e.to_string()
}

/// `std::io::Write::write_all`: writes all of `buf` to the stream, or fails.
#[verifier::external_body]
fn write_all<W: std::io::Write>(stream: &mut W, buf: &[u8]) -> Result<(), std::io::Error> {
    stream.write_all(buf)
}

/// `std::io::Write::flush`.
#[verifier::external_body]
fn flush<W: std::io::Write>(stream: &mut W) -> Result<(), std::io::Error> {
    stream.flush()
}

fn io_error(e: &std::io::Error) -> (r: ServeError)
    ensures
        r is Io,
{
    ServeError::Io(io_text(e))
}

/// What reading a whole buffer from a stream came to.
#[derive(Debug, PartialEq, Eq)]
pub enum ReadStatus {
    /// The buffer was filled.
    Filled,
    /// The stream ended before the buffer was filled; the error's text.
    EndOfStream(String),
    /// Another I/O error; its text.
    Failed(String),
}

fn read_status(r: Result<(), std::io::Error>) -> (s: ReadStatus)
    ensures
        r is Ok <==> s is Filled,
{
    match r {
        Ok(()) => ReadStatus::Filled,
        Err(e) => {
            if is_unexpected_eof(&e) {
                ReadStatus::EndOfStream(io_text(&e))
            } else {
                ReadStatus::Failed(io_text(&e))
            }
        },
    }
}

/// What a frame's header read gives: an end of stream before the header
/// means there is no message; another failure is an I/O error; a full
/// header gives the payload length it announces, or the refusal of one
/// that is too large.
pub fn header_outcome(status: &ReadStatus, header: &[u8]) -> (r: Result<Option<usize>, ServeError>)
    requires
        header@.len() == 4,
    ensures
        match status {
            ReadStatus::Filled => match header_length(header@) {
                Ok(n) => r matches Ok(Some(x)) && x == n,
                Err(m) => r matches Err(ServeError::Internal(x)) && x@ == m,
            },
            ReadStatus::EndOfStream(_) => r == Ok::<Option<usize>, ServeError>(None),
            ReadStatus::Failed(m) => r matches Err(ServeError::Io(x)) && x@ == m@,
        },
{
    match status {
        ReadStatus::Filled => match frame_length(header) {
            Ok(n) => Ok(Some(n)),
            Err(e) => Err(e),
        },
        ReadStatus::EndOfStream(_) => Ok(None),
        ReadStatus::Failed(m) => Err(ServeError::Io(m.clone())),
    }
}

/// What a frame's payload read gives: the payload when the buffer was
/// filled, else an I/O error, an end of stream included.
pub fn payload_outcome(status: ReadStatus, buf: Vec<u8>) -> (r: Result<Option<Vec<u8>>, ServeError>)
    ensures
        match status {
            ReadStatus::Filled => r == Ok::<Option<Vec<u8>>, ServeError>(Some(buf)),
            ReadStatus::EndOfStream(m) => r matches Err(ServeError::Io(x)) && x@ == m@,
            ReadStatus::Failed(m) => r matches Err(ServeError::Io(x)) && x@ == m@,
        },
{
    match status {
        ReadStatus::Filled => Ok(Some(buf)),
        ReadStatus::EndOfStream(m) => Err(ServeError::Io(m)),
        ReadStatus::Failed(m) => Err(ServeError::Io(m)),
    }
}

/// Read one frame: a 4-byte header, then a payload of the length it
/// announces, each read in full (`header_outcome`, `payload_outcome`).
/// `None` at a clean end of stream before a header, else the payload,
/// which is at most 64 MiB. A header announcing more is refused with
/// "message too large"; any other failure is an I/O error.
pub fn read_message<R: std::io::Read>(stream: &mut R) -> (r: Result<Option<Vec<u8>>, ServeError>)
    ensures
        r matches Ok(Some(p)) ==> p@.len() <= max_message() && exists|h: Seq<u8>|
            h.len() == 4 && #[trigger] header_length(h) == Ok::<nat, Seq<char>>(p@.len()),
        r matches Err(e) ==> (e is Io || (e matches ServeError::Internal(m) && m@ == "message too large"@)),
{
    let mut header: Vec<u8> = vec![0u8, 0u8, 0u8, 0u8];
    let hs = read_status(read_exact(stream, &mut header));
    let len = match header_outcome(&hs, header.as_slice()) {
        Ok(Some(n)) => n,
        Ok(None) => return Ok(None),
        Err(e) => return Err(e),
    };
    assert(header@.len() == 4 && header_length(header@) == Ok::<nat, Seq<char>>(len as nat));
    let mut buf: Vec<u8> = Vec::new();
    let mut i: usize = 0;
    while i < len
        invariant
            i <= len,
            buf@.len() == i,
        decreases len - i,
    {
        buf.push(0u8);
        i = i + 1;
    }
    let ps = read_status(read_exact(stream, &mut buf));
    payload_outcome(ps, buf)
}

/// Write `payload` as one frame and flush.
pub fn write_message<W: std::io::Write>(stream: &mut W, payload: &[u8]) -> (r: Result<(), ServeError>)
    ensures
        r matches Err(e) ==> e is Io,
{
    let framed = encode_frame(payload);
    let header = crate::bytes::copy_range(framed.as_slice(), 0, 4);
    match write_all(stream, header.as_slice()) {
        Ok(()) => {},
        Err(e) => return Err(io_error(&e)),
    }
    match write_all(stream, payload) {
        Ok(()) => {},
        Err(e) => return Err(io_error(&e)),
    }
    match flush(stream) {
        Ok(()) => Ok(()),
        Err(e) => Err(io_error(&e)),
    }
}

} // verus!
