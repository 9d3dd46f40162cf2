//! Frames: a four-byte big-endian header, then the payload.
//!
//! The header's high bit says whether the payload is gzip-compressed; the
//! other 31 bits give the payload's length in bytes. Payloads longer than
//! `COMPRESSION_LIMIT` are compressed.
use vstd::prelude::*;
use vstd::slice::{slice_subrange, slice_to_vec};
use vstd::string::StringExecFns;
use crate::codec::{
    lemma_request_round_trip, lemma_response_round_trip, request_from_wire, request_wire,
    response_from_wire, response_wire,
};
use crate::command::{CommandRequest, CommandResponse, RequestModel, ResponseModel};
use crate::error::KvError;

verus! {

/// Payloads longer than this many bytes are compressed.
pub const COMPRESSION_LIMIT: usize = 1436;

/// The largest payload length that a header can hold.
pub const MAX_FRAME: u32 = 0x7fff_ffff;

/// The high bit of the header.
pub const COMPRESSION_BIT: u32 = 0x8000_0000;

/// What gzip at the default level makes of `data`.
pub uninterp spec fn gzip_of(data: Seq<u8>) -> Seq<u8>;

/// What gunzip makes of `data`: `None` where it is no gzip stream.
pub uninterp spec fn gunzip_of(data: Seq<u8>) -> Option<Seq<u8>>;

/// Relies on flate2::write::GzEncoder at the default level: the result
/// depends on the bytes alone, and gunzip gives the bytes back. Writing
/// into a `Vec` cannot fail.
#[verifier::external_body]
fn gzip(data: &[u8]) -> (r: Option<Vec<u8>>)
    ensures
        r is Some,
        r matches Some(z) ==> z@ == gzip_of(data@) && gunzip_of(z@) == Some(data@),
{
    let mut e = flate2::write::GzEncoder::new(Vec::new(), flate2::Compression::default());
    std::io::Write::write_all(&mut e, data).ok()?;
    e.finish().ok()
}

/// Relies on flate2::read::GzDecoder: the result depends on the bytes alone.
#[verifier::external_body]
fn gunzip(data: &[u8]) -> (r: Option<Vec<u8>>)
    ensures
        match gunzip_of(data@) {
            Some(p) => r matches Some(x) && x@ == p,
            None => r is None,
        },
{
    let mut d = flate2::read::GzDecoder::new(data);
    let mut out = Vec::new();
    std::io::Read::read_to_end(&mut d, &mut out).ok()?;
    Some(out)
}

/// The four big-endian bytes of `x`.
pub open spec fn be32(x: u32) -> Seq<u8> {
    seq![(x >> 24u32) as u8, (x >> 16u32) as u8, (x >> 8u32) as u8, x as u8]
}

/// The integer that four big-endian bytes spell.
pub open spec fn from_be32(a: u8, b: u8, c: u8, d: u8) -> u32 {
    ((a as u32) << 24u32) | ((b as u32) << 16u32) | ((c as u32) << 8u32) | (d as u32)
}

/// Whether a payload of `n` bytes is compressed.
pub open spec fn compresses(n: nat) -> bool {
    n > COMPRESSION_LIMIT
}

/// The bytes that stand after the header for payload `p`.
pub open spec fn frame_body(p: Seq<u8>) -> Seq<u8> {
    if compresses(p.len()) {
        gzip_of(p)
    } else {
        p
    }
}

/// The header for a body of `len` bytes.
pub open spec fn header_word(compressed: bool, len: nat) -> u32 {
    if compressed {
        (COMPRESSION_BIT | (len as u32)) as u32
    } else {
        len as u32
    }
}

/// The frame that carries payload `p`.
pub open spec fn frame_of(p: Seq<u8>) -> Seq<u8> {
    be32(header_word(compresses(p.len()), frame_body(p).len())) + frame_body(p)
}

/// The header word at the front of `b`.
pub open spec fn header_of(b: Seq<u8>) -> u32 {
    from_be32(b[0], b[1], b[2], b[3])
}

/// The header's compression flag.
pub open spec fn flag_of(h: u32) -> bool {
    h & COMPRESSION_BIT != 0
}

/// The header's length field.
pub open spec fn length_of(h: u32) -> u32 {
    h & MAX_FRAME
}

/// Whether `b` is a header followed by exactly as many bytes as it says.
pub open spec fn well_framed(b: Seq<u8>) -> bool {
    b.len() >= 4 && b.len() - 4 == length_of(header_of(b))
}

/// The payload that a well-framed `b` carries, when its body can be read.
pub open spec fn payload_of(b: Seq<u8>) -> Option<Seq<u8>> {
    let body = b.subrange(4, b.len() as int);
    if flag_of(header_of(b)) {
        gunzip_of(body)
    } else {
        Some(body)
    }
}

pub proof fn lemma_be32(x: u32)
    ensures
        from_be32(be32(x)[0], be32(x)[1], be32(x)[2], be32(x)[3]) == x,
{
    assert(from_be32((x >> 24u32) as u8, (x >> 16u32) as u8, (x >> 8u32) as u8, x as u8) == x)
        by (bit_vector);
}

pub proof fn lemma_header_word(compressed: bool, len: nat)
    requires
        len <= MAX_FRAME,
    ensures
        flag_of(header_word(compressed, len)) == compressed,
        length_of(header_word(compressed, len)) == len,
{
    let l = len as u32;
    assert(l <= 0x7fff_ffffu32 ==> (0x8000_0000u32 | l) & 0x8000_0000u32 != 0 && (0x8000_0000u32
        | l) & 0x7fff_ffffu32 == l && l & 0x8000_0000u32 == 0 && l & 0x7fff_ffffu32 == l)
        by (bit_vector);
}

/// A frame's header says it is compressed exactly when its payload is
/// longer than `COMPRESSION_LIMIT` bytes.
pub proof fn lemma_compression_flag(p: Seq<u8>)
    requires
        frame_body(p).len() <= MAX_FRAME,
    ensures
        flag_of(header_of(frame_of(p))) == (p.len() > COMPRESSION_LIMIT),
        length_of(header_of(frame_of(p))) == frame_body(p).len(),
        well_framed(frame_of(p)),
{
    let h = header_word(compresses(p.len()), frame_body(p).len());
    lemma_be32(h);
    lemma_header_word(compresses(p.len()), frame_body(p).len());
    assert(header_of(frame_of(p)) == h);
}

/// Puts `p` in a frame, compressing it when it is long.
pub fn encode_frame(p: &[u8]) -> (r: Result<Vec<u8>, KvError>)
    ensures
        r matches Ok(f) ==> f@ == frame_of(p@) && well_framed(f@) && payload_of(f@) == Some(p@),
        r matches Err(e) ==> e == KvError::FrameError,
        r is Ok <==> frame_body(p@).len() <= MAX_FRAME,
{
    let compressed = p.len() > COMPRESSION_LIMIT;
    let body = if compressed {
        match gzip(p) {
            Some(z) => z,
            None => {
                return Err(KvError::FrameError);
            },
        }
    } else {
        slice_to_vec(p)
    };
    if body.len() > MAX_FRAME as usize {
        return Err(KvError::FrameError);
    }
    let len = body.len() as u32;
    let h: u32 = if compressed {
        COMPRESSION_BIT | len
    } else {
        len
    };
    let mut out: Vec<u8> = Vec::new();
    out.push((h >> 24u32) as u8);
    out.push((h >> 16u32) as u8);
    out.push((h >> 8u32) as u8);
    out.push(h as u8);
    let mut b = body;
    out.append(&mut b);
    proof {
        assert(h == header_word(compresses(p@.len()), frame_body(p@).len()));
        assert(out@ =~= frame_of(p@));
        lemma_compression_flag(p@);
        assert(out@.subrange(4, out@.len() as int) =~= frame_body(p@));
    }
    Ok(out)
}

/// The header at the front of `b`: whether the payload is compressed, and
/// its length.
pub fn read_header(b: &[u8]) -> (r: Option<(bool, u32)>)
    ensures
        b@.len() >= 4 ==> r == Some(
            (flag_of(header_of(b@)), length_of(header_of(b@))),
        ),
        b@.len() < 4 ==> r is None,
{
    if b.len() < 4 {
        return None;
    }
    let h: u32 = ((b[0] as u32) << 24u32) | ((b[1] as u32) << 16u32) | ((b[2] as u32) << 8u32) | (
    b[3] as u32);
    Some((h & COMPRESSION_BIT != 0, h & MAX_FRAME))
}

/// Takes the payload out of the frame `b`.
pub fn decode_frame(b: &[u8]) -> (r: Result<Vec<u8>, KvError>)
    ensures
        !well_framed(b@) ==> r == Err::<Vec<u8>, KvError>(KvError::FrameError),
        well_framed(b@) ==> match payload_of(b@) {
            Some(p) => r matches Ok(x) && x@ == p,
            None => r matches Err(KvError::DecodeError(_)),
        },
{
    let (compressed, len) = match read_header(b) {
        Some(x) => x,
        None => {
            return Err(KvError::FrameError);
        },
    };
    if b.len() - 4 != len as usize {
        return Err(KvError::FrameError);
    }
    let body = slice_subrange(b, 4, b.len());
    if compressed {
        match gunzip(body) {
            Some(p) => Ok(p),
            None => Err(KvError::DecodeError(String::from_str("bad gzip stream"))),
        }
    } else {
        Ok(slice_to_vec(body))
    }
}

/// What the frame `b` carries as a request: `Err(true)` where `b` is not
/// well framed, `Err(false)` where its payload cannot be read as a request.
pub open spec fn request_in_frame(b: Seq<u8>) -> Result<Option<RequestModel>, bool> {
    if !well_framed(b) {
        Err(true)
    } else {
        match payload_of(b) {
            Some(p) => match request_from_wire(p) {
                Some(m) => Ok(m),
                None => Err(false),
            },
            None => Err(false),
        }
    }
}

/// What the frame `b` carries as a response, as for requests.
pub open spec fn response_in_frame(b: Seq<u8>) -> Result<ResponseModel, bool> {
    if !well_framed(b) {
        Err(true)
    } else {
        match payload_of(b) {
            Some(p) => match response_from_wire(p) {
                Some(m) => Ok(m),
                None => Err(false),
            },
            None => Err(false),
        }
    }
}

impl CommandRequest {
    /// The frame that carries this request. Decoding it gives the request
    /// back.
    pub fn encode_frame(&self) -> (r: Result<Vec<u8>, KvError>)
        ensures
            r matches Ok(f) ==> f@ == frame_of(request_wire(self@)) && request_in_frame(f@) == Ok::<
                Option<RequestModel>,
                bool,
            >(self@),
            r matches Err(e) ==> e == KvError::FrameError,
            r is Ok <==> frame_body(request_wire(self@)).len() <= MAX_FRAME,
    {
        let p = self.encode();
        proof {
            lemma_request_round_trip(self@);
        }
        encode_frame(p.as_slice())
    }

    /// Reads the request that the frame `b` carries.
    pub fn decode_frame(b: &[u8]) -> (r: Result<CommandRequest, KvError>)
        ensures
            match request_in_frame(b@) {
                Ok(m) => r matches Ok(x) && x@ == m,
                Err(true) => r == Err::<CommandRequest, KvError>(KvError::FrameError),
                Err(false) => r matches Err(KvError::DecodeError(_)),
            },
    {
        let p = decode_frame(b)?;
        CommandRequest::decode(p.as_slice())
    }
}

impl CommandResponse {
    /// The frame that carries this response. Decoding it gives the response
    /// back.
    pub fn encode_frame(&self) -> (r: Result<Vec<u8>, KvError>)
        ensures
            r matches Ok(f) ==> f@ == frame_of(response_wire(self@)) && response_in_frame(f@) == Ok::<
                ResponseModel,
                bool,
            >(self@),
            r matches Err(e) ==> e == KvError::FrameError,
            r is Ok <==> frame_body(response_wire(self@)).len() <= MAX_FRAME,
    {
        let p = self.encode();
        proof {
            lemma_response_round_trip(self@);
        }
        encode_frame(p.as_slice())
    }

    /// Reads the response that the frame `b` carries.
    pub fn decode_frame(b: &[u8]) -> (r: Result<CommandResponse, KvError>)
        ensures
            match response_in_frame(b@) {
                Ok(m) => r matches Ok(x) && x@ == m,
                Err(true) => r == Err::<CommandResponse, KvError>(KvError::FrameError),
                Err(false) => r matches Err(KvError::DecodeError(_)),
            },
    {
        let p = decode_frame(b)?;
        CommandResponse::decode(p.as_slice())
    }
}

} // verus!
