//! The frame codec: each message travels as a 4-byte big-endian header whose
//! top bit marks payload compression and whose low 31 bits give the payload
//! length, followed by exactly that many payload bytes. Payloads at or above
//! the compression limit are gzip-compressed; the receiver honors the bit
//! regardless of size.

use vstd::prelude::*;
use crate::error::{KvsError, Result};

verus! {

/// Payloads of at least this many bytes are compressed on the wire; the
/// limit keeps smaller messages inside one typical Ethernet frame.
pub const COMPRESSION_LIMIT: usize = 1436;

/// The largest payload length a 31-bit header field can carry.
pub const MAX_FRAME: u32 = 0x7fff_ffff;

/// What flate2's gzip decoder returns for the given bytes; `None` where they
/// are not a complete gzip stream. Decompression is a function of the bytes
/// alone.
pub uninterp spec fn gunzip_of(data: Seq<u8>) -> Option<Seq<u8>>;

/// Relies on flate2's `GzEncoder`: gzip compression is lossless, so
/// decompressing its output yields exactly the input bytes.
#[verifier::external_body]
fn gzip_compress(data: &Vec<u8>) -> (r: Result<Vec<u8>>)
    ensures
        match r {
            Ok(z) => gunzip_of(z@) == Some(data@),
            Err(e) => e is Serde,
        },
{
    let mut enc = flate2::write::GzEncoder::new(Vec::new(), flate2::Compression::default());
    if std::io::Write::write_all(&mut enc, data.as_slice()).is_err() {
        return Err(KvsError::Serde(String::from("gzip encoding failed")));
    }
    match enc.finish() {
        Ok(v) => Ok(v),
        Err(_) => Err(KvsError::Serde(String::from("gzip encoding failed"))),
    }
}

/// Relies on flate2's `GzDecoder`: it inverts gzip compression, succeeding
/// exactly on complete gzip streams.
#[verifier::external_body]
fn gzip_decompress(data: &Vec<u8>) -> (r: Result<Vec<u8>>)
    ensures
        match r {
            Ok(v) => gunzip_of(data@) == Some(v@),
            Err(e) => gunzip_of(data@) is None && e is Serde,
        },
{
    let mut dec = flate2::write::GzDecoder::new(Vec::new());
    if std::io::Write::write_all(&mut dec, data.as_slice()).is_err() {
        return Err(KvsError::Serde(String::from("gzip decoding failed")));
    }
    match dec.finish() {
        Ok(v) => Ok(v),
        Err(_) => Err(KvsError::Serde(String::from("gzip decoding failed"))),
    }
}

/// The header value: compression bit, then the 31-bit payload length.
pub open spec fn header_value(compressed: bool, len: int) -> int {
    if compressed {
        len + 0x8000_0000
    } else {
        len
    }
}

/// The four header bytes, big-endian.
pub open spec fn header_bytes(compressed: bool, len: int) -> Seq<u8> {
    let h = header_value(compressed, len);
    seq![
        (h / 0x1000000) as u8,
        ((h / 0x10000) % 0x100) as u8,
        ((h / 0x100) % 0x100) as u8,
        (h % 0x100) as u8,
    ]
}

/// The header value read back from the first four bytes of `b`.
pub open spec fn h_of(b: Seq<u8>) -> int {
    (b[0] as int) * 0x1000000 + (b[1] as int) * 0x10000 + (b[2] as int) * 0x100 + (b[3] as int)
}

/// The compression bit of a received header.
pub open spec fn header_compressed(b: Seq<u8>) -> bool {
    h_of(b) >= 0x8000_0000
}

/// The payload length of a received header.
pub open spec fn header_len(b: Seq<u8>) -> int {
    if header_compressed(b) {
        h_of(b) - 0x8000_0000
    } else {
        h_of(b)
    }
}

/// The frame `f` carries payload `p`: the header length matches the body,
/// the compression bit is set exactly for payloads at or above the limit,
/// and the body is the payload, compressed or plain accordingly.
pub open spec fn frame_ok(f: Seq<u8>, p: Seq<u8>) -> bool {
    &&& f.len() >= 4
    &&& f.len() - 4 <= MAX_FRAME as int
    &&& if p.len() >= COMPRESSION_LIMIT as int {
        f.take(4) == header_bytes(true, f.len() - 4) && gunzip_of(f.skip(4)) == Some(p)
    } else {
        f.take(4) == header_bytes(false, f.len() - 4) && f.skip(4) == p
    }
}

/// Reading back the four header bytes recovers the header value.
proof fn lemma_header_roundtrip(compressed: bool, len: int)
    requires
        0 <= len <= MAX_FRAME as int,
    ensures
        header_bytes(compressed, len).len() == 4,
        h_of(header_bytes(compressed, len)) == header_value(compressed, len),
{
    let h = header_value(compressed, len);
    assert(0 <= h < 0x1_0000_0000);
    let hu = h as u32;
    assert(hu as int == h);
    assert((hu / 0x1000000) as int == h / 0x1000000);
    assert(((hu / 0x10000) % 0x100) as int == (h / 0x10000) % 0x100);
    assert(((hu / 0x100) % 0x100) as int == (h / 0x100) % 0x100);
    assert((hu % 0x100) as int == h % 0x100);
    assert((hu / 0x1000000) * 0x1000000 + ((hu / 0x10000) % 0x100) * 0x10000 + ((hu / 0x100)
        % 0x100) * 0x100 + (hu % 0x100) == hu) by (bit_vector);
    assert(h / 0x1000000 < 0x100) by {
        assert(hu / 0x1000000 < 0x100) by (bit_vector);
    }
    assert((h / 0x10000) % 0x100 < 0x100);
    assert((h / 0x100) % 0x100 < 0x100);
    assert(h % 0x100 < 0x100);
}

/// Builds the four header bytes for a payload of length `len`.
fn make_header(compressed: bool, len: u32) -> (r: Vec<u8>)
    requires
        len <= MAX_FRAME,
    ensures
        r@ == header_bytes(compressed, len as int),
{
    let h: u32 = if compressed {
        len + 0x8000_0000
    } else {
        len
    };
    let mut r: Vec<u8> = Vec::new();
    r.push((h / 0x1000000) as u8);
    r.push(((h / 0x10000) % 0x100) as u8);
    r.push(((h / 0x100) % 0x100) as u8);
    r.push((h % 0x100) as u8);
    proof {
        assert(r@ =~= header_bytes(compressed, len as int));
    }
    r
}

/// Appends the bytes of `src` between `from` and `to` to `out`.
pub(crate) fn push_byte_range(out: &mut Vec<u8>, src: &Vec<u8>, from: usize, to: usize)
    requires
        from <= to <= src@.len(),
    ensures
        final(out)@ == old(out)@ + src@.subrange(from as int, to as int),
{
    let mut j = from;
    while j < to
        invariant
            from <= j <= to <= src@.len(),
            out@ == old(out)@ + src@.subrange(from as int, j as int),
        decreases to - j,
    {
        out.push(src[j]);
        j = j + 1;
        proof {
            assert(out@ =~= old(out)@ + src@.subrange(from as int, j as int));
        }
    }
}

/// Encodes one payload into a frame.
///
/// Payloads below the compression limit are framed as they are and never
/// fail; larger ones are gzip-compressed first, and fail only if the
/// compressor fails or the compressed body overflows the 31-bit length.
pub fn encode_frame(payload: &Vec<u8>) -> (r: Result<Vec<u8>>)
    ensures
        match r {
            Ok(f) => frame_ok(f@, payload@),
            Err(e) => e is Serde && payload@.len() >= COMPRESSION_LIMIT as int,
        },
{
    proof {
        assert(payload.len() == payload@.len());
    }
    if payload.len() < COMPRESSION_LIMIT {
        let len = payload.len() as u32;
        let mut f = make_header(false, len);
        proof {
            lemma_header_roundtrip(false, len as int);
        }
        push_byte_range(&mut f, payload, 0, payload.len());
        proof {
            assert(f@.take(4) =~= header_bytes(false, len as int));
            assert(f@.skip(4) =~= payload@);
        }
        Ok(f)
    } else {
        let z = match gzip_compress(payload) {
            Ok(z) => z,
            Err(e) => {
                return Err(e);
            },
        };
        if z.len() > MAX_FRAME as usize {
            return Err(KvsError::Serde(String::from_str("compressed payload too long")));
        }
        let len = z.len() as u32;
        let mut f = make_header(true, len);
        proof {
            lemma_header_roundtrip(true, len as int);
        }
        push_byte_range(&mut f, &z, 0, z.len());
        proof {
            assert(f@.take(4) =~= header_bytes(true, len as int));
            assert(f@.skip(4) =~= z@);
        }
        Ok(f)
    }
}

/// Reads the header of `buf`, returning the compression bit and the payload
/// length.
fn read_header(buf: &Vec<u8>) -> (r: (bool, u32))
    requires
        buf@.len() >= 4,
    ensures
        r.0 == header_compressed(buf@),
        r.1 as int == header_len(buf@),
        r.1 <= MAX_FRAME,
{
    let b0 = buf[0] as u32;
    let b1 = buf[1] as u32;
    let b2 = buf[2] as u32;
    let b3 = buf[3] as u32;
    let h = b0 * 0x1000000 + b1 * 0x10000 + b2 * 0x100 + b3;
    proof {
        assert(h as int == h_of(buf@));
    }
    if h >= 0x8000_0000 {
        (true, h - 0x8000_0000)
    } else {
        (false, h)
    }
}

/// Decodes one complete frame, recovering its payload.
///
/// For any payload that the frame validly carries, the result is exactly
/// that payload; an error comes only from a frame that carries none.
pub fn decode_frame(frame: &Vec<u8>) -> (r: Result<Vec<u8>>)
    ensures
        match r {
            Ok(v) => forall|p: Seq<u8>| frame_ok(frame@, p) ==> v@ == p,
            Err(e) => (forall|p: Seq<u8>| !frame_ok(frame@, p)) && e is Serde,
        },
{
    if frame.len() < 4 {
        return Err(KvsError::Serde(String::from_str("frame shorter than its header")));
    }
    let (compressed, plen) = read_header(frame);
    proof {
        assert forall|p: Seq<u8>| frame_ok(frame@, p) implies frame@.len() - 4 == plen as int
            && (if p.len() >= COMPRESSION_LIMIT as int {
            compressed
        } else {
            !compressed
        }) by {
            if p.len() >= COMPRESSION_LIMIT as int {
                lemma_header_roundtrip(true, frame@.len() - 4);
                assert(h_of(frame@) == h_of(frame@.take(4))) by {
                    assert(frame@.take(4)[0] == frame@[0]);
                    assert(frame@.take(4)[1] == frame@[1]);
                    assert(frame@.take(4)[2] == frame@[2]);
                    assert(frame@.take(4)[3] == frame@[3]);
                }
            } else {
                lemma_header_roundtrip(false, frame@.len() - 4);
                assert(h_of(frame@) == h_of(frame@.take(4))) by {
                    assert(frame@.take(4)[0] == frame@[0]);
                    assert(frame@.take(4)[1] == frame@[1]);
                    assert(frame@.take(4)[2] == frame@[2]);
                    assert(frame@.take(4)[3] == frame@[3]);
                }
            }
        }
    }
    if frame.len() - 4 != plen as usize {
        return Err(KvsError::Serde(String::from_str("frame length mismatch")));
    }
    let mut body: Vec<u8> = Vec::new();
    push_byte_range(&mut body, frame, 4, frame.len());
    proof {
        assert(body@ =~= frame@.skip(4));
    }
    if compressed {
        match gzip_decompress(&body) {
            Ok(v) => {
                proof {
                    assert forall|p: Seq<u8>| frame_ok(frame@, p) implies v@ == p by {
                        assert(p.len() >= COMPRESSION_LIMIT as int);
                    }
                }
                Ok(v)
            },
            Err(e) => {
                proof {
                    assert forall|p: Seq<u8>| !frame_ok(frame@, p) by {
                        if frame_ok(frame@, p) {
                            assert(p.len() >= COMPRESSION_LIMIT as int);
                        }
                    }
                }
                Err(e)
            },
        }
    } else {
        proof {
            assert forall|p: Seq<u8>| frame_ok(frame@, p) implies body@ == p by {
                assert(p.len() < COMPRESSION_LIMIT as int);
            }
        }
        Ok(body)
    }
}

/// Frame round trip: a frame determines its payload, so whatever
/// `encode_frame` produced, `decode_frame` recovers exactly the payload that
/// went in.
pub proof fn lemma_frame_payload_unique(f: Seq<u8>, p1: Seq<u8>, p2: Seq<u8>)
    requires
        frame_ok(f, p1),
        frame_ok(f, p2),
    ensures
        p1 == p2,
{
    if p1.len() >= COMPRESSION_LIMIT as int && p2.len() >= COMPRESSION_LIMIT as int {
        assert(Some(p1) == Some(p2));
    } else if p1.len() < COMPRESSION_LIMIT as int && p2.len() < COMPRESSION_LIMIT as int {
        assert(p1 == f.skip(4) && p2 == f.skip(4));
    } else {
        lemma_header_roundtrip(true, f.len() - 4);
        lemma_header_roundtrip(false, f.len() - 4);
        assert(h_of(header_bytes(true, f.len() - 4)) != h_of(header_bytes(false, f.len() - 4)));
        assert(false);
    }
}

/// The length of the complete frame at the head of `buf`, if one is there.
pub open spec fn complete_frame_len(buf: Seq<u8>) -> Option<int> {
    if buf.len() < 4 {
        None
    } else if buf.len() >= 4 + header_len(buf) {
        Some(4 + header_len(buf))
    } else {
        None
    }
}

/// Assembles complete frames out of arbitrary partial reads.
///
/// Bytes are fed in as they arrive; a frame is taken off as soon as its
/// header and body are complete. What is decoded depends only on the
/// concatenation of the bytes fed, never on how they were split.
pub struct FrameReader {
    buf: Vec<u8>,
}

impl View for FrameReader {
    type V = Seq<u8>;

    closed spec fn view(&self) -> Seq<u8> {
        self.buf@
    }
}

impl FrameReader {
    /// An empty reader.
    pub fn new() -> (r: FrameReader)
        ensures
            r@ == Seq::<u8>::empty(),
    {
        let r = FrameReader { buf: Vec::new() };
        proof {
            assert(r@ =~= Seq::<u8>::empty());
        }
        r
    }

    /// Accepts the next bytes read from the transport.
    pub fn feed(&mut self, chunk: &Vec<u8>)
        ensures
            final(self)@ == old(self)@ + chunk@,
    {
        push_byte_range(&mut self.buf, chunk, 0, chunk.len());
        proof {
            assert(chunk@.subrange(0, chunk@.len() as int) =~= chunk@);
        }
    }

    /// Takes one complete frame off the buffer and decodes it, if the
    /// buffered bytes hold one; otherwise leaves the buffer as it is.
    pub fn try_decode(&mut self) -> (r: Result<Option<Vec<u8>>>)
        ensures
            match complete_frame_len(old(self)@) {
                Some(n) => {
                    &&& final(self)@ == old(self)@.skip(n)
                    &&& match r {
                        Ok(Some(v)) => forall|p: Seq<u8>|
                            frame_ok(old(self)@.take(n), p) ==> v@ == p,
                        Ok(None) => false,
                        Err(_) => forall|p: Seq<u8>| !frame_ok(old(self)@.take(n), p),
                    }
                },
                None => r matches Ok(None) && final(self)@ == old(self)@,
            },
    {
        if self.buf.len() < 4 {
            return Ok(None);
        }
        let (_compressed, plen) = read_header(&self.buf);
        if self.buf.len() - 4 < plen as usize {
            return Ok(None);
        }
        let n = 4 + plen as usize;
        let mut f: Vec<u8> = Vec::new();
        push_byte_range(&mut f, &self.buf, 0, n);
        let mut rest: Vec<u8> = Vec::new();
        push_byte_range(&mut rest, &self.buf, n, self.buf.len());
        proof {
            assert(f@ =~= self.buf@.take(n as int));
            assert(rest@ =~= self.buf@.skip(n as int));
            assert(h_of(f@) == h_of(self.buf@)) by {
                assert(f@[0] == self.buf@[0]);
                assert(f@[1] == self.buf@[1]);
                assert(f@[2] == self.buf@[2]);
                assert(f@[3] == self.buf@[3]);
            }
            assert(complete_frame_len(self.buf@) == Some(n as int));
        }
        self.buf = rest;
        match decode_frame(&f) {
            Ok(v) => Ok(Some(v)),
            Err(e) => Err(e),
        }
    }
}

} // verus!
