//! The chunk packet: a file's data travels in chunks of at most 1024 bytes.
//!
//! On the wire a chunk is a 2-byte big-endian header followed by the
//! payload. Bit 15 of the header is the end-of-file flag: when it is set,
//! bits 0 to 14 hold the exact payload length (always below 1024); when it
//! is clear, the payload is exactly 1024 bytes long. A chunk is *terminal*
//! for its file precisely when its payload is shorter than 1024 bytes; a
//! file whose size is a multiple of 1024 therefore ends with an empty
//! terminal chunk.

use vstd::prelude::*;

use crate::bytes_be::{be_bytes_of_u16, push_u16_be, read_u16_be, u16_of_be};

verus! {

/// The fixed chunk size in bytes.
pub const CHUNK_SIZE: usize = 1024;

/// The header the sender writes for a payload of `plen` bytes.
pub open spec fn chunk_header(plen: nat) -> u16
    recommends
        plen <= 1024,
{
    if plen < 1024 {
        0x8000u16 | (plen as u16)
    } else {
        0u16
    }
}

/// The payload length a receiver derives from a header: the low 15 bits
/// when the end flag is set, the full chunk size otherwise.
pub open spec fn payload_len_of_header(h: u16) -> nat {
    if h >> 15 != 0 {
        (h & 0x7fff) as nat
    } else {
        1024
    }
}

/// A header is well formed when the length field it carries is one the
/// sender can produce: below 1024 whenever the end flag is set.
pub open spec fn header_ok(h: u16) -> bool {
    h >> 15 != 0 ==> (h & 0x7fff) < 1024
}

/// The wire encoding of a chunk with payload `p`.
pub open spec fn chunk_encoding(p: Seq<u8>) -> Seq<u8>
    recommends
        p.len() <= 1024,
{
    be_bytes_of_u16(chunk_header(p.len())) + p
}

/// The payload of the chunk framed at position `at` of `data`, or `None`
/// when the bytes there are truncated or the header is malformed.
pub open spec fn chunk_decoding(data: Seq<u8>, at: int) -> Option<Seq<u8>> {
    if at + 2 <= data.len() {
        let h = u16_of_be(data.subrange(at, at + 2));
        let plen = payload_len_of_header(h) as int;
        if header_ok(h) && at + 2 + plen <= data.len() {
            Some(data.subrange(at + 2, at + 2 + plen))
        } else {
            None
        }
    } else {
        None
    }
}

/// One chunk of file data: at most 1024 payload bytes.
pub struct Chunk {
    /// Number of payload bytes.
    pub len: usize,
    /// The payload; only the well-formedness below makes `len` meaningful.
    pub buf: Vec<u8>,
}

impl View for Chunk {
    type V = Seq<u8>;

    open spec fn view(&self) -> Seq<u8> {
        self.buf@
    }
}

impl Chunk {
    /// The chunk's length field counts exactly its payload bytes, and a
    /// payload never exceeds the chunk size.
    pub open spec fn wf(&self) -> bool {
        self.len == self@.len() && self.len <= 1024
    }

    /// A chunk owning the given payload.
    pub fn from_payload(buf: Vec<u8>) -> (r: Chunk)
        requires
            buf@.len() <= 1024,
        ensures
            r.wf(),
            r@ == buf@,
    {
        let len = buf.len();
        Chunk { len, buf }
    }

    /// The payload bytes.
    pub fn payload(&self) -> (r: &Vec<u8>)
        ensures
            r@ == self@,
    {
        &self.buf
    }

    /// Deliver the payload into the file being reassembled, and say
    /// whether this was the file's terminal chunk.
    pub fn append_to(&self, out: &mut Vec<u8>) -> (terminal: bool)
        ensures
            final(out)@ == old(out)@ + self@,
            terminal == (self.len < 1024),
    {
        let mut i: usize = 0;
        while i < self.buf.len()
            invariant
                i <= self@.len(),
                out@ == old(out)@ + self@.subrange(0, i as int),
            decreases self@.len() - i,
        {
            out.push(self.buf[i]);
            proof {
                assert(out@ =~= old(out)@ + self@.subrange(0, i + 1));
            }
            i = i + 1;
        }
        proof {
            assert(old(out)@ + self@.subrange(0, self@.len() as int) =~= old(out)@ + self@);
        }
        self.len < CHUNK_SIZE
    }

    /// Whether this chunk is terminal for its file: true exactly when the
    /// payload is shorter than the chunk size.
    pub fn end(&self) -> (r: bool)
        ensures
            r == (self.len < 1024),
    {
        self.len < CHUNK_SIZE
    }

    /// The chunk a sender takes from a file whose bytes are `data`, with
    /// `offset` bytes already sent: up to 1024 bytes starting at `offset`.
    pub fn from_source(data: &[u8], offset: usize) -> (r: Chunk)
        requires
            offset <= data@.len(),
        ensures
            r.wf(),
            r@ == data@.subrange(
                offset as int,
                if data@.len() - offset < 1024 {
                    data@.len() as int
                } else {
                    offset + 1024
                },
            ),
    {
        let take: usize = if data.len() - offset < CHUNK_SIZE {
            data.len() - offset
        } else {
            CHUNK_SIZE
        };
        let mut buf: Vec<u8> = Vec::new();
        let mut i: usize = 0;
        let n = data.len();
        while i < take
            invariant
                n == data@.len(),
                offset + take <= data@.len(),
                take <= 1024,
                i <= take,
                buf@ == data@.subrange(offset as int, offset + i),
            decreases take - i,
        {
            buf.push(*vstd::slice::slice_index_get(data, offset + i));
            proof {
                assert(buf@ =~= data@.subrange(offset as int, offset + i + 1));
            }
            i = i + 1;
        }
        Chunk { len: take, buf }
    }

    /// The wire bytes of this chunk: header then payload.
    pub fn encode(&self) -> (r: Vec<u8>)
        requires
            self.wf(),
        ensures
            r@ == chunk_encoding(self@),
    {
        let header: u16 = if self.len < CHUNK_SIZE {
            0x8000u16 | (self.len as u16)
        } else {
            0u16
        };
        let mut r: Vec<u8> = Vec::new();
        push_u16_be(&mut r, header);
        let mut i: usize = 0;
        while i < self.buf.len()
            invariant
                self.wf(),
                i <= self.buf@.len(),
                r@ == be_bytes_of_u16(chunk_header(self@.len())) + self@.subrange(0, i as int),
            decreases self.buf@.len() - i,
        {
            r.push(self.buf[i]);
            proof {
                assert(r@ =~= be_bytes_of_u16(chunk_header(self@.len())) + self@.subrange(
                    0,
                    i + 1,
                ));
            }
            i = i + 1;
        }
        proof {
            assert(self@.subrange(0, self@.len() as int) =~= self@);
        }
        r
    }

    /// The payload length a just-read header announces: the exact short
    /// length when the end flag is set, the full chunk size otherwise.
    /// `None` for a malformed header, whose length field no sender writes.
    pub fn payload_len(header: u16) -> (r: Option<usize>)
        ensures
            r is Some <==> header_ok(header),
            r matches Some(l) ==> l == payload_len_of_header(header),
    {
        if (header >> 15) != 0 {
            let low = (header & 0x7fff) as usize;
            if low >= CHUNK_SIZE {
                None
            } else {
                Some(low)
            }
        } else {
            Some(CHUNK_SIZE)
        }
    }

    /// Decode the chunk framed at position `at` of `data`; also returns the
    /// position just past the chunk. `None` when the bytes are truncated or
    /// the header is malformed.
    pub fn decode(data: &[u8], at: usize) -> (r: Option<(Chunk, usize)>)
        requires
            at <= data@.len(),
        ensures
            r is Some <==> chunk_decoding(data@, at as int) is Some,
            r matches Some((c, next)) ==> {
                &&& c.wf()
                &&& Some(c@) == chunk_decoding(data@, at as int)
                &&& next == at + 2 + c@.len()
            },
    {
        if data.len() - at < 2 {
            return None;
        }
        let h = read_u16_be(data, at);
        let plen: usize = if (h >> 15) != 0 {
            let low = (h & 0x7fff) as usize;
            if low >= CHUNK_SIZE {
                return None;
            }
            low
        } else {
            CHUNK_SIZE
        };
        proof {
            assert(plen == payload_len_of_header(h) && header_ok(h));
        }
        if data.len() - (at + 2) < plen {
            return None;
        }
        let mut buf: Vec<u8> = Vec::new();
        let mut i: usize = 0;
        let n = data.len();
        while i < plen
            invariant
                n == data@.len(),
                at + 2 + plen <= data@.len(),
                i <= plen,
                buf@ == data@.subrange(at + 2, at + 2 + i),
            decreases plen - i,
        {
            buf.push(*vstd::slice::slice_index_get(data, at + 2 + i));
            proof {
                assert(buf@ =~= data@.subrange(at + 2, at + 2 + i + 1));
            }
            i = i + 1;
        }
        Some((Chunk { len: plen, buf }, at + 2 + plen))
    }
}

/// Encoding a payload of at most 1024 bytes and decoding it again yields
/// the same payload, wherever in a byte stream the frame sits; the frame
/// occupies exactly two header bytes plus the payload.
pub proof fn lemma_chunk_round_trip(pre: Seq<u8>, p: Seq<u8>, suf: Seq<u8>)
    requires
        p.len() <= 1024,
    ensures
        chunk_decoding(pre + chunk_encoding(p) + suf, pre.len() as int) == Some(p),
{
    let data = pre + chunk_encoding(p) + suf;
    let at = pre.len() as int;
    let h = chunk_header(p.len());
    assert(data.subrange(at, at + 2) =~= be_bytes_of_u16(h));
    crate::bytes_be::lemma_u16_be_round_trip(h);
    let plen = p.len() as u16;
    if p.len() < 1024 {
        assert((0x8000u16 | plen) >> 15 != 0 && ((0x8000u16 | plen) & 0x7fff) == plen)
            by (bit_vector)
            requires
                plen < 1024,
        ;
    } else {
        assert(0u16 >> 15 == 0) by (bit_vector);
    }
    assert(payload_len_of_header(h) == p.len() && header_ok(h));
    assert(data.subrange(at + 2, at + 2 + p.len()) =~= p);
}

} // verus!
