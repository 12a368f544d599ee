use vstd::prelude::*;
use vstd::utf8::{decode_utf8, valid_utf8};

use crate::be_bytes::{
    lemma_u32_be_bytes_inverse, lemma_u32_be_bytes_round_trip, push_u32_be, read_u32_be,
    spec_u32_from_be_bytes, spec_u32_to_be_bytes,
};
use crate::chunk_type::ChunkType;
use crate::crc32::{crc32_checksum, crc32_of};
use crate::error::PngError;
use crate::text::vec_to_string;

verus! {

/// The mathematical content of a chunk: its framed length, type bytes,
/// payload bytes, and CRC trailer.
#[verifier::ext_equal]
pub struct ChunkView {
    pub length: u32,
    pub type_bytes: Seq<u8>,
    pub data: Seq<u8>,
    pub crc: u32,
}

impl ChunkView {
    /// A well-formed chunk: a 4-byte type, the length field equal to the
    /// payload length, and the CRC computed over type bytes then payload.
    pub open spec fn wf(self) -> bool {
        &&& self.type_bytes.len() == 4
        &&& self.length == self.data.len()
        &&& self.crc == crc32_of(self.type_bytes + self.data)
    }

    /// The exact on-wire bytes of the chunk: big-endian length, type,
    /// payload, big-endian CRC.
    pub open spec fn wire_bytes(self) -> Seq<u8> {
        spec_u32_to_be_bytes(self.length) + self.type_bytes + self.data + spec_u32_to_be_bytes(
            self.crc,
        )
    }
}

/// The payload length a byte stream declares in its first four bytes.
pub open spec fn chunk_data_len(s: Seq<u8>) -> u32
    recommends
        s.len() >= 4,
{
    spec_u32_from_be_bytes(s)
}

/// True when `s` is long enough to frame one whole chunk: length field, type,
/// declared payload, and CRC trailer.
pub open spec fn chunk_frame_ok(s: Seq<u8>) -> bool {
    s.len() >= 4 && s.len() >= 12 + chunk_data_len(s)
}

/// The CRC stored in the chunk's trailer.
pub open spec fn chunk_stored_crc(s: Seq<u8>) -> u32
    recommends
        chunk_frame_ok(s),
{
    spec_u32_from_be_bytes(s.skip(8 + chunk_data_len(s) as int))
}

/// The CRC computed over the chunk's type and payload bytes.
pub open spec fn chunk_computed_crc(s: Seq<u8>) -> u32
    recommends
        chunk_frame_ok(s),
{
    crc32_of(s.subrange(4, 8) + s.subrange(8, 8 + chunk_data_len(s) as int))
}

/// True when the stored CRC agrees with the CRC computed over type + payload.
pub open spec fn chunk_crc_ok(s: Seq<u8>) -> bool
    recommends
        chunk_frame_ok(s),
{
    chunk_stored_crc(s) == chunk_computed_crc(s)
}

/// The chunk that a well-framed byte stream holds.
pub open spec fn spec_decode_chunk(s: Seq<u8>) -> ChunkView
    recommends
        chunk_frame_ok(s),
{
    ChunkView {
        length: chunk_data_len(s),
        type_bytes: s.subrange(4, 8),
        data: s.subrange(8, 8 + chunk_data_len(s) as int),
        crc: chunk_stored_crc(s),
    }
}

/// One length-prefixed, CRC-protected record of a PNG file: a type tag, an
/// opaque payload, and a CRC-32 trailer over type + payload.
#[derive(Debug)]
pub struct Chunk {
    length: u32,
    chunk_type: ChunkType,
    data: Vec<u8>,
    crc: u32,
}

impl View for Chunk {
    type V = ChunkView;

    closed spec fn view(&self) -> ChunkView {
        ChunkView {
            length: self.length,
            type_bytes: self.chunk_type@,
            data: self.data@,
            crc: self.crc,
        }
    }
}

impl Chunk {
    /// Builds a chunk from a type and a payload; the length and the CRC-32
    /// over type bytes then payload are computed here.
    pub fn new(chunk_type: ChunkType, data: Vec<u8>) -> (c: Chunk)
        requires
            data@.len() <= u32::MAX,
        ensures
            c@.wf(),
            c@.type_bytes == chunk_type@,
            c@.data == data@,
            c@.length == data@.len(),
            c@.crc == crc32_of(chunk_type@ + data@),
    {
        let tb = chunk_type.bytes();
        let mut buf: Vec<u8> = Vec::new();
        buf.push(tb[0]);
        buf.push(tb[1]);
        buf.push(tb[2]);
        buf.push(tb[3]);
        assert(buf@ =~= chunk_type@);
        let mut i: usize = 0;
        while i < data.len()
            invariant
                i <= data@.len(),
                buf@ == chunk_type@ + data@.take(i as int),
            decreases data@.len() - i,
        {
            buf.push(data[i]);
            i = i + 1;
            assert(buf@ =~= chunk_type@ + data@.take(i as int));
        }
        assert(buf@ =~= chunk_type@ + data@);
        let crc = crc32_checksum(&buf);
        let length = data.len() as u32;
        Chunk { length, chunk_type, data, crc }
    }

    /// The payload length recorded in the chunk's length field.
    pub fn length(&self) -> (r: u32)
        ensures
            r == self@.length,
    {
        self.length
    }

    /// The CRC-32 trailer of the chunk.
    pub fn crc(&self) -> (r: u32)
        ensures
            r == self@.crc,
    {
        self.crc
    }

    /// The chunk's type tag.
    pub fn chunk_type(&self) -> (r: &ChunkType)
        ensures
            r@ == self@.type_bytes,
    {
        &self.chunk_type
    }

    /// The payload read as text; fails exactly when the payload is not valid
    /// UTF-8.
    pub fn data_as_string(&self) -> (r: Result<String, PngError>)
        ensures
            r is Ok <==> valid_utf8(self@.data),
            r matches Ok(s) ==> s@ == decode_utf8(self@.data),
            r matches Err(e) ==> e == PngError::Encoding,
    {
        match vec_to_string(&self.data) {
            Some(s) => Ok(s),
            None => Err(PngError::Encoding),
        }
    }

    /// The exact on-wire bytes of the chunk.
    pub fn as_bytes(&self) -> (out: Vec<u8>)
        ensures
            out@ == self@.wire_bytes(),
    {
        let mut out: Vec<u8> = Vec::new();
        push_u32_be(&mut out, self.length);
        let tb = self.chunk_type.bytes();
        out.push(tb[0]);
        out.push(tb[1]);
        out.push(tb[2]);
        out.push(tb[3]);
        assert(out@ =~= spec_u32_to_be_bytes(self@.length) + self@.type_bytes);
        let mut i: usize = 0;
        while i < self.data.len()
            invariant
                i <= self@.data.len(),
                out@ == spec_u32_to_be_bytes(self@.length) + self@.type_bytes + self@.data.take(
                    i as int,
                ),
            decreases self@.data.len() - i,
        {
            out.push(self.data[i]);
            i = i + 1;
            assert(out@ =~= spec_u32_to_be_bytes(self@.length) + self@.type_bytes
                + self@.data.take(i as int));
        }
        push_u32_be(&mut out, self.crc);
        assert(out@ =~= self@.wire_bytes());
        out
    }

    /// Reads one chunk from the front of `bytes`; trailing bytes are ignored.
    /// Fails with a framing error when the bytes cannot hold one whole chunk,
    /// and with a CRC-mismatch error when the stored CRC disagrees with the
    /// one computed over type + payload.
    pub fn decode(bytes: &[u8]) -> (r: Result<Chunk, PngError>)
        ensures
            r is Ok <==> (chunk_frame_ok(bytes@) && chunk_crc_ok(bytes@)),
            r matches Ok(c) ==> c@ == spec_decode_chunk(bytes@) && c@.wf(),
            r matches Err(e) ==> (e == PngError::Format <==> !chunk_frame_ok(bytes@)),
            r matches Err(e) ==> (e == PngError::CrcMismatch <==> chunk_frame_ok(bytes@)
                && !chunk_crc_ok(bytes@)),
    {
        if bytes.len() < 4 {
            return Err(PngError::Format);
        }
        let n32 = read_u32_be(bytes, 0);
        assert(bytes@.skip(0) =~= bytes@);
        let n = n32 as usize;
        if bytes.len() < 12 || bytes.len() - 12 < n {
            return Err(PngError::Format);
        }
        let tb: [u8; 4] = [bytes[4], bytes[5], bytes[6], bytes[7]];
        let mut data: Vec<u8> = Vec::new();
        let mut i: usize = 0;
        while i < n
            invariant
                i <= n,
                n + 12 <= bytes@.len(),
                n + 12 <= usize::MAX,
                data@ == bytes@.subrange(8, 8 + i as int),
            decreases n - i,
        {
            data.push(bytes[8 + i]);
            i = i + 1;
            assert(data@ =~= bytes@.subrange(8, 8 + i as int));
        }
        let stored = read_u32_be(bytes, 8 + n);
        let mut buf: Vec<u8> = Vec::new();
        buf.push(tb[0]);
        buf.push(tb[1]);
        buf.push(tb[2]);
        buf.push(tb[3]);
        let mut j: usize = 0;
        while j < n
            invariant
                j <= n,
                n <= data@.len(),
                data@.len() == n,
                buf@ == tb@ + data@.take(j as int),
            decreases n - j,
        {
            buf.push(data[j]);
            j = j + 1;
            assert(buf@ =~= tb@ + data@.take(j as int));
        }
        assert(buf@ =~= bytes@.subrange(4, 8) + bytes@.subrange(8, 8 + n as int));
        let computed = crc32_checksum(&buf);
        if stored != computed {
            return Err(PngError::CrcMismatch);
        }
        let c = Chunk { length: n32, chunk_type: ChunkType::new(tb), data, crc: stored };
        assert(c@ =~= spec_decode_chunk(bytes@));
        Ok(c)
    }
}

/// A well-formed chunk's wire bytes, followed by anything, frame that chunk
/// exactly: the frame and CRC checks pass, the decoded chunk is the original,
/// and what follows the frame is exactly the suffix.
pub proof fn lemma_decode_prefix(c: ChunkView, suffix: Seq<u8>)
    requires
        c.wf(),
    ensures
        chunk_frame_ok(c.wire_bytes() + suffix),
        chunk_crc_ok(c.wire_bytes() + suffix),
        spec_decode_chunk(c.wire_bytes() + suffix) == c,
        chunk_data_len(c.wire_bytes() + suffix) == c.length,
        (c.wire_bytes() + suffix).skip(12 + c.length as int) == suffix,
{
    let w = c.wire_bytes() + suffix;
    let n = c.data.len() as int;
    lemma_u32_be_bytes_round_trip(c.length);
    lemma_u32_be_bytes_round_trip(c.crc);
    assert(c.wire_bytes().len() == 12 + n);
    assert(w[0] == spec_u32_to_be_bytes(c.length)[0]);
    assert(w[1] == spec_u32_to_be_bytes(c.length)[1]);
    assert(w[2] == spec_u32_to_be_bytes(c.length)[2]);
    assert(w[3] == spec_u32_to_be_bytes(c.length)[3]);
    assert(chunk_data_len(w) == c.length);
    assert(chunk_frame_ok(w));
    assert(w.subrange(4, 8) =~= c.type_bytes);
    assert(w.subrange(8, 8 + n) =~= c.data);
    assert(w.skip(8 + n)[0] == spec_u32_to_be_bytes(c.crc)[0]);
    assert(w.skip(8 + n)[1] == spec_u32_to_be_bytes(c.crc)[1]);
    assert(w.skip(8 + n)[2] == spec_u32_to_be_bytes(c.crc)[2]);
    assert(w.skip(8 + n)[3] == spec_u32_to_be_bytes(c.crc)[3]);
    assert(chunk_stored_crc(w) == c.crc);
    assert(chunk_computed_crc(w) == crc32_of(c.type_bytes + c.data));
    assert(spec_decode_chunk(w) =~= c);
    assert(w.skip(12 + c.length as int) =~= suffix);
}

/// Changing any single byte of the CRC trailer in a well-formed chunk's wire
/// bytes makes decoding fail with a CRC mismatch: the bytes still frame one
/// whole chunk, but the stored CRC no longer equals the computed one. (A
/// change in the type or payload bytes alters the computed checksum instead,
/// which this model does not interpret.)
pub proof fn lemma_crc_trailer_tamper(c: ChunkView, s: Seq<u8>, k: int)
    requires
        c.wf(),
        s.len() == c.wire_bytes().len(),
        8 + c.data.len() <= k < 12 + c.data.len(),
        s[k] != c.wire_bytes()[k],
        forall|j: int| 0 <= j < s.len() && j != k ==> s[j] == c.wire_bytes()[j],
    ensures
        chunk_frame_ok(s),
        !chunk_crc_ok(s),
{
    let w = c.wire_bytes();
    let n = c.data.len() as int;
    assert(w.len() == 12 + n);
    lemma_u32_be_bytes_round_trip(c.length);
    assert(s[0] == w[0] && s[1] == w[1] && s[2] == w[2] && s[3] == w[3]);
    assert(w[0] == spec_u32_to_be_bytes(c.length)[0]);
    assert(w[1] == spec_u32_to_be_bytes(c.length)[1]);
    assert(w[2] == spec_u32_to_be_bytes(c.length)[2]);
    assert(w[3] == spec_u32_to_be_bytes(c.length)[3]);
    assert(chunk_data_len(s) == c.length);
    assert(chunk_frame_ok(s));
    assert(s.subrange(4, 8) =~= c.type_bytes);
    assert(s.subrange(8, 8 + n) =~= c.data);
    assert(chunk_computed_crc(s) == c.crc);
    let sub = s.subrange(8 + n, 12 + n);
    let wsub = w.subrange(8 + n, 12 + n);
    assert(wsub =~= spec_u32_to_be_bytes(c.crc));
    assert(chunk_stored_crc(s) == spec_u32_from_be_bytes(sub)) by {
        assert(sub[0] == s.skip(8 + n)[0]);
        assert(sub[1] == s.skip(8 + n)[1]);
        assert(sub[2] == s.skip(8 + n)[2]);
        assert(sub[3] == s.skip(8 + n)[3]);
    }
    if chunk_stored_crc(s) == c.crc {
        lemma_u32_be_bytes_inverse(sub);
        assert(sub == spec_u32_to_be_bytes(c.crc));
        assert(sub[k - (8 + n)] == wsub[k - (8 + n)]);
        assert(s[k] == w[k]);
        assert(false);
    }
}

/// Encoding then decoding is the identity on well-formed chunks: the wire
/// bytes of a chunk frame one whole chunk, pass the CRC check, and decode to
/// the same length, type, payload, and CRC.
pub proof fn lemma_chunk_round_trip(c: ChunkView)
    requires
        c.wf(),
    ensures
        chunk_frame_ok(c.wire_bytes()),
        chunk_crc_ok(c.wire_bytes()),
        spec_decode_chunk(c.wire_bytes()) == c,
{
    let w = c.wire_bytes();
    lemma_u32_be_bytes_round_trip(c.length);
    lemma_u32_be_bytes_round_trip(c.crc);
    assert(w.len() == 12 + c.data.len());
    assert(w.subrange(0, 4) =~= spec_u32_to_be_bytes(c.length));
    assert(chunk_data_len(w) == c.length) by {
        assert(spec_u32_to_be_bytes(c.length).len() == 4);
        assert(w[0] == spec_u32_to_be_bytes(c.length)[0]);
        assert(w[1] == spec_u32_to_be_bytes(c.length)[1]);
        assert(w[2] == spec_u32_to_be_bytes(c.length)[2]);
        assert(w[3] == spec_u32_to_be_bytes(c.length)[3]);
    }
    let n = c.data.len() as int;
    assert(w.subrange(4, 8) =~= c.type_bytes);
    assert(w.subrange(8, 8 + n) =~= c.data);
    assert(w.skip(8 + n) =~= spec_u32_to_be_bytes(c.crc));
    assert(chunk_stored_crc(w) == c.crc);
    assert(chunk_computed_crc(w) == crc32_of(c.type_bytes + c.data));
    assert(spec_decode_chunk(w) =~= c);
}

} // verus!

