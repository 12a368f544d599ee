use vstd::prelude::*;
use vstd::string::StringSliceAdditionalSpecFns;
use vstd::utf8::{decode_utf8, valid_utf8};

use crate::be_bytes::spec_u32_from_be_bytes;
use crate::chunk::{
    chunk_crc_ok, chunk_data_len, chunk_frame_ok, chunk_stored_crc, spec_decode_chunk, Chunk,
    ChunkView,
};
use crate::chunk_type::ChunkType;
use crate::chunk_type::all_letter_bytes;
use crate::error::PngError;

verus! {

/// The canonical 8-byte PNG magic number.
pub open spec fn spec_signature() -> Seq<u8> {
    seq![137u8, 80u8, 78u8, 71u8, 13u8, 10u8, 26u8, 10u8]
}

/// The canonical 8-byte PNG magic number.
pub fn signature() -> (r: [u8; 8])
    ensures
        r@ == spec_signature(),
{
    let r: [u8; 8] = [137, 80, 78, 71, 13, 10, 26, 10];
    assert(r@ =~= spec_signature());
    r
}

/// The views of a sequence of chunks, in order.
pub open spec fn chunk_views(cs: Seq<Chunk>) -> Seq<ChunkView> {
    Seq::new(cs.len(), |i: int| cs[i]@)
}

/// True when every chunk of the sequence is well formed.
pub open spec fn wf_chunks(cs: Seq<ChunkView>) -> bool {
    forall|i: int| 0 <= i < cs.len() ==> (#[trigger] cs[i]).wf()
}

/// The concatenated on-wire bytes of a sequence of chunks.
pub open spec fn chunks_wire_bytes(cs: Seq<ChunkView>) -> Seq<u8>
    decreases cs.len(),
{
    if cs.len() == 0 {
        Seq::empty()
    } else {
        cs[0].wire_bytes() + chunks_wire_bytes(cs.drop_first())
    }
}

/// The full on-wire bytes of a container: signature, then each chunk.
pub open spec fn png_wire_bytes(cs: Seq<ChunkView>) -> Seq<u8> {
    spec_signature() + chunks_wire_bytes(cs)
}

/// What parsing a stream of chunk records yields: the chunk sequence, or the
/// first failure - a truncated frame or a CRC mismatch.
#[verifier::ext_equal]
pub enum ChunksParse {
    Parsed(Seq<ChunkView>),
    Truncated,
    BadCrc,
}

/// Parses chunk records from `s` until it is exhausted; any malformed record
/// aborts the whole parse.
pub open spec fn spec_parse_chunks(s: Seq<u8>) -> ChunksParse
    decreases s.len(),
{
    if s.len() == 0 {
        ChunksParse::Parsed(Seq::empty())
    } else if !chunk_frame_ok(s) {
        ChunksParse::Truncated
    } else if !chunk_crc_ok(s) {
        ChunksParse::BadCrc
    } else {
        match spec_parse_chunks(s.skip(12 + chunk_data_len(s) as int)) {
            ChunksParse::Parsed(rest) => ChunksParse::Parsed(
                seq![spec_decode_chunk(s)] + rest,
            ),
            e => e,
        }
    }
}

/// `r` with `pre` prepended to its chunks when it parsed, `r` itself when it
/// failed.
pub open spec fn prepend_parsed(pre: Seq<ChunkView>, r: ChunksParse) -> ChunksParse {
    match r {
        ChunksParse::Parsed(cs) => ChunksParse::Parsed(pre + cs),
        e => e,
    }
}

/// A whole PNG byte stream: the fixed signature followed by an ordered
/// sequence of chunks.
#[derive(Debug)]
pub struct Png {
    chunks: Vec<Chunk>,
}

impl View for Png {
    type V = Seq<ChunkView>;

    closed spec fn view(&self) -> Seq<ChunkView> {
        chunk_views(self.chunks@)
    }
}

impl Png {
    /// Parses a complete PNG byte buffer: the 8-byte signature, then chunk
    /// records until the buffer is exhausted. Fails with a format error on a
    /// bad signature or a truncated chunk, and with a CRC-mismatch error when
    /// a chunk's stored CRC disagrees with the computed one.
    pub fn parse(bytes: &[u8]) -> (r: Result<Png, PngError>)
        ensures
            r is Ok <==> (bytes@.len() >= 8 && bytes@.subrange(0, 8) == spec_signature()
                && spec_parse_chunks(bytes@.skip(8)) is Parsed),
            r matches Ok(p) ==> spec_parse_chunks(bytes@.skip(8)) == ChunksParse::Parsed(p@)
                && wf_chunks(p@),
            r matches Err(e) ==> (e == PngError::Format <==> (bytes@.len() < 8
                || bytes@.subrange(0, 8) != spec_signature() || spec_parse_chunks(
                bytes@.skip(8),
            ) is Truncated)),
            r matches Err(e) ==> (e == PngError::CrcMismatch <==> (bytes@.len() >= 8
                && bytes@.subrange(0, 8) == spec_signature() && spec_parse_chunks(
                bytes@.skip(8),
            ) is BadCrc)),
    {
        if bytes.len() < 8 {
            return Err(PngError::Format);
        }
        let sig = signature();
        let mut k: usize = 0;
        while k < 8
            invariant
                k <= 8,
                bytes@.len() >= 8,
                sig@ == spec_signature(),
                forall|j: int| 0 <= j < k ==> bytes@[j] == spec_signature()[j],
            decreases 8 - k,
        {
            if bytes[k] != sig[k] {
                assert(bytes@.subrange(0, 8)[k as int] != spec_signature()[k as int]);
                return Err(PngError::Format);
            }
            k = k + 1;
        }
        assert(bytes@.subrange(0, 8) =~= spec_signature());
        let mut chunks: Vec<Chunk> = Vec::new();
        let mut pos: usize = 8;
        while pos < bytes.len()
            invariant
                8 <= pos <= bytes@.len(),
                bytes@.subrange(0, 8) == spec_signature(),
                wf_chunks(chunk_views(chunks@)),
                spec_parse_chunks(bytes@.skip(8)) == prepend_parsed(
                    chunk_views(chunks@),
                    spec_parse_chunks(bytes@.skip(pos as int)),
                ),
            decreases bytes@.len() - pos,
        {
            let (_, rest) = bytes.split_at(pos);
            assert(rest@ =~= bytes@.skip(pos as int));
            match Chunk::decode(rest) {
                Ok(c) => {
                    let n = c.length() as usize;
                    assert(12 + chunk_data_len(rest@) <= rest@.len());
                    let adv = 12 + n;
                    let ghost pre = chunk_views(chunks@);
                    let ghost cv = c@;
                    chunks.push(c);
                    proof {
                        assert(chunk_views(chunks@) =~= pre.push(cv));
                        assert(bytes@.skip(pos as int).skip(12 + chunk_data_len(
                            bytes@.skip(pos as int),
                        ) as int) =~= bytes@.skip(pos as int + adv as int));
                        let inner = spec_parse_chunks(bytes@.skip(pos as int + adv as int));
                        assert(spec_parse_chunks(bytes@.skip(pos as int)) == prepend_parsed(
                            seq![cv],
                            inner,
                        ));
                        if inner is Parsed {
                            let cs = inner->Parsed_0;
                            assert(pre + (seq![cv] + cs) =~= pre.push(cv) + cs);
                        }
                    }
                    pos = pos + adv;
                }
                Err(e) => {
                    proof {
                        let s = bytes@.skip(pos as int);
                        assert(s.len() > 0);
                        if !chunk_frame_ok(s) {
                            assert(spec_parse_chunks(s) == ChunksParse::Truncated);
                            assert(spec_parse_chunks(bytes@.skip(8)) == ChunksParse::Truncated);
                        } else {
                            assert(!chunk_crc_ok(s));
                            assert(spec_parse_chunks(s) == ChunksParse::BadCrc);
                            assert(spec_parse_chunks(bytes@.skip(8)) == ChunksParse::BadCrc);
                        }
                    }
                    return Err(e);
                }
            }
        }
        assert(bytes@.skip(pos as int) =~= Seq::<u8>::empty());
        let p = Png { chunks };
        proof {
            assert(chunk_views(chunks@) + Seq::<ChunkView>::empty() =~= chunk_views(chunks@));
        }
        Ok(p)
    }

    /// The exact on-wire bytes of the container: the signature followed by
    /// each chunk's bytes in stored order.
    pub fn as_bytes(&self) -> (out: Vec<u8>)
        ensures
            out@ == png_wire_bytes(self@),
    {
        let mut out: Vec<u8> = Vec::new();
        let sig = signature();
        let mut k: usize = 0;
        while k < 8
            invariant
                k <= 8,
                sig@ == spec_signature(),
                out@ == spec_signature().take(k as int),
            decreases 8 - k,
        {
            out.push(sig[k]);
            assert(out@ =~= spec_signature().take(k as int + 1));
            k = k + 1;
        }
        assert(out@ =~= spec_signature());
        let mut i: usize = 0;
        while i < self.chunks.len()
            invariant
                i <= self@.len(),
                self@.len() == self.chunks@.len(),
                self@ == chunk_views(self.chunks@),
                out@ == spec_signature() + chunks_wire_bytes(self@.take(i as int)),
            decreases self@.len() - i,
        {
            let mut cb = self.chunks[i].as_bytes();
            proof {
                assert(self@[i as int] == self.chunks@[i as int]@);
                assert(self@.take(i as int + 1) =~= self@.take(i as int).push(self@[i as int]));
                lemma_chunks_wire_bytes_push(self@.take(i as int), self@[i as int]);
            }
            out.append(&mut cb);
            i = i + 1;
        }
        assert(self@.take(self@.len() as int) =~= self@);
        out
    }

    /// Adds a chunk at the end of the sequence.
    pub fn append_chunk(&mut self, chunk: Chunk)
        ensures
            final(self)@ == old(self)@.push(chunk@),
            wf_chunks(old(self)@) && chunk@.wf() ==> wf_chunks(final(self)@),
    {
        let ghost pre = self@;
        let ghost cv = chunk@;
        self.chunks.push(chunk);
        proof {
            assert(self@ =~= pre.push(cv));
        }
    }

    /// The first chunk whose type spells `tag`, or none when no chunk does.
    pub fn find_chunk(&self, tag: &str) -> (r: Option<&Chunk>)
        ensures
            r is Some <==> (exists|i: int|
                0 <= i < self@.len() && tag_matches(#[trigger] self@[i], tag.spec_bytes())),
            r matches Some(c) ==> (exists|i: int|
                0 <= i < self@.len() && tag_matches(#[trigger] self@[i], tag.spec_bytes())
                    && c@ == self@[i] && (forall|j: int|
                    0 <= j < i ==> !tag_matches(#[trigger] self@[j], tag.spec_bytes()))),
    {
        let tag_bytes = tag.as_bytes();
        let mut i: usize = 0;
        while i < self.chunks.len()
            invariant
                i <= self.chunks@.len(),
                self@ == chunk_views(self.chunks@),
                tag_bytes@ == tag.spec_bytes(),
                forall|j: int| 0 <= j < i ==> !tag_matches(#[trigger] self@[j], tag.spec_bytes()),
            decreases self.chunks@.len() - i,
        {
            if type_equals(self.chunks[i].chunk_type(), tag_bytes) {
                assert(tag_matches(self@[i as int], tag.spec_bytes()));
                return Some(&self.chunks[i]);
            }
            i = i + 1;
        }
        None
    }

    /// Removes every chunk whose type spells `tag`; the other chunks keep
    /// their contents and their order. A tag no chunk carries removes nothing.
    pub fn remove_chunks(&mut self, tag: &str)
        ensures
            final(self)@ == old(self)@.filter(keeps_tag(tag.spec_bytes())),
            wf_chunks(old(self)@) ==> wf_chunks(final(self)@),
    {
        let tag_bytes = tag.as_bytes();
        let ghost orig = self@;
        let ghost pred = keeps_tag(tag.spec_bytes());
        let mut kept: Vec<Chunk> = Vec::new();
        let ghost mut prefix: Seq<ChunkView> = Seq::empty();
        proof {
            reveal(Seq::filter);
            assert(orig =~= prefix + chunk_views(self.chunks@));
            assert(Seq::<ChunkView>::empty().filter(pred) =~= Seq::<ChunkView>::empty());
            assert(chunk_views(kept@) =~= prefix.filter(pred));
        }
        while self.chunks.len() > 0
            invariant
                orig == prefix + chunk_views(self.chunks@),
                chunk_views(kept@) == prefix.filter(pred),
                pred == keeps_tag(tag.spec_bytes()),
                tag_bytes@ == tag.spec_bytes(),
            decreases self.chunks@.len(),
        {
            let ghost pre_chunks = self.chunks@;
            let ghost old_prefix = prefix;
            let ghost old_kept = kept@;
            let c = self.chunks.remove(0);
            let ghost cv = c@;
            let keep = !type_equals(c.chunk_type(), tag_bytes);
            if keep {
                kept.push(c);
            }
            proof {
                prefix = old_prefix.push(cv);
                assert(cv == chunk_views(pre_chunks)[0]);
                assert(old_prefix + chunk_views(pre_chunks) =~= prefix + chunk_views(
                    self.chunks@,
                ));
                lemma_filter_push_step(old_prefix, pred, cv);
                assert(keep == pred(cv));
                if keep {
                    assert(chunk_views(kept@) =~= chunk_views(old_kept).push(cv));
                } else {
                    assert(chunk_views(kept@) == chunk_views(old_kept));
                }
            }
        }
        proof {
            assert(orig =~= prefix);
        }
        self.chunks = kept;
        proof {
            if wf_chunks(orig) {
                lemma_filter_keeps_wf(orig, pred);
            }
        }
    }

    /// The payloads of every chunk whose type spells `tag`, read as text, in
    /// stored order. Fails with a validation error when `tag` is not four
    /// ASCII letters, and with an encoding error when a matching payload is
    /// not valid UTF-8.
    pub fn find_messages(&self, tag: &str) -> (r: Result<Vec<String>, PngError>)
        ensures
            r is Ok <==> (tag.spec_bytes().len() == 4 && all_letter_bytes(tag.spec_bytes())
                && all_payloads_utf8(self@.filter(has_tag(tag.spec_bytes())))),
            r matches Ok(v) ==> v@.len() == self@.filter(has_tag(tag.spec_bytes())).len() && (
            forall|j: int|
                0 <= j < v@.len() ==> v@[j]@ == decode_utf8(
                    #[trigger] self@.filter(has_tag(tag.spec_bytes()))[j].data,
                )),
            r matches Err(e) ==> (e == PngError::Validation <==> !(tag.spec_bytes().len() == 4
                && all_letter_bytes(tag.spec_bytes()))),
            r matches Err(e) ==> (e == PngError::Encoding <==> (tag.spec_bytes().len() == 4
                && all_letter_bytes(tag.spec_bytes()) && !all_payloads_utf8(
                self@.filter(has_tag(tag.spec_bytes())),
            ))),
    {
        reveal(Seq::filter);
        match ChunkType::from_str(tag) {
            Ok(_) => {},
            Err(_) => {
                return Err(PngError::Validation);
            },
        }
        let tag_bytes = tag.as_bytes();
        let ghost tbs = tag.spec_bytes();
        let mut v: Vec<String> = Vec::new();
        let mut i: usize = 0;
        proof {
            assert(self@.take(0) =~= Seq::<ChunkView>::empty());
            assert(Seq::<ChunkView>::empty().filter(has_tag(tbs)) =~= Seq::<ChunkView>::empty());
        }
        while i < self.chunks.len()
            invariant
                i <= self.chunks@.len(),
                self@ == chunk_views(self.chunks@),
                tag_bytes@ == tbs,
                tbs == tag.spec_bytes(),
                tbs.len() == 4 && all_letter_bytes(tbs),
                v@.len() == self@.take(i as int).filter(has_tag(tbs)).len(),
                forall|j: int|
                    0 <= j < v@.len() ==> valid_utf8(
                        #[trigger] self@.take(i as int).filter(has_tag(tbs))[j].data,
                    ) && v@[j]@ == decode_utf8(self@.take(i as int).filter(has_tag(tbs))[j].data),
            decreases self.chunks@.len() - i,
        {
            let ghost fl = self@.take(i as int).filter(has_tag(tbs));
            proof {
                lemma_filter_push_step(self@.take(i as int), has_tag(tbs), self@[i as int]);
                assert(self@.take(i as int).push(self@[i as int]) =~= self@.take(i as int + 1));
            }
            let c = &self.chunks[i];
            if type_equals(c.chunk_type(), tag_bytes) {
                assert(has_tag(tbs)(self@[i as int]));
                match c.data_as_string() {
                    Ok(s) => {
                        v.push(s);
                        assert(self@.take(i as int + 1).filter(has_tag(tbs)) =~= fl.push(
                            self@[i as int],
                        ));
                    },
                    Err(_) => {
                        proof {
                            self@.lemma_filter_contains(has_tag(tbs), i as int);
                            let whole = self@.filter(has_tag(tbs));
                            let j = choose|j: int|
                                0 <= j < whole.len() && whole[j] == self@[i as int];
                            assert(!valid_utf8(whole[j].data));
                            assert(!all_payloads_utf8(whole));
                        }
                        return Err(PngError::Encoding);
                    },
                }
            } else {
                assert(!has_tag(tbs)(self@[i as int]));
            }
            i = i + 1;
        }
        proof {
            assert(self@.take(i as int) =~= self@);
            assert(all_payloads_utf8(self@.filter(has_tag(tbs))));
        }
        Ok(v)
    }

    /// The stored chunks, in order.
    pub fn chunks(&self) -> (r: &Vec<Chunk>)
        ensures
            chunk_views(r@) == self@,
            r@.len() == self@.len(),
            forall|i: int| 0 <= i < r@.len() ==> r@[i]@ == self@[i],
    {
        &self.chunks
    }
}

/// True when a chunk's type bytes spell the given tag.
pub open spec fn tag_matches(cv: ChunkView, tag: Seq<u8>) -> bool {
    cv.type_bytes == tag
}

/// The predicate satisfied by chunks whose type is not the given tag.
pub open spec fn keeps_tag(tag: Seq<u8>) -> spec_fn(ChunkView) -> bool {
    |cv: ChunkView| !tag_matches(cv, tag)
}

/// The predicate satisfied by chunks whose type is the given tag.
pub open spec fn has_tag(tag: Seq<u8>) -> spec_fn(ChunkView) -> bool {
    |cv: ChunkView| tag_matches(cv, tag)
}

/// True when every chunk of the sequence has a payload that is valid UTF-8.
pub open spec fn all_payloads_utf8(cs: Seq<ChunkView>) -> bool {
    forall|j: int| 0 <= j < cs.len() ==> valid_utf8((#[trigger] cs[j]).data)
}

/// True when the tag's raw bytes equal `tag`.
fn type_equals(t: &ChunkType, tag: &[u8]) -> (r: bool)
    ensures
        r == (t@ == tag@),
{
    broadcast use crate::chunk_type::lemma_chunk_type_len;

    if tag.len() != 4 {
        return false;
    }
    let b = t.bytes();
    let r = b[0] == tag[0] && b[1] == tag[1] && b[2] == tag[2] && b[3] == tag[3];
    proof {
        if r {
            assert(t@ =~= tag@);
        } else {
            if t@ == tag@ {
                assert(b@[0] == tag@[0]);
                assert(b@[1] == tag@[1]);
                assert(b@[2] == tag@[2]);
                assert(b@[3] == tag@[3]);
            }
        }
    }
    r
}

/// Parsing then encoding reproduces the input exactly: whenever a stream of
/// chunk records parses, the parsed chunks' wire bytes are that stream.
#[verifier::rlimit(50)]
pub proof fn lemma_parse_then_encode(s: Seq<u8>, cs: Seq<ChunkView>)
    requires
        spec_parse_chunks(s) == ChunksParse::Parsed(cs),
    ensures
        chunks_wire_bytes(cs) == s,
    decreases s.len(),
{
    if s.len() == 0 {
        assert(cs =~= Seq::<ChunkView>::empty());
        assert(chunks_wire_bytes(cs) =~= s);
    } else {
        let n = chunk_data_len(s) as int;
        let c = spec_decode_chunk(s);
        let tail = s.skip(12 + n);
        let inner = spec_parse_chunks(tail);
        assert(inner is Parsed);
        let rest = inner->Parsed_0;
        lemma_parse_then_encode(tail, rest);
        assert(cs == seq![c] + rest);
        assert(cs[0] == c);
        assert(cs.drop_first() =~= rest);
        let sub_len = s.subrange(0, 4);
        let sub_crc = s.subrange(8 + n, 12 + n);
        assert(spec_u32_from_be_bytes(sub_len) == chunk_data_len(s)) by {
            assert(sub_len[0] == s[0]);
            assert(sub_len[1] == s[1]);
            assert(sub_len[2] == s[2]);
            assert(sub_len[3] == s[3]);
        }
        assert(spec_u32_from_be_bytes(sub_crc) == chunk_stored_crc(s)) by {
            assert(sub_crc[0] == s.skip(8 + n)[0]);
            assert(sub_crc[1] == s.skip(8 + n)[1]);
            assert(sub_crc[2] == s.skip(8 + n)[2]);
            assert(sub_crc[3] == s.skip(8 + n)[3]);
        }
        crate::be_bytes::lemma_u32_be_bytes_inverse(sub_len);
        crate::be_bytes::lemma_u32_be_bytes_inverse(sub_crc);
        assert(c.wire_bytes() == sub_len + c.type_bytes + c.data + sub_crc);
        assert(sub_len + s.subrange(4, 8) + s.subrange(8, 8 + n) + sub_crc =~= s.take(12 + n));
        assert(chunks_wire_bytes(cs) == c.wire_bytes() + chunks_wire_bytes(rest));
        assert(s.take(12 + n) + tail =~= s);
    }
}

/// Parsing then encoding reproduces a whole PNG buffer exactly: when a buffer
/// carries the signature and its chunk records parse, the parsed container's
/// wire bytes are the buffer.
#[verifier::rlimit(50)]
pub proof fn lemma_png_parse_then_encode(bytes: Seq<u8>, cs: Seq<ChunkView>)
    requires
        bytes.len() >= 8,
        bytes.subrange(0, 8) == spec_signature(),
        spec_parse_chunks(bytes.skip(8)) == ChunksParse::Parsed(cs),
    ensures
        png_wire_bytes(cs) == bytes,
{
    lemma_parse_then_encode(bytes.skip(8), cs);
    assert(png_wire_bytes(cs) =~= bytes);
}

/// Encoding then parsing is the identity on well-formed chunk sequences: the
/// concatenated wire bytes of the chunks parse back to exactly those chunks.
#[verifier::rlimit(50)]
pub proof fn lemma_encode_then_parse(cs: Seq<ChunkView>)
    requires
        wf_chunks(cs),
    ensures
        spec_parse_chunks(chunks_wire_bytes(cs)) == ChunksParse::Parsed(cs),
    decreases cs.len(),
{
    if cs.len() == 0 {
        assert(chunks_wire_bytes(cs) == Seq::<u8>::empty());
        assert(cs =~= Seq::<ChunkView>::empty());
    } else {
        let c = cs[0];
        let rest = cs.drop_first();
        let suffix = chunks_wire_bytes(rest);
        let w = chunks_wire_bytes(cs);
        assert(w == c.wire_bytes() + suffix);
        assert(c.wf());
        crate::chunk::lemma_decode_prefix(c, suffix);
        assert(w.len() > 0);
        assert(wf_chunks(rest)) by {
            assert(forall|i: int|
                0 <= i < rest.len() ==> rest[i] == cs[i + 1] && (#[trigger] rest[i]).wf());
        }
        lemma_encode_then_parse(rest);
        assert(w.skip(12 + chunk_data_len(w) as int) == suffix);
        assert(spec_parse_chunks(w) == ChunksParse::Parsed(seq![c] + rest));
        assert(seq![c] + rest =~= cs);
    }
}

/// A container's encoded bytes, with one well-formed chunk appended, parse
/// back to the original chunks followed by the appended one.
pub proof fn lemma_append_encode_parse(cs: Seq<ChunkView>, c: ChunkView)
    requires
        wf_chunks(cs),
        c.wf(),
    ensures
        spec_parse_chunks(chunks_wire_bytes(cs.push(c))) == ChunksParse::Parsed(cs.push(c)),
{
    assert(wf_chunks(cs.push(c))) by {
        assert(forall|i: int|
            0 <= i < cs.len() ==> cs.push(c)[i] == cs[i] && (#[trigger] cs.push(c)[i]).wf());
        assert(cs.push(c)[cs.len() as int] == c);
    }
    lemma_encode_then_parse(cs.push(c));
}

/// A container's encoded bytes, after one well-formed chunk is appended,
/// parse back to a container holding the original chunks followed by the
/// appended one: the signature is in place and the chunk records parse to
/// exactly that sequence.
#[verifier::rlimit(100)]
pub proof fn lemma_png_append_round_trip(cs: Seq<ChunkView>, c: ChunkView)
    requires
        wf_chunks(cs),
        c.wf(),
    ensures
        png_wire_bytes(cs.push(c)).len() >= 8,
        png_wire_bytes(cs.push(c)).subrange(0, 8) == spec_signature(),
        spec_parse_chunks(png_wire_bytes(cs.push(c)).skip(8)) == ChunksParse::Parsed(cs.push(c)),
{
    let cs2 = cs.push(c);
    let body = chunks_wire_bytes(cs2);
    let w = png_wire_bytes(cs2);
    lemma_append_encode_parse(cs, c);
    assert(spec_signature().len() == 8);
    assert(w == spec_signature() + body);
    assert(w.subrange(0, 8) =~= spec_signature()) by {
        assert(w.subrange(0, 8).len() == 8);
    }
    assert(w.skip(8) =~= body) by {
        assert(w.skip(8).len() == body.len());
    }
    assert(spec_parse_chunks(w.skip(8)) == ChunksParse::Parsed(cs2));
}

/// Filtering a sequence extended by one element keeps the filtered prefix and
/// appends the element exactly when it satisfies the predicate.
proof fn lemma_filter_push_step(s: Seq<ChunkView>, p: spec_fn(ChunkView) -> bool, x: ChunkView)
    ensures
        s.push(x).filter(p) == if p(x) {
            s.filter(p).push(x)
        } else {
            s.filter(p)
        },
{
    reveal(Seq::filter);
    assert(s.push(x).drop_last() =~= s);
    assert(s.push(x).last() == x);
    assert(s.push(x).len() == s.len() + 1);
}

/// Every chunk of a filtered well-formed sequence is well formed.
proof fn lemma_filter_keeps_wf(cs: Seq<ChunkView>, p: spec_fn(ChunkView) -> bool)
    requires
        wf_chunks(cs),
    ensures
        wf_chunks(cs.filter(p)),
    decreases cs.len(),
{
    reveal(Seq::filter);
    if cs.len() == 0 {
        assert(cs.filter(p) =~= Seq::<ChunkView>::empty());
    } else {
        let dl = cs.drop_last();
        assert(wf_chunks(dl)) by {
            assert(forall|i: int| 0 <= i < dl.len() ==> dl[i] == cs[i] && (#[trigger] dl[i]).wf());
        }
        lemma_filter_keeps_wf(dl, p);
        lemma_filter_push_step(dl, p, cs.last());
        assert(dl.push(cs.last()) =~= cs);
        assert(cs.last().wf());
        if p(cs.last()) {
            let f = dl.filter(p).push(cs.last());
            assert(wf_chunks(f)) by {
                assert(forall|i: int|
                    0 <= i < f.len() - 1 ==> f[i] == dl.filter(p)[i] && (#[trigger] f[i]).wf());
                assert(f[f.len() - 1] == cs.last());
            }
        }
    }
}

/// Filtering by `q` after filtering by a weaker `p` is filtering by `q` alone.
proof fn lemma_filter_absorb(
    s: Seq<ChunkView>,
    p: spec_fn(ChunkView) -> bool,
    q: spec_fn(ChunkView) -> bool,
)
    requires
        forall|x: ChunkView| #[trigger] q(x) ==> p(x),
    ensures
        s.filter(p).filter(q) == s.filter(q),
    decreases s.len(),
{
    reveal(Seq::filter);
    if s.len() == 0 {
        assert(s.filter(p) =~= Seq::<ChunkView>::empty());
        assert(s.filter(q) =~= Seq::<ChunkView>::empty());
        assert(Seq::<ChunkView>::empty().filter(q) =~= Seq::<ChunkView>::empty());
    } else {
        let dl = s.drop_last();
        let x = s.last();
        lemma_filter_absorb(dl, p, q);
        assert(dl.push(x) =~= s);
        lemma_filter_push_step(dl, p, x);
        lemma_filter_push_step(dl, q, x);
        if p(x) {
            lemma_filter_push_step(dl.filter(p), q, x);
        }
    }
}

/// Removing every chunk of one tag leaves no chunk of that tag, and leaves
/// the chunks of every other tag exactly as they were, in their original
/// order.
pub proof fn lemma_remove_then_find(cs: Seq<ChunkView>, tag: Seq<u8>)
    ensures
        forall|i: int|
            0 <= i < cs.filter(keeps_tag(tag)).len() ==> !tag_matches(
                #[trigger] cs.filter(keeps_tag(tag))[i],
                tag,
            ),
        forall|t2: Seq<u8>|
            t2 != tag ==> cs.filter(keeps_tag(tag)).filter(#[trigger] has_tag(t2)) == cs.filter(
                has_tag(t2),
            ),
{
    assert forall|i: int| 0 <= i < cs.filter(keeps_tag(tag)).len() implies !tag_matches(
        cs.filter(keeps_tag(tag))[i],
        tag,
    ) by {
        cs.lemma_filter_pred(keeps_tag(tag), i);
    }
    assert forall|t2: Seq<u8>| t2 != tag implies cs.filter(keeps_tag(tag)).filter(
        #[trigger] has_tag(t2),
    ) == cs.filter(has_tag(t2)) by {
        assert(forall|x: ChunkView| #[trigger] has_tag(t2)(x) ==> keeps_tag(tag)(x));
        lemma_filter_absorb(cs, keeps_tag(tag), has_tag(t2));
    }
}

/// Appending one chunk appends exactly its wire bytes.
pub proof fn lemma_chunks_wire_bytes_push(cs: Seq<ChunkView>, c: ChunkView)
    ensures
        chunks_wire_bytes(cs.push(c)) == chunks_wire_bytes(cs) + c.wire_bytes(),
    decreases cs.len(),
{
    if cs.len() == 0 {
        assert(cs.push(c)[0] == c);
        assert(cs.push(c).drop_first() =~= Seq::<ChunkView>::empty());
        assert(chunks_wire_bytes(cs.push(c)) == c.wire_bytes() + chunks_wire_bytes(
            Seq::<ChunkView>::empty(),
        ));
        assert(chunks_wire_bytes(Seq::<ChunkView>::empty()) == Seq::<u8>::empty());
        assert(c.wire_bytes() + Seq::<u8>::empty() =~= c.wire_bytes());
        assert(chunks_wire_bytes(cs) == Seq::<u8>::empty());
        assert(Seq::<u8>::empty() + c.wire_bytes() =~= c.wire_bytes());
    } else {
        assert(cs.push(c)[0] == cs[0]);
        assert(cs.push(c).drop_first() =~= cs.drop_first().push(c));
        assert(chunks_wire_bytes(cs.push(c)) == cs[0].wire_bytes() + chunks_wire_bytes(
            cs.drop_first().push(c),
        ));
        lemma_chunks_wire_bytes_push(cs.drop_first(), c);
        assert(chunks_wire_bytes(cs) == cs[0].wire_bytes() + chunks_wire_bytes(cs.drop_first()));
        assert(cs[0].wire_bytes() + (chunks_wire_bytes(cs.drop_first()) + c.wire_bytes()) =~= (
        cs[0].wire_bytes() + chunks_wire_bytes(cs.drop_first())) + c.wire_bytes());
    }
}

} // verus!
