use vstd::prelude::*;
use vstd::string::StringSliceAdditionalSpecFns;

use crate::error::PngError;
use crate::text::{ascii_bytes, chars_of_bytes, lemma_ascii_bytes_utf8, vec_to_string};

verus! {

/// True for the byte value of an ASCII letter, upper or lower case.
pub open spec fn is_letter_byte(b: u8) -> bool {
    (65 <= b <= 90) || (97 <= b <= 122)
}

/// True for the byte value of an upper-case ASCII letter.
pub open spec fn is_upper_byte(b: u8) -> bool {
    65 <= b <= 90
}

/// True for the byte value of a lower-case ASCII letter.
pub open spec fn is_lower_byte(b: u8) -> bool {
    97 <= b <= 122
}

/// True when every byte of `s` is an ASCII letter.
pub open spec fn all_letter_bytes(s: Seq<u8>) -> bool {
    forall|i: int| 0 <= i < s.len() ==> is_letter_byte(#[trigger] s[i])
}

/// The 4-byte ASCII tag that identifies a chunk's kind. The case of each
/// letter carries one legality bit of the PNG chunk-naming rules.
#[derive(Debug, Clone, Copy, PartialEq, Eq)]
pub struct ChunkType {
    bytes: [u8; 4],
}

impl View for ChunkType {
    type V = Seq<u8>;

    closed spec fn view(&self) -> Seq<u8> {
        self.bytes@
    }
}

/// Any string of four ASCII letters survives the round trip through a tag:
/// a tag built from it renders back the very same string. `from_str` yields a
/// tag whose bytes are the string's bytes, and `to_string` renders those
/// bytes, so the two compose to the identity.
pub proof fn lemma_tag_string_round_trip(s: &str)
    requires
        s.spec_bytes().len() == 4,
        all_letter_bytes(s.spec_bytes()),
    ensures
        chars_of_bytes(s.spec_bytes()) == s@,
{
    assert(ascii_bytes(s.spec_bytes()));
    lemma_ascii_bytes_utf8(s.spec_bytes());
    vstd::utf8::encode_utf8_decode_utf8(s@);
}

/// A chunk-type tag always holds exactly four bytes.
pub broadcast proof fn lemma_chunk_type_len(t: ChunkType)
    ensures
        #[trigger] t@.len() == 4,
{
}

impl ChunkType {
    /// Wraps four raw bytes as a tag; no legality check is made.
    pub fn new(bytes: [u8; 4]) -> (t: ChunkType)
        ensures
            t@ == bytes@,
    {
        ChunkType { bytes }
    }

    /// The four raw bytes of the tag.
    pub fn bytes(&self) -> (r: [u8; 4])
        ensures
            r@ == self@,
    {
        self.bytes
    }

    /// Builds a tag from a string; the string must spell exactly four ASCII
    /// letters, else the tag is rejected.
    pub fn from_str(s: &str) -> (r: Result<ChunkType, PngError>)
        ensures
            r matches Ok(t) ==> t@ == s.spec_bytes(),
            r is Ok <==> (s.spec_bytes().len() == 4 && all_letter_bytes(s.spec_bytes())),
            r matches Err(e) ==> e == PngError::Validation,
    {
        let bs = s.as_bytes();
        if bs.len() != 4 {
            return Err(PngError::Validation);
        }
        let bytes: [u8; 4] = [bs[0], bs[1], bs[2], bs[3]];
        let t = ChunkType::new(bytes);
        if t.is_only_possible_bytes() {
            assert(t@ =~= s.spec_bytes());
            Ok(t)
        } else {
            Err(PngError::Validation)
        }
    }

    /// True when every byte of the tag is an ASCII letter.
    pub fn is_only_possible_bytes(&self) -> (r: bool)
        ensures
            r == all_letter_bytes(self@),
    {
        let r = Self::letter(self.bytes[0]) && Self::letter(self.bytes[1]) && Self::letter(
            self.bytes[2],
        ) && Self::letter(self.bytes[3]);
        proof {
            if r {
                assert forall|i: int| 0 <= i < self@.len() implies is_letter_byte(self@[i]) by {
                    assert(self@[0] == self.bytes[0]);
                    assert(self@[1] == self.bytes[1]);
                    assert(self@[2] == self.bytes[2]);
                    assert(self@[3] == self.bytes[3]);
                }
            } else {
                assert(!all_letter_bytes(self@)) by {
                    if !is_letter_byte(self.bytes[0]) {
                        assert(self@[0] == self.bytes[0]);
                    } else if !is_letter_byte(self.bytes[1]) {
                        assert(self@[1] == self.bytes[1]);
                    } else if !is_letter_byte(self.bytes[2]) {
                        assert(self@[2] == self.bytes[2]);
                    } else {
                        assert(self@[3] == self.bytes[3]);
                    }
                }
            }
        }
        r
    }

    fn letter(b: u8) -> (r: bool)
        ensures
            r == is_letter_byte(b),
    {
        (65 <= b && b <= 90) || (97 <= b && b <= 122)
    }

    /// True when the tag is legal under the PNG naming rules: all letters and
    /// the reserved bit (case of the third byte) upper case.
    pub fn is_valid(&self) -> (r: bool)
        ensures
            r == (all_letter_bytes(self@) && is_upper_byte(self@[2])),
    {
        self.is_reserved_bit_valid() && self.is_only_possible_bytes()
    }

    /// True when the chunk is critical for decoders: first byte upper case.
    pub fn is_critical(&self) -> (r: bool)
        ensures
            r == is_upper_byte(self@[0]),
    {
        65 <= self.bytes[0] && self.bytes[0] <= 90
    }

    /// True when the chunk type is public: second byte upper case.
    pub fn is_public(&self) -> (r: bool)
        ensures
            r == is_upper_byte(self@[1]),
    {
        65 <= self.bytes[1] && self.bytes[1] <= 90
    }

    /// True when the reserved bit is as the PNG rules demand: third byte upper
    /// case.
    pub fn is_reserved_bit_valid(&self) -> (r: bool)
        ensures
            r == is_upper_byte(self@[2]),
    {
        65 <= self.bytes[2] && self.bytes[2] <= 90
    }

    /// True when the chunk may be copied by editors that do not know it:
    /// fourth byte lower case.
    pub fn is_safe_to_copy(&self) -> (r: bool)
        ensures
            r == is_lower_byte(self@[3]),
    {
        97 <= self.bytes[3] && self.bytes[3] <= 122
    }

    /// The tag spelled as a 4-character string; defined for ASCII tags, which
    /// every tag built from a string is.
    pub fn to_string(&self) -> (out: String)
        requires
            ascii_bytes(self@),
        ensures
            out@ == chars_of_bytes(self@),
    {
        let mut v: Vec<u8> = Vec::new();
        v.push(self.bytes[0]);
        v.push(self.bytes[1]);
        v.push(self.bytes[2]);
        v.push(self.bytes[3]);
        proof {
            assert(v@ =~= self@);
            lemma_ascii_bytes_utf8(v@);
        }
        match vec_to_string(&v) {
            Some(s) => s,
            None => vstd::pervasive::unreached(),
        }
    }
}

} // verus!
