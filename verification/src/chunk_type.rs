//! The four-byte chunk type code and its per-byte bit-flag semantics.

use vstd::prelude::*;
use vstd::string::StringSliceAdditionalSpecFns;
use vstd::utf8::decode_utf8;
use vstd::utf8::decode_utf8_encode_utf8;
use vstd::utf8::encode_utf8;
use vstd::utf8::is_leading_byte_width_1;
use vstd::utf8::partial_valid_utf8;
use vstd::utf8::partial_valid_utf8_extend_ascii_block;
use vstd::utf8::valid_utf8;

verus! {

/// Relies on String::from_utf8: it returns the decoded text exactly when the
/// bytes are valid UTF-8, and refuses them otherwise.
#[verifier::external_body]
pub(crate) fn vec_to_string(bytes: Vec<u8>) -> (r: Option<String>)
    ensures
        match r {
            Some(s) => valid_utf8(bytes@) && s@ == decode_utf8(bytes@),
            None => !valid_utf8(bytes@),
        },
{
    match String::from_utf8(bytes) {
        Ok(s) => Some(s),
        Err(_) => None,
    }
}

/// A sequence of bytes below 0x80 is valid UTF-8.
pub proof fn lemma_ascii_valid_utf8(b: Seq<u8>)
    requires
        forall|i: int| 0 <= i < b.len() ==> #[trigger] b[i] < 0x80,
    ensures
        valid_utf8(b),
{
    assert(forall|i: int| 0 <= i < b.len() ==> is_leading_byte_width_1(#[trigger] b[i]));
    assert(b.subrange(0, 0) =~= Seq::<u8>::empty());
    assert(partial_valid_utf8(b, 0));
    partial_valid_utf8_extend_ascii_block(b, 0, b.len() as int);
    assert(b.subrange(0, b.len() as int) =~= b);
}

/// A byte is an ASCII letter, `A`-`Z` or `a`-`z`.
pub open spec fn is_letter(b: u8) -> bool {
    (0x41 <= b <= 0x5a) || (0x61 <= b <= 0x7a)
}

/// Every byte of the sequence is an ASCII letter.
pub open spec fn all_letters(s: Seq<u8>) -> bool {
    forall|i: int| 0 <= i < s.len() ==> is_letter(#[trigger] s[i])
}

/// Bit 5 (0x20) of the byte is clear; for letters that means uppercase.
pub open spec fn is_upper(b: u8) -> bool {
    b & 0x20 == 0
}

/// Failure of chunk type construction from text.
#[derive(Debug, Clone, Copy, PartialEq, Eq, Structural)]
pub enum ChunkTypeErr {
    /// The text is not exactly four ASCII letters.
    InvalidChunkType,
}

/// A four-byte chunk type code. Its view is the sequence of the four bytes.
#[derive(Debug, Clone, Copy)]
pub struct ChunkType {
    bytes: [u8; 4],
}

impl View for ChunkType {
    type V = Seq<u8>;

    closed spec fn view(&self) -> Seq<u8> {
        self.bytes@
    }
}

/// The type code is structurally valid: four letters with the reserved-bit
/// byte (position 2) uppercase.
pub open spec fn spec_is_valid(t: Seq<u8>) -> bool {
    t.len() == 4 && all_letters(t) && is_upper(t[2])
}

impl ChunkType {
    /// Accept any four bytes as a type code; validity is judged separately.
    pub fn from_bytes(bytes: [u8; 4]) -> (t: ChunkType)
        ensures
            t@ == bytes@,
    {
        ChunkType { bytes }
    }

    /// Parse a type code from text: exactly four ASCII letters, else
    /// `InvalidChunkType`.
    pub fn from_str(s: &str) -> (r: Result<ChunkType, ChunkTypeErr>)
        ensures
            match r {
                Ok(t) => s.spec_bytes().len() == 4 && all_letters(s.spec_bytes()) && t@
                    == s.spec_bytes(),
                Err(e) => (s.spec_bytes().len() != 4 || !all_letters(s.spec_bytes())) && e
                    == ChunkTypeErr::InvalidChunkType,
            },
    {
        let bs: &[u8] = s.as_bytes();
        if bs.len() != 4 {
            return Err(ChunkTypeErr::InvalidChunkType);
        }
        let mut i: usize = 0;
        while i < 4
            invariant
                i <= 4,
                bs@.len() == 4,
                bs@ == s.spec_bytes(),
                forall|j: int| 0 <= j < i ==> is_letter(#[trigger] bs@[j]),
            decreases 4 - i,
        {
            if !byte_is_letter(bs[i]) {
                return Err(ChunkTypeErr::InvalidChunkType);
            }
            i = i + 1;
        }
        let t = ChunkType { bytes: [bs[0], bs[1], bs[2], bs[3]] };
        proof {
            assert(t@ =~= s.spec_bytes());
        }
        Ok(t)
    }

    /// The four raw bytes of the type code.
    pub fn bytes(&self) -> (r: [u8; 4])
        ensures
            r@ == self@,
    {
        self.bytes
    }

    /// Structural validity: all four bytes are letters and the reserved-bit
    /// byte (position 2) is uppercase.
    pub fn is_valid(&self) -> (b: bool)
        ensures
            b == spec_is_valid(self@),
    {
        let r = byte_is_letter(self.bytes[0]) && byte_is_letter(self.bytes[1]) && byte_is_letter(
            self.bytes[2],
        ) && byte_is_letter(self.bytes[3]) && self.is_reserved_bit_valid();
        proof {
            if r {
                assert(forall|i: int| 0 <= i < 4 ==> is_letter(#[trigger] self@[i]));
            }
        }
        r
    }

    /// The chunk is critical (not ancillary): byte 0 is uppercase.
    pub fn is_critical(&self) -> (b: bool)
        ensures
            b == is_upper(self@[0]),
    {
        self.bytes[0] & 0x20 == 0
    }

    /// The chunk is public (standard, not application-specific): byte 1 is
    /// uppercase.
    pub fn is_public(&self) -> (b: bool)
        ensures
            b == is_upper(self@[1]),
    {
        self.bytes[1] & 0x20 == 0
    }

    /// The reserved bit conforms to the current format revision: byte 2 is
    /// uppercase.
    pub fn is_reserved_bit_valid(&self) -> (b: bool)
        ensures
            b == is_upper(self@[2]),
    {
        self.bytes[2] & 0x20 == 0
    }

    /// Editors may copy the chunk unmodified: byte 3 is lowercase.
    pub fn is_safe_to_copy(&self) -> (b: bool)
        ensures
            b == !is_upper(self@[3]),
    {
        self.bytes[3] & 0x20 != 0
    }

    /// The bytes of the type code equal the UTF-8 bytes of the given text.
    pub fn eq_str(&self, s: &str) -> (b: bool)
        ensures
            b == (self@ == s.spec_bytes()),
    {
        let bs: &[u8] = s.as_bytes();
        if bs.len() != 4 {
            proof {
                assert(self@.len() == 4);
            }
            return false;
        }
        let eq = self.bytes[0] == bs[0] && self.bytes[1] == bs[1] && self.bytes[2] == bs[2]
            && self.bytes[3] == bs[3];
        proof {
            if eq {
                assert(self@ =~= s.spec_bytes());
            }
        }
        eq
    }

    /// The type code as text, for the letter-only domain: the text whose
    /// UTF-8 bytes are exactly the four type bytes, so text and bytes round
    /// trip losslessly.
    pub fn to_text(&self) -> (r: String)
        requires
            all_letters(self@),
        ensures
            r@ == decode_utf8(self@),
            encode_utf8(r@) == self@,
    {
        let mut v: Vec<u8> = Vec::new();
        v.push(self.bytes[0]);
        v.push(self.bytes[1]);
        v.push(self.bytes[2]);
        v.push(self.bytes[3]);
        proof {
            assert(v@ =~= self@);
            lemma_ascii_valid_utf8(self@);
            decode_utf8_encode_utf8(self@);
        }
        match vec_to_string(v) {
            Some(s) => s,
            None => vstd::pervasive::unreached(),
        }
    }
}

/// Decide `is_letter` on a byte.
pub fn byte_is_letter(b: u8) -> (r: bool)
    ensures
        r == is_letter(b),
{
    (0x41 <= b && b <= 0x5a) || (0x61 <= b && b <= 0x7a)
}

} // verus!
