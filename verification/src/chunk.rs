//! A single chunk record: declared payload length, a four-byte type code, the
//! payload, and a CRC-32 checksum over type and payload.

use vstd::prelude::*;
use vstd::slice::slice_subrange;
use vstd::slice::slice_to_vec;
use vstd::utf8::decode_utf8;
use vstd::utf8::valid_utf8;

use crate::be_bytes::lemma_u32_from_to_be_bytes;
use crate::be_bytes::lemma_u32_to_from_be_bytes;
use crate::be_bytes::spec_u32_from_be_bytes;
use crate::be_bytes::spec_u32_to_be_bytes;
use crate::be_bytes::u32_from_be_bytes;
use crate::be_bytes::u32_to_be_bytes;
use crate::chunk_type::all_letters;
use crate::chunk_type::byte_is_letter;
use crate::chunk_type::is_letter;
use crate::chunk_type::vec_to_string;
use crate::chunk_type::ChunkType;

verus! {

/// The CRC-32 (IEEE) checksum of a byte sequence, as the chunk format
/// prescribes it over the type bytes followed by the payload. The checksum
/// depends on the bytes alone.
pub uninterp spec fn crc32_of(bytes: Seq<u8>) -> u32;

/// Relies on crc32fast::hash: it computes the CRC-32 (IEEE) checksum of the
/// given bytes, a function of those bytes alone.
#[verifier::external_body]
fn crc32(bytes: &[u8]) -> (r: u32)
    ensures
        r == crc32_of(bytes@),
{
    crc32fast::hash(bytes)
}

/// Failure of chunk decoding or payload text access.
#[derive(Debug, Clone, Copy, PartialEq, Eq, Structural)]
pub enum ChunkError {
    /// The buffer is shorter than the minimal chunk, or its size does not
    /// match the declared payload length.
    InvalidLength,
    /// The four type bytes are not all ASCII letters.
    InvalidChunkType,
    /// The stored checksum does not match the one recomputed over type and
    /// payload.
    InvalidCrc,
    /// The payload is not valid UTF-8 text.
    EncodingError,
}

/// The mathematical content of a chunk: its four fields as plain values.
#[verifier::ext_equal]
pub struct ChunkModel {
    pub length: u32,
    pub chunk_type: Seq<u8>,
    pub data: Seq<u8>,
    pub crc: u32,
}

/// The chunk's fields are mutually consistent: the declared length counts the
/// payload bytes and the checksum is the CRC-32 of type bytes followed by
/// payload.
pub open spec fn chunk_wf(c: ChunkModel) -> bool {
    &&& c.chunk_type.len() == 4
    &&& c.data.len() == c.length
    &&& c.crc == crc32_of(c.chunk_type + c.data)
}

/// The encoded bytes of a chunk: big-endian length, four type bytes, payload,
/// big-endian CRC.
pub open spec fn spec_chunk_bytes(c: ChunkModel) -> Seq<u8> {
    spec_u32_to_be_bytes(c.length) + c.chunk_type + c.data + spec_u32_to_be_bytes(c.crc)
}

/// What decoding a buffer as one whole chunk yields: the parsed record, or
/// the first error in the order length, type, size bound, checksum.
pub open spec fn spec_decode_chunk(b: Seq<u8>) -> Result<ChunkModel, ChunkError> {
    if b.len() < 12 {
        Err(ChunkError::InvalidLength)
    } else {
        let length = spec_u32_from_be_bytes(b.subrange(0, 4));
        let t = b.subrange(4, 8);
        if !all_letters(t) {
            Err(ChunkError::InvalidChunkType)
        } else if b.len() != 12 + length {
            Err(ChunkError::InvalidLength)
        } else {
            let data = b.subrange(8, b.len() - 4);
            let crc = spec_u32_from_be_bytes(b.subrange(b.len() - 4, b.len() as int));
            if crc != crc32_of(t + data) {
                Err(ChunkError::InvalidCrc)
            } else {
                Ok(ChunkModel { length, chunk_type: t, data, crc })
            }
        }
    }
}

/// Append every byte of a slice to a vector.
pub(crate) fn push_all(dst: &mut Vec<u8>, src: &[u8])
    ensures
        final(dst)@ == old(dst)@ + src@,
{
    let mut i: usize = 0;
    while i < src.len()
        invariant
            i <= src@.len(),
            dst@ == old(dst)@ + src@.subrange(0, i as int),
        decreases src@.len() - i,
    {
        let b = src[i];
        dst.push(b);
        proof {
            assert(dst@ =~= old(dst)@ + src@.subrange(0, i + 1 as int));
        }
        i = i + 1;
    }
    proof {
        assert(dst@ =~= old(dst)@ + src@);
    }
}

/// A chunk record. Its view is a `ChunkModel`; every value built by `new` or
/// `try_from` satisfies `chunk_wf`.
pub struct Chunk {
    length: u32,
    chunk_type: ChunkType,
    data: Vec<u8>,
    crc: u32,
}

impl View for Chunk {
    type V = ChunkModel;

    closed spec fn view(&self) -> ChunkModel {
        ChunkModel {
            length: self.length,
            chunk_type: self.chunk_type@,
            data: self.data@,
            crc: self.crc,
        }
    }
}

impl Chunk {
    /// Build a chunk from a type code and a payload, computing length and
    /// checksum.
    pub fn new(chunk_type: ChunkType, data: Vec<u8>) -> (c: Chunk)
        requires
            data@.len() <= u32::MAX,
        ensures
            c@ == (ChunkModel {
                length: data@.len() as u32,
                chunk_type: chunk_type@,
                data: data@,
                crc: crc32_of(chunk_type@ + data@),
            }),
            chunk_wf(c@),
    {
        let length = data.len() as u32;
        let tb = chunk_type.bytes();
        let mut bytes_to_checksum: Vec<u8> = Vec::new();
        bytes_to_checksum.push(tb[0]);
        bytes_to_checksum.push(tb[1]);
        bytes_to_checksum.push(tb[2]);
        bytes_to_checksum.push(tb[3]);
        push_all(&mut bytes_to_checksum, data.as_slice());
        proof {
            assert(bytes_to_checksum@ =~= chunk_type@ + data@);
        }
        let crc = crc32(bytes_to_checksum.as_slice());
        let c = Chunk { length, chunk_type, data, crc };
        proof {
            assert(c@ =~= (ChunkModel {
                length: c@.data.len() as u32,
                chunk_type: c@.chunk_type,
                data: c@.data,
                crc: crc32_of(c@.chunk_type + c@.data),
            }));
        }
        c
    }

    /// Decode a chunk from a buffer holding exactly one encoded chunk,
    /// verifying its checksum.
    pub fn try_from(value: &[u8]) -> (r: Result<Chunk, ChunkError>)
        ensures
            match r {
                Ok(c) => spec_decode_chunk(value@) == Ok::<ChunkModel, ChunkError>(c@) && chunk_wf(
                    c@,
                ),
                Err(e) => spec_decode_chunk(value@) == Err::<ChunkModel, ChunkError>(e),
            },
    {
        if value.len() < 12 {
            return Err(ChunkError::InvalidLength);
        }
        let length_field = u32_from_be_bytes(slice_subrange(value, 0, 4));
        let t0 = value[4];
        let t1 = value[5];
        let t2 = value[6];
        let t3 = value[7];
        let ghost t = value@.subrange(4, 8);
        proof {
            assert(t.len() == 4 && t[0] == t0 && t[1] == t1 && t[2] == t2 && t[3] == t3);
        }
        if !(byte_is_letter(t0) && byte_is_letter(t1) && byte_is_letter(t2) && byte_is_letter(t3)) {
            proof {
                assert(!all_letters(t));
            }
            return Err(ChunkError::InvalidChunkType);
        }
        proof {
            assert forall|i: int| 0 <= i < t.len() implies is_letter(#[trigger] t[i]) by {
                assert(t[0] == t0 && t[1] == t1 && t[2] == t2 && t[3] == t3);
            }
        }
        if value.len() - 12 != length_field as usize {
            return Err(ChunkError::InvalidLength);
        }
        let chunk_type = ChunkType::from_bytes([t0, t1, t2, t3]);
        let data: Vec<u8> = slice_to_vec(slice_subrange(value, 8, value.len() - 4));
        let crc = u32_from_be_bytes(slice_subrange(value, value.len() - 4, value.len()));
        let mut bytes_to_checksum: Vec<u8> = Vec::new();
        bytes_to_checksum.push(t0);
        bytes_to_checksum.push(t1);
        bytes_to_checksum.push(t2);
        bytes_to_checksum.push(t3);
        push_all(&mut bytes_to_checksum, data.as_slice());
        proof {
            assert(bytes_to_checksum@ =~= t + value@.subrange(8, value@.len() - 4));
        }
        if crc != crc32(bytes_to_checksum.as_slice()) {
            return Err(ChunkError::InvalidCrc);
        }
        let c = Chunk { length: length_field, chunk_type, data, crc };
        proof {
            assert(chunk_type@ =~= t);
            assert(spec_decode_chunk(value@) == Ok::<ChunkModel, ChunkError>(c@));
        }
        Ok(c)
    }

    /// The declared payload length.
    pub fn length(&self) -> (r: u32)
        ensures
            r == self@.length,
    {
        self.length
    }

    /// The stored checksum.
    pub fn crc(&self) -> (r: u32)
        ensures
            r == self@.crc,
    {
        self.crc
    }

    /// The chunk's type code.
    pub fn chunk_type(&self) -> (r: &ChunkType)
        ensures
            r@ == self@.chunk_type,
    {
        &self.chunk_type
    }

    /// The payload decoded as UTF-8 text, or `EncodingError` when it is not
    /// valid UTF-8.
    pub fn data_as_string(&self) -> (r: Result<String, ChunkError>)
        ensures
            match r {
                Ok(s) => valid_utf8(self@.data) && s@ == decode_utf8(self@.data),
                Err(e) => !valid_utf8(self@.data) && e == ChunkError::EncodingError,
            },
    {
        match vec_to_string(slice_to_vec(self.data.as_slice())) {
            Some(s) => Ok(s),
            None => Err(ChunkError::EncodingError),
        }
    }

    /// Encode the chunk: big-endian length, type bytes, payload, big-endian
    /// CRC.
    pub fn as_bytes(&self) -> (r: Vec<u8>)
        ensures
            r@ == spec_chunk_bytes(self@),
    {
        let mut out: Vec<u8> = Vec::new();
        let lb = u32_to_be_bytes(self.length);
        out.push(lb[0]);
        out.push(lb[1]);
        out.push(lb[2]);
        out.push(lb[3]);
        let tb = self.chunk_type.bytes();
        out.push(tb[0]);
        out.push(tb[1]);
        out.push(tb[2]);
        out.push(tb[3]);
        push_all(&mut out, self.data.as_slice());
        let cb = u32_to_be_bytes(self.crc);
        out.push(cb[0]);
        out.push(cb[1]);
        out.push(cb[2]);
        out.push(cb[3]);
        proof {
            assert(out@ =~= spec_chunk_bytes(self@));
        }
        out
    }
}

/// Round trip: a well-formed chunk whose type bytes are all letters decodes
/// from its own encoding back to itself.
pub proof fn lemma_chunk_round_trip(c: ChunkModel)
    requires
        chunk_wf(c),
        all_letters(c.chunk_type),
    ensures
        spec_decode_chunk(spec_chunk_bytes(c)) == Ok::<ChunkModel, ChunkError>(c),
{
    let b = spec_chunk_bytes(c);
    lemma_u32_to_from_be_bytes(c.length);
    lemma_u32_to_from_be_bytes(c.crc);
    assert(b.len() == 12 + c.data.len());
    assert(b.subrange(0, 4) =~= spec_u32_to_be_bytes(c.length));
    assert(b.subrange(4, 8) =~= c.chunk_type);
    assert(b.subrange(8, b.len() - 4) =~= c.data);
    assert(b.subrange(b.len() - 4, b.len() as int) =~= spec_u32_to_be_bytes(c.crc));
    let m = ChunkModel {
        length: c.length,
        chunk_type: b.subrange(4, 8),
        data: b.subrange(8, b.len() - 4),
        crc: c.crc,
    };
    assert(m =~= c);
    assert(spec_decode_chunk(b) == Ok::<ChunkModel, ChunkError>(m));
}

/// Every chunk that decoding accepts satisfies the record invariant, and its
/// type bytes are all letters.
pub proof fn lemma_decoded_chunk_wf(b: Seq<u8>)
    requires
        spec_decode_chunk(b) is Ok,
    ensures
        chunk_wf(spec_decode_chunk(b)->Ok_0),
        all_letters(spec_decode_chunk(b)->Ok_0.chunk_type),
{
}

/// Encoding is the exact inverse of decoding: any buffer that decodes as a
/// chunk is reproduced, byte for byte, by encoding the result.
pub proof fn lemma_chunk_decode_encode(b: Seq<u8>)
    requires
        spec_decode_chunk(b) is Ok,
    ensures
        spec_chunk_bytes(spec_decode_chunk(b)->Ok_0) == b,
{
    lemma_u32_from_to_be_bytes(b.subrange(0, 4));
    lemma_u32_from_to_be_bytes(b.subrange(b.len() - 4, b.len() as int));
    assert(spec_chunk_bytes(spec_decode_chunk(b)->Ok_0) =~= b);
}

/// Truncation: decoding any buffer shorter than the twelve framing bytes
/// (length, type and CRC fields) fails with `InvalidLength`.
pub proof fn lemma_short_buffer_rejected(b: Seq<u8>)
    requires
        b.len() < 12,
    ensures
        spec_decode_chunk(b) == Err::<ChunkModel, ChunkError>(ChunkError::InvalidLength),
{
}

/// Truncation: a buffer whose declared payload length exceeds the bytes
/// present is rejected explicitly with `InvalidLength`, never read out of
/// bounds. (Where the type bytes are not all letters, decoding is rejected
/// one step earlier with `InvalidChunkType`.)
pub proof fn lemma_truncated_buffer_rejected(b: Seq<u8>)
    requires
        b.len() >= 12,
        all_letters(b.subrange(4, 8)),
        b.len() < 12 + spec_u32_from_be_bytes(b.subrange(0, 4)),
    ensures
        spec_decode_chunk(b) == Err::<ChunkModel, ChunkError>(ChunkError::InvalidLength),
{
}

/// Corruption is rejected: change any one byte in the type or data region of
/// a chunk's encoding and, provided the type bytes still read as letters and
/// the checksum of the changed region differs from the stored one, decoding
/// fails with `InvalidCrc`. That the CRC-32 of the changed region always
/// differs after a single-bit change is a property of the external checksum
/// and enters here as a hypothesis.
pub proof fn lemma_corruption_rejected(c: ChunkModel, b: Seq<u8>, j: int)
    requires
        chunk_wf(c),
        b.len() == spec_chunk_bytes(c).len(),
        4 <= j < 8 + c.data.len(),
        forall|k: int| 0 <= k < b.len() && k != j ==> b[k] == spec_chunk_bytes(c)[k],
        b[j] != spec_chunk_bytes(c)[j],
        all_letters(b.subrange(4, 8)),
        crc32_of(b.subrange(4, 8) + b.subrange(8, b.len() - 4)) != c.crc,
    ensures
        spec_decode_chunk(b) == Err::<ChunkModel, ChunkError>(ChunkError::InvalidCrc),
{
    lemma_u32_to_from_be_bytes(c.length);
    lemma_u32_to_from_be_bytes(c.crc);
    assert(b.len() == 12 + c.data.len());
    assert(b.subrange(0, 4) =~= spec_u32_to_be_bytes(c.length));
    assert(b.subrange(b.len() - 4, b.len() as int) =~= spec_u32_to_be_bytes(c.crc));
}

} // verus!
