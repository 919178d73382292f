//! The chunk container: a fixed eight-byte signature followed by an ordered
//! sequence of chunks, with whole-buffer decode/encode and type-keyed
//! lookup, append and removal.

use vstd::prelude::*;
use vstd::slice::slice_subrange;
use vstd::string::StringSliceAdditionalSpecFns;

use crate::be_bytes::lemma_u32_to_from_be_bytes;
use crate::be_bytes::spec_u32_from_be_bytes;
use crate::be_bytes::spec_u32_to_be_bytes;
use crate::be_bytes::u32_from_be_bytes;
use crate::chunk::chunk_wf;
use crate::chunk::lemma_chunk_round_trip;
use crate::chunk::spec_chunk_bytes;
use crate::chunk::spec_decode_chunk;
use crate::chunk::Chunk;
use crate::chunk::ChunkError;
use crate::chunk::ChunkModel;
use crate::chunk_type::all_letters;

verus! {

/// The fixed eight-byte signature that every container starts with.
pub open spec fn spec_signature() -> Seq<u8> {
    seq![137u8, 80u8, 78u8, 71u8, 13u8, 10u8, 26u8, 10u8]
}

/// The signature as bytes.
pub fn signature() -> (r: [u8; 8])
    ensures
        r@ == spec_signature(),
{
    let r: [u8; 8] = [137, 80, 78, 71, 13, 10, 26, 10];
    proof {
        assert(r@ =~= spec_signature());
    }
    r
}

/// Failure of container decoding or chunk removal.
#[derive(Debug, Clone, Copy, PartialEq, Eq, Structural)]
pub enum PngError {
    /// The buffer does not start with the fixed signature.
    SignatureMismatch,
    /// No chunk of the requested type exists.
    ChunkNotFound,
    /// A chunk failed to decode; the whole container decode is aborted.
    InvalidChunk(ChunkError),
}

/// How many leading bytes the next chunk decode consumes: the declared total
/// (twelve framing bytes plus payload length), or the whole buffer where it
/// is too short for that.
pub open spec fn chunk_window(b: Seq<u8>) -> int {
    if b.len() < 12 {
        b.len() as int
    } else {
        let length = spec_u32_from_be_bytes(b.subrange(0, 4)) as int;
        if b.len() < 12 + length {
            b.len() as int
        } else {
            12 + length
        }
    }
}

/// What decoding a buffer as a sequence of chunks yields: all chunks in
/// order, read to exhaustion, or the first chunk decode error.
pub open spec fn spec_decode_chunks(b: Seq<u8>) -> Result<Seq<ChunkModel>, ChunkError>
    decreases b.len(),
{
    if b.len() == 0 {
        Ok(Seq::empty())
    } else {
        let w = chunk_window(b);
        match spec_decode_chunk(b.subrange(0, w)) {
            Err(e) => Err(e),
            Ok(m) => match spec_decode_chunks(b.subrange(w, b.len() as int)) {
                Err(e) => Err(e),
                Ok(rest) => Ok(seq![m] + rest),
            },
        }
    }
}

/// What decoding a whole container yields: the chunk sequence after the
/// signature, or the reason the buffer is rejected.
pub open spec fn spec_decode_png(b: Seq<u8>) -> Result<Seq<ChunkModel>, PngError> {
    if b.len() < 8 || b.subrange(0, 8) != spec_signature() {
        Err(PngError::SignatureMismatch)
    } else {
        match spec_decode_chunks(b.subrange(8, b.len() as int)) {
            Ok(s) => Ok(s),
            Err(e) => Err(PngError::InvalidChunk(e)),
        }
    }
}

/// The encoded bytes of a chunk sequence, in order.
pub open spec fn spec_chunks_bytes(s: Seq<ChunkModel>) -> Seq<u8>
    decreases s.len(),
{
    if s.len() == 0 {
        Seq::empty()
    } else {
        spec_chunk_bytes(s[0]) + spec_chunks_bytes(s.drop_first())
    }
}

/// The encoded bytes of a whole container: signature, then the chunks.
pub open spec fn spec_png_bytes(s: Seq<ChunkModel>) -> Seq<u8> {
    spec_signature() + spec_chunks_bytes(s)
}

/// The index of the first chunk whose type bytes equal `t`, if any.
pub open spec fn spec_find(s: Seq<ChunkModel>, t: Seq<u8>) -> Option<int>
    decreases s.len(),
{
    if s.len() == 0 {
        None
    } else if s[0].chunk_type == t {
        Some(0int)
    } else {
        match spec_find(s.drop_first(), t) {
            None => None,
            Some(i) => Some(i + 1),
        }
    }
}

/// `spec_find` names the first match: no earlier chunk has type `t`, and a
/// `None` means no chunk at all has it.
pub proof fn lemma_spec_find_first(s: Seq<ChunkModel>, t: Seq<u8>, i: int)
    requires
        0 <= i <= s.len(),
        forall|j: int| 0 <= j < i ==> (#[trigger] s[j]).chunk_type != t,
    ensures
        i < s.len() && s[i].chunk_type == t ==> spec_find(s, t) == Some(i),
        i == s.len() ==> spec_find(s, t) is None,
    decreases i, s.len(),
{
    if i == 0 {
        if i == s.len() {
            assert(s.len() == 0);
        }
    } else {
        assert(s[0].chunk_type != t);
        let d = s.drop_first();
        assert(forall|j: int| 0 <= j < i - 1 ==> (#[trigger] d[j]).chunk_type != t) by {
            assert(forall|j: int| 0 <= j < i - 1 ==> #[trigger] d[j] == s[j + 1]);
        }
        lemma_spec_find_first(d, t, i - 1);
        if i < s.len() && s[i].chunk_type == t {
            assert(d[i - 1] == s[i]);
        }
    }
}

/// The chunk container. Its view is the ordered sequence of chunk models.
pub struct Png {
    chunks: Vec<Chunk>,
}

impl View for Png {
    type V = Seq<ChunkModel>;

    closed spec fn view(&self) -> Seq<ChunkModel> {
        self.chunks@.map_values(|c: Chunk| c@)
    }
}

impl Png {
    /// Compose a container from a caller-supplied chunk list.
    pub fn from_chunks(chunks: Vec<Chunk>) -> (p: Png)
        ensures
            p@ == chunks@.map_values(|c: Chunk| c@),
    {
        Png { chunks }
    }

    /// Decode a whole buffer: the signature, then chunks read to exhaustion.
    /// Any per-chunk failure aborts the decode with that chunk's error.
    pub fn try_from(value: &[u8]) -> (r: Result<Png, PngError>)
        ensures
            match r {
                Ok(p) => spec_decode_png(value@) == Ok::<Seq<ChunkModel>, PngError>(p@),
                Err(e) => spec_decode_png(value@) == Err::<Seq<ChunkModel>, PngError>(e),
            },
    {
        if value.len() < 8 {
            return Err(PngError::SignatureMismatch);
        }
        let sig = signature();
        let mut k: usize = 0;
        while k < 8
            invariant
                k <= 8,
                value@.len() >= 8,
                sig@ == spec_signature(),
                forall|j: int| 0 <= j < k ==> value@[j] == spec_signature()[j],
            decreases 8 - k,
        {
            if value[k] != sig[k] {
                proof {
                    assert(value@.subrange(0, 8)[k as int] != spec_signature()[k as int]);
                }
                return Err(PngError::SignatureMismatch);
            }
            k = k + 1;
        }
        proof {
            assert(value@.subrange(0, 8) =~= spec_signature());
        }
        let ghost whole = value@.subrange(8, value@.len() as int);
        let mut chunks: Vec<Chunk> = Vec::new();
        let mut cursor: usize = 8;
        proof {
            assert(value@.subrange(8, value@.len() as int) == whole);
            assert(chunks@.map_values(|c: Chunk| c@) =~= Seq::<ChunkModel>::empty());
        }
        while cursor < value.len()
            invariant
                8 <= cursor <= value@.len(),
                value@.subrange(0, 8) == spec_signature(),
                whole == value@.subrange(8, value@.len() as int),
                match spec_decode_chunks(value@.subrange(cursor as int, value@.len() as int)) {
                    Ok(rest) => spec_decode_chunks(whole) == Ok::<Seq<ChunkModel>, ChunkError>(
                        chunks@.map_values(|c: Chunk| c@) + rest,
                    ),
                    Err(e) => spec_decode_chunks(whole) == Err::<Seq<ChunkModel>, ChunkError>(e),
                },
            decreases value@.len() - cursor,
        {
            let ghost tail = value@.subrange(cursor as int, value@.len() as int);
            let remaining = value.len() - cursor;
            let end: usize = if remaining < 12 {
                value.len()
            } else {
                let length = u32_from_be_bytes(slice_subrange(value, cursor, cursor + 4)) as usize;
                proof {
                    assert(value@.subrange(cursor as int, cursor + 4 as int) =~= tail.subrange(
                        0,
                        4,
                    ));
                }
                if remaining - 12 < length {
                    value.len()
                } else {
                    cursor + 12 + length
                }
            };
            proof {
                assert(end - cursor == chunk_window(tail));
                assert(value@.subrange(cursor as int, end as int) =~= tail.subrange(
                    0,
                    chunk_window(tail),
                ));
            }
            match Chunk::try_from(slice_subrange(value, cursor, end)) {
                Ok(c) => {
                    proof {
                        assert(value@.subrange(end as int, value@.len() as int) =~= tail.subrange(
                            chunk_window(tail),
                            tail.len() as int,
                        ));
                    }
                    let ghost before = chunks@.map_values(|c: Chunk| c@);
                    chunks.push(c);
                    proof {
                        assert(chunks@.map_values(|c: Chunk| c@) =~= before.push(c@));
                        let w = chunk_window(tail);
                        let after = tail.subrange(w, tail.len() as int);
                        if spec_decode_chunks(after) is Ok {
                            let rest = spec_decode_chunks(after)->Ok_0;
                            assert(spec_decode_chunks(tail) == Ok::<Seq<ChunkModel>, ChunkError>(
                                seq![c@] + rest,
                            ));
                            assert(before + (seq![c@] + rest) =~= before.push(c@) + rest);
                        }
                    }
                    cursor = end;
                }
                Err(e) => {
                    proof {
                        assert(tail.len() > 0);
                        assert(spec_decode_chunk(tail.subrange(0, chunk_window(tail)))
                            == Err::<ChunkModel, ChunkError>(e));
                        assert(spec_decode_chunks(tail) == Err::<Seq<ChunkModel>, ChunkError>(e));
                        assert(spec_decode_chunks(whole) == Err::<Seq<ChunkModel>, ChunkError>(e));
                    }
                    return Err(PngError::InvalidChunk(e));
                }
            }
        }
        proof {
            assert(value@.subrange(cursor as int, value@.len() as int) =~= Seq::<u8>::empty());
            assert(chunks@.map_values(|c: Chunk| c@) + Seq::<ChunkModel>::empty() =~= chunks@
                .map_values(|c: Chunk| c@));
        }
        Ok(Png { chunks })
    }

    /// Encode the container: the signature, then every chunk's bytes in
    /// order.
    pub fn as_bytes(&self) -> (r: Vec<u8>)
        ensures
            r@ == spec_png_bytes(self@),
    {
        let mut out: Vec<u8> = Vec::new();
        let sig = signature();
        out.push(sig[0]);
        out.push(sig[1]);
        out.push(sig[2]);
        out.push(sig[3]);
        out.push(sig[4]);
        out.push(sig[5]);
        out.push(sig[6]);
        out.push(sig[7]);
        proof {
            assert(out@ =~= spec_signature() + spec_chunks_bytes(self@.take(0)));
        }
        let mut i: usize = 0;
        while i < self.chunks.len()
            invariant
                i <= self.chunks@.len(),
                self@.len() == self.chunks@.len(),
                out@ == spec_signature() + spec_chunks_bytes(self@.take(i as int)),
            decreases self.chunks@.len() - i,
        {
            let cb = self.chunks[i].as_bytes();
            crate::chunk::push_all(&mut out, cb.as_slice());
            proof {
                assert(self@[i as int] == self.chunks@[i as int]@);
                assert(self@.take(i + 1 as int) =~= self@.take(i as int).push(self@[i as int]));
                lemma_chunks_bytes_snoc(self@.take(i as int), self@[i as int]);
            }
            i = i + 1;
        }
        proof {
            assert(self@.take(self.chunks@.len() as int) =~= self@);
        }
        out
    }

    /// Append a chunk at the end of the sequence.
    pub fn append_chunk(&mut self, chunk: Chunk)
        ensures
            final(self)@ == old(self)@.push(chunk@),
    {
        let ghost before = self@;
        self.chunks.push(chunk);
        proof {
            assert(self@ =~= before.push(chunk@));
        }
    }

    /// The first chunk whose type's textual form equals the argument, if any.
    pub fn chunk_by_type(&self, t: &str) -> (r: Option<&Chunk>)
        ensures
            match r {
                Some(c) => spec_find(self@, t.spec_bytes()) matches Some(i) && c@ == self@[i],
                None => spec_find(self@, t.spec_bytes()) is None,
            },
    {
        let ghost tb = t.spec_bytes();
        let mut i: usize = 0;
        while i < self.chunks.len()
            invariant
                i <= self.chunks@.len(),
                self@.len() == self.chunks@.len(),
                tb == t.spec_bytes(),
                forall|j: int| 0 <= j < i ==> (#[trigger] self@[j]).chunk_type != tb,
            decreases self.chunks@.len() - i,
        {
            if self.chunks[i].chunk_type().eq_str(t) {
                proof {
                    assert(self@[i as int] == self.chunks@[i as int]@);
                    lemma_spec_find_first(self@, tb, i as int);
                }
                return Some(&self.chunks[i]);
            }
            proof {
                assert(self@[i as int] == self.chunks@[i as int]@);
            }
            i = i + 1;
        }
        proof {
            lemma_spec_find_first(self@, tb, self@.len() as int);
        }
        None
    }

    /// Remove and return the first chunk of the given type; `ChunkNotFound`
    /// when none exists, leaving the container unchanged. Only one chunk is
    /// removed even if several share the type.
    pub fn remove_chunk(&mut self, t: &str) -> (r: Result<Chunk, PngError>)
        ensures
            match r {
                Ok(c) => spec_find(old(self)@, t.spec_bytes()) matches Some(i) && c@ == old(
                    self,
                )@[i] && final(self)@ == old(self)@.remove(i),
                Err(e) => e == PngError::ChunkNotFound && spec_find(old(self)@, t.spec_bytes())
                    is None && final(self)@ == old(self)@,
            },
    {
        let ghost tb = t.spec_bytes();
        let mut i: usize = 0;
        while i < self.chunks.len()
            invariant
                i <= self.chunks@.len(),
                self@ == old(self)@,
                self@.len() == self.chunks@.len(),
                tb == t.spec_bytes(),
                forall|j: int| 0 <= j < i ==> (#[trigger] self@[j]).chunk_type != tb,
            decreases self.chunks@.len() - i,
        {
            if self.chunks[i].chunk_type().eq_str(t) {
                proof {
                    assert(self@[i as int] == self.chunks@[i as int]@);
                    lemma_spec_find_first(self@, tb, i as int);
                }
                let c = self.chunks.remove(i);
                proof {
                    assert(self@ =~= old(self)@.remove(i as int));
                }
                return Ok(c);
            }
            proof {
                assert(self@[i as int] == self.chunks@[i as int]@);
            }
            i = i + 1;
        }
        proof {
            lemma_spec_find_first(self@, tb, self@.len() as int);
        }
        Err(PngError::ChunkNotFound)
    }

    /// A read-only view of the chunk sequence, for iteration and display.
    pub fn chunks(&self) -> (r: &Vec<Chunk>)
        ensures
            r@.len() == self@.len(),
            forall|i: int| 0 <= i < self@.len() ==> (#[trigger] r@[i])@ == self@[i],
    {
        &self.chunks
    }
}

/// Encoding one more chunk appends its bytes at the end.
pub proof fn lemma_chunks_bytes_snoc(s: Seq<ChunkModel>, m: ChunkModel)
    ensures
        spec_chunks_bytes(s.push(m)) == spec_chunks_bytes(s) + spec_chunk_bytes(m),
    decreases s.len(),
{
    if s.len() == 0 {
        assert(s.push(m)[0] == m);
        assert(s.push(m).drop_first() =~= s);
        assert(spec_chunks_bytes(s) == Seq::<u8>::empty());
        assert(spec_chunks_bytes(s.push(m)) == spec_chunk_bytes(m) + spec_chunks_bytes(s));
        assert(spec_chunks_bytes(s.push(m)) =~= spec_chunks_bytes(s) + spec_chunk_bytes(m));
    } else {
        assert(s.push(m).drop_first() =~= s.drop_first().push(m));
        lemma_chunks_bytes_snoc(s.drop_first(), m);
        assert(s.push(m)[0] == s[0]);
        assert(spec_chunks_bytes(s.push(m)) == spec_chunk_bytes(s[0]) + spec_chunks_bytes(
            s.drop_first().push(m),
        ));
        assert(spec_chunks_bytes(s.push(m)) =~= spec_chunks_bytes(s) + spec_chunk_bytes(m));
    }
}

/// Round trip for a chunk sequence: a sequence of well-formed chunks with
/// letter type bytes decodes from its own encoding back to itself.
#[verifier::rlimit(100)]
pub proof fn lemma_chunks_round_trip(s: Seq<ChunkModel>)
    requires
        forall|i: int| 0 <= i < s.len() ==> chunk_wf(#[trigger] s[i]) && all_letters(
            s[i].chunk_type,
        ),
    ensures
        spec_decode_chunks(spec_chunks_bytes(s)) == Ok::<Seq<ChunkModel>, ChunkError>(s),
    decreases s.len(),
{
    let b = spec_chunks_bytes(s);
    if s.len() == 0 {
        assert(b.len() == 0);
        assert(s =~= Seq::<ChunkModel>::empty());
    } else {
        let m = s[0];
        let mb = spec_chunk_bytes(m);
        lemma_chunk_round_trip(m);
        lemma_u32_to_from_be_bytes(m.length);
        assert(mb.len() == 12 + m.data.len());
        assert(b == mb + spec_chunks_bytes(s.drop_first()));
        assert(b.subrange(0, 4) =~= spec_u32_to_be_bytes(m.length));
        assert(chunk_window(b) == mb.len());
        assert(b.subrange(0, mb.len() as int) =~= mb);
        assert(b.subrange(mb.len() as int, b.len() as int) =~= spec_chunks_bytes(s.drop_first()));
        let d = s.drop_first();
        assert(forall|i: int|
            0 <= i < d.len() ==> chunk_wf(#[trigger] d[i]) && all_letters(d[i].chunk_type)) by {
            assert(forall|i: int| 0 <= i < d.len() ==> #[trigger] d[i] == s[i + 1]);
        }
        lemma_chunks_round_trip(d);
        assert(b.len() > 0);
        assert(spec_decode_chunks(b) == Ok::<Seq<ChunkModel>, ChunkError>(seq![m] + d));
        assert(seq![m] + d =~= s);
    }
}

/// Encoding is the exact inverse of decoding for a chunk sequence: any
/// buffer that decodes as a sequence of chunks is reproduced, byte for byte,
/// by encoding the result.
#[verifier::spinoff_prover]
#[verifier::rlimit(100)]
pub proof fn lemma_chunks_decode_encode(b: Seq<u8>)
    requires
        spec_decode_chunks(b) is Ok,
    ensures
        spec_chunks_bytes(spec_decode_chunks(b)->Ok_0) == b,
    decreases b.len(),
{
    let s = spec_decode_chunks(b)->Ok_0;
    if b.len() == 0 {
        assert(spec_chunks_bytes(s) =~= b);
    } else {
        let w = chunk_window(b);
        let m = spec_decode_chunk(b.subrange(0, w))->Ok_0;
        let after = b.subrange(w, b.len() as int);
        let rest = spec_decode_chunks(after)->Ok_0;
        crate::chunk::lemma_chunk_decode_encode(b.subrange(0, w));
        lemma_chunks_decode_encode(after);
        assert(s == seq![m] + rest);
        assert(s.len() > 0);
        assert(s[0] == m);
        assert(s.drop_first() =~= rest);
        assert(spec_chunks_bytes(s) == spec_chunk_bytes(m) + spec_chunks_bytes(rest));
        assert(spec_chunk_bytes(m) == b.subrange(0, w));
        assert(spec_chunks_bytes(rest) == after);
        assert(b.subrange(0, w) + after =~= b);
    }
}

/// Every chunk of a sequence that decoding accepts satisfies the record
/// invariant, with letter type bytes.
pub proof fn lemma_decoded_chunks_wf(b: Seq<u8>)
    requires
        spec_decode_chunks(b) is Ok,
    ensures
        forall|i: int|
            0 <= i < spec_decode_chunks(b)->Ok_0.len() ==> chunk_wf(
                #[trigger] spec_decode_chunks(b)->Ok_0[i],
            ) && all_letters(spec_decode_chunks(b)->Ok_0[i].chunk_type),
    decreases b.len(),
{
    let s = spec_decode_chunks(b)->Ok_0;
    if b.len() == 0 {
    } else {
        let w = chunk_window(b);
        let m = spec_decode_chunk(b.subrange(0, w))->Ok_0;
        let after = b.subrange(w, b.len() as int);
        let rest = spec_decode_chunks(after)->Ok_0;
        crate::chunk::lemma_decoded_chunk_wf(b.subrange(0, w));
        lemma_decoded_chunks_wf(after);
        assert(s == seq![m] + rest);
        assert(forall|i: int| 0 <= i < rest.len() ==> #[trigger] s[i + 1] == rest[i]);
        assert(s[0] == m);
    }
}

/// Every chunk of a container that decoding accepts satisfies the record
/// invariant, with letter type bytes.
pub proof fn lemma_decoded_png_wf(b: Seq<u8>)
    requires
        spec_decode_png(b) is Ok,
    ensures
        forall|i: int|
            0 <= i < spec_decode_png(b)->Ok_0.len() ==> chunk_wf(
                #[trigger] spec_decode_png(b)->Ok_0[i],
            ) && all_letters(spec_decode_png(b)->Ok_0[i].chunk_type),
{
    lemma_decoded_chunks_wf(b.subrange(8, b.len() as int));
}

/// Encoding is the exact inverse of decoding for a whole container: any
/// buffer that decodes as a container is reproduced, byte for byte, by
/// encoding the result.
pub proof fn lemma_png_decode_encode(b: Seq<u8>)
    requires
        spec_decode_png(b) is Ok,
    ensures
        spec_png_bytes(spec_decode_png(b)->Ok_0) == b,
{
    let s = spec_decode_png(b)->Ok_0;
    let after = b.subrange(8, b.len() as int);
    lemma_chunks_decode_encode(after);
    assert(spec_decode_chunks(after) == Ok::<Seq<ChunkModel>, ChunkError>(s));
    assert(spec_chunks_bytes(s) == after);
    assert(b.subrange(0, 8) == spec_signature());
    assert(b =~= b.subrange(0, 8) + b.subrange(8, b.len() as int));
}

/// Round trip for a whole container: decoding what a container of
/// well-formed, letter-typed chunks encodes reproduces the same ordered
/// chunk sequence.
pub proof fn lemma_png_round_trip(s: Seq<ChunkModel>)
    requires
        forall|i: int| 0 <= i < s.len() ==> chunk_wf(#[trigger] s[i]) && all_letters(
            s[i].chunk_type,
        ),
    ensures
        spec_decode_png(spec_png_bytes(s)) == Ok::<Seq<ChunkModel>, PngError>(s),
{
    let b = spec_png_bytes(s);
    assert(b.subrange(0, 8) =~= spec_signature());
    assert(b.subrange(8, b.len() as int) =~= spec_chunks_bytes(s));
    lemma_chunks_round_trip(s);
}

} // verus!
