use vstd::prelude::*;
use vstd::string::StringSliceAdditionalSpecFns;

use crate::chunk::{
    chunk_wf, declared_len, decode_at, decode_chunk, encode_chunk, lemma_decode_encode_then,
    lemma_encode_decode, Chunk, ChunkError, ChunkModel,
};

verus! {

/// The eight bytes every container starts with.
pub open spec fn png_signature() -> Seq<u8> {
    seq![137u8, 80u8, 78u8, 71u8, 13u8, 10u8, 26u8, 10u8]
}

/// Reads chunks one after another until the bytes run out exactly.
pub open spec fn parse_chunks(b: Seq<u8>) -> Result<Seq<ChunkModel>, ChunkError>
    decreases b.len(),
    via parse_chunks_decreases
{
    if b.len() == 0 {
        Ok(Seq::empty())
    } else {
        match decode_chunk(b) {
            Err(e) => Err(e),
            Ok(m) => match parse_chunks(b.skip(12 + m.length)) {
                Ok(rest) => Ok(seq![m] + rest),
                Err(e) => Err(e),
            },
        }
    }
}

#[via_fn]
proof fn parse_chunks_decreases(b: Seq<u8>) {
    if b.len() != 0 && decode_chunk(b) is Ok {
        lemma_encode_decode(b);
    }
}

/// Reading a whole container: signature, then chunks to the end.
pub open spec fn parse_png(b: Seq<u8>) -> Result<Seq<ChunkModel>, PNGError> {
    if b.len() < 8 {
        Err(PNGError::InsufficientBits)
    } else if b.subrange(0, 8) != png_signature() {
        Err(PNGError::HeaderMismatch)
    } else {
        match parse_chunks(b.skip(8)) {
            Ok(ms) => Ok(ms),
            Err(e) => Err(PNGError::ChunkParse(e)),
        }
    }
}

/// The wire forms of the chunks, in order.
pub open spec fn encode_chunks(ms: Seq<ChunkModel>) -> Seq<u8>
    decreases ms.len(),
{
    if ms.len() == 0 {
        Seq::empty()
    } else {
        encode_chunk(ms[0]) + encode_chunks(ms.drop_first())
    }
}

/// The bytes of a container holding these chunks.
pub open spec fn serialize_png(ms: Seq<ChunkModel>) -> Seq<u8> {
    png_signature() + encode_chunks(ms)
}

/// Some chunk has type code `t`.
pub open spec fn has_match(ms: Seq<ChunkModel>, t: Seq<u8>) -> bool {
    exists|i: int| 0 <= i < ms.len() && #[trigger] ms[i].ty == t
}

/// `i` is the position of the first chunk with type code `t`.
pub open spec fn is_first_match(ms: Seq<ChunkModel>, t: Seq<u8>, i: int) -> bool {
    &&& 0 <= i < ms.len()
    &&& ms[i].ty == t
    &&& forall|j: int| 0 <= j < i ==> #[trigger] ms[j].ty != t
}

/// Prepends the chunks read so far to what reading the rest gives.
pub open spec fn prepend_parsed(
    done: Seq<ChunkModel>,
    rest: Result<Seq<ChunkModel>, ChunkError>,
) -> Result<Seq<ChunkModel>, ChunkError> {
    match rest {
        Ok(ms) => Ok(done + ms),
        Err(e) => Err(e),
    }
}

proof fn lemma_encode_chunks_push(ms: Seq<ChunkModel>, m: ChunkModel)
    ensures
        encode_chunks(ms.push(m)) == encode_chunks(ms) + encode_chunk(m),
    decreases ms.len(),
{
    if ms.len() == 0 {
        assert(ms.push(m).drop_first() =~= Seq::<ChunkModel>::empty());
        assert(ms.push(m)[0] == m);
        assert(encode_chunks(ms.push(m).drop_first()) == Seq::<u8>::empty());
        assert(encode_chunks(ms.push(m)) =~= encode_chunk(m));
        assert(encode_chunks(ms) == Seq::<u8>::empty());
    } else {
        assert(ms.push(m).drop_first() =~= ms.drop_first().push(m));
        lemma_encode_chunks_push(ms.drop_first(), m);
        assert(encode_chunks(ms.push(m)) =~= encode_chunks(ms) + encode_chunk(m));
    }
}

proof fn lemma_chunks_round_trip(b: Seq<u8>)
    requires
        parse_chunks(b) is Ok,
    ensures
        encode_chunks(parse_chunks(b)->Ok_0) == b,
    decreases b.len(),
{
    if b.len() > 0 {
        let d = decode_chunk(b);
        assert(d is Ok);
        let m = d->Ok_0;
        let n = 12 + m.length;
        lemma_encode_decode(b);
        let rest = b.skip(n);
        let r = parse_chunks(rest);
        assert(r is Ok);
        let ms = parse_chunks(b)->Ok_0;
        assert(ms == seq![m] + r->Ok_0);
        lemma_chunks_round_trip(rest);
        assert(ms.drop_first() =~= r->Ok_0);
        assert(encode_chunks(ms) == encode_chunk(m) + encode_chunks(r->Ok_0));
        assert(b =~= b.subrange(0, n) + rest);
    }
}

/// Writing out a container that was read from well-formed bytes gives those
/// bytes back exactly, whatever the number of chunks.
pub proof fn lemma_container_round_trip(b: Seq<u8>)
    requires
        parse_png(b) is Ok,
    ensures
        serialize_png(parse_png(b)->Ok_0) == b,
{
    lemma_chunks_round_trip(b.skip(8));
    assert(b =~= b.subrange(0, 8) + b.skip(8));
}

/// After a chunk whose type code no chunk has yet is appended, it is the first
/// chunk of that type; taking that one out gives the earlier sequence back, in
/// which no chunk of that type is left.
pub proof fn lemma_append_find_remove(ms: Seq<ChunkModel>, m: ChunkModel)
    requires
        !has_match(ms, m.ty),
    ensures
        is_first_match(ms.push(m), m.ty, ms.len() as int),
        ms.push(m)[ms.len() as int] == m,
        ms.push(m).remove(ms.len() as int) == ms,
        !has_match(ms.push(m).remove(ms.len() as int), m.ty),
{
    let n = ms.len() as int;
    assert forall|j: int| 0 <= j < n implies #[trigger] ms.push(m)[j].ty != m.ty by {
        assert(ms.push(m)[j] == ms[j]);
    }
    assert(ms.push(m).remove(n) =~= ms);
}

/// Bytes whose first eight differ from the signature are refused as a signature
/// mismatch, whatever follows them.
pub proof fn lemma_bad_signature_rejected(b: Seq<u8>)
    requires
        b.len() >= 8,
        b.subrange(0, 8) != png_signature(),
    ensures
        parse_png(b) == Err::<Seq<ChunkModel>, PNGError>(PNGError::HeaderMismatch),
{
}

/// A chunk that declares more payload than the bytes after its type code hold
/// is never read short: reading it fails with a structural error.
pub proof fn lemma_truncated_chunk_rejected(b: Seq<u8>)
    requires
        b.len() >= 4,
        12 + declared_len(b) > b.len(),
    ensures
        decode_chunk(b) matches Err(e) && (e is DataLength || e is Truncated),
{
    reveal(decode_chunk);
}

/// A container whose first chunk declares more payload than the bytes hold
/// fails to read with a structural error.
pub proof fn lemma_truncated_container_rejected(b: Seq<u8>)
    requires
        b.len() >= 12,
        b.subrange(0, 8) == png_signature(),
        12 + declared_len(b.skip(8)) > b.len() - 8,
    ensures
        parse_png(b) matches Err(PNGError::ChunkParse(e)) && (e is DataLength || e is Truncated),
{
    lemma_truncated_chunk_rejected(b.skip(8));
}

/// Every chunk is well-formed.
pub open spec fn all_wf(ms: Seq<ChunkModel>) -> bool {
    forall|i: int| 0 <= i < ms.len() ==> chunk_wf(#[trigger] ms[i])
}

proof fn lemma_chunks_parse_back(ms: Seq<ChunkModel>)
    requires
        all_wf(ms),
    ensures
        parse_chunks(encode_chunks(ms)) == Ok::<Seq<ChunkModel>, ChunkError>(ms),
    decreases ms.len(),
{
    if ms.len() > 0 {
        let m = ms[0];
        let tail = ms.drop_first();
        assert(chunk_wf(m));
        assert(all_wf(tail)) by {
            assert forall|i: int| 0 <= i < tail.len() implies chunk_wf(#[trigger] tail[i]) by {
                assert(tail[i] == ms[i + 1]);
            }
        }
        let b = encode_chunks(ms);
        assert(b == encode_chunk(m) + encode_chunks(tail));
        lemma_decode_encode_then(m, encode_chunks(tail));
        lemma_encode_decode(b);
        assert(b.skip(12 + m.length) =~= encode_chunks(tail));
        lemma_chunks_parse_back(tail);
        assert(b.len() >= 12);
        assert(parse_chunks(b) == Ok::<Seq<ChunkModel>, ChunkError>(seq![m] + tail));
        assert(seq![m] + tail =~= ms);
    } else {
        assert(encode_chunks(ms) =~= Seq::<u8>::empty());
        assert(ms =~= Seq::<ChunkModel>::empty());
    }
}

/// Reading back the bytes of a container of well-formed chunks gives the same
/// chunks, in the same order.
pub proof fn lemma_serialize_round_trip(ms: Seq<ChunkModel>)
    requires
        all_wf(ms),
    ensures
        parse_png(serialize_png(ms)) == Ok::<Seq<ChunkModel>, PNGError>(ms),
{
    let b = serialize_png(ms);
    assert(b.subrange(0, 8) =~= png_signature());
    assert(b.skip(8) =~= encode_chunks(ms));
    lemma_chunks_parse_back(ms);
}

/// Why a container could not be read.
#[derive(Debug, PartialEq, Eq, Structural, Clone, Copy)]
pub enum PNGError {
    /// Fewer than the eight bytes of the signature.
    InsufficientBits,
    /// The first eight bytes are not the signature.
    HeaderMismatch,
    /// A chunk could not be read.
    ChunkParse(ChunkError),
}

/// A signature followed by an ordered sequence of chunks.
#[derive(Debug)]
pub struct Png {
    chunks: Vec<Chunk>,
}

impl View for Png {
    type V = Seq<ChunkModel>;

    closed spec fn view(&self) -> Seq<ChunkModel> {
        self.chunks@.map_values(|c: Chunk| c@)
    }
}

impl Png {
    #[verifier::type_invariant]
    spec fn inv(self) -> bool {
        all_wf(self@)
    }

    /// The eight signature bytes.
    pub fn standard_header() -> (r: [u8; 8])
        ensures
            r@ == png_signature(),
    {
        let r: [u8; 8] = [137, 80, 78, 71, 13, 10, 26, 10];
        assert(r@ =~= png_signature());
        r
    }

    /// A container holding the given chunks, in order.
    pub fn from_chunks(chunks: Vec<Chunk>) -> (r: Png)
        ensures
            r@ == chunks@.map_values(|c: Chunk| c@),
    {
        let mut i: usize = 0;
        while i < chunks.len()
            invariant
                i <= chunks@.len(),
                forall|j: int| 0 <= j < i ==> chunk_wf(#[trigger] chunks@[j]@),
            decreases chunks@.len() - i,
        {
            chunks[i].length();
            i = i + 1;
        }
        Png { chunks }
    }

    /// Reads a container: the signature, then chunks until the bytes run out.
    pub fn from_bytes(bytes: &[u8]) -> (r: Result<Png, PNGError>)
        ensures
            match parse_png(bytes@) {
                Ok(ms) => r matches Ok(p) && p@ == ms,
                Err(e) => r == Err::<Png, PNGError>(e),
            },
    {
        if bytes.len() < 8 {
            return Err(PNGError::InsufficientBits);
        }
        let header = Png::standard_header();
        let mut k: usize = 0;
        while k < 8
            invariant
                k <= 8,
                bytes@.len() >= 8,
                header@ == png_signature(),
                forall|j: int| 0 <= j < k ==> bytes@[j] == #[trigger] header@[j],
            decreases 8 - k,
        {
            if bytes[k] != header[k] {
                assert(bytes@.subrange(0, 8)[k as int] != png_signature()[k as int]);
                return Err(PNGError::HeaderMismatch);
            }
            k = k + 1;
        }
        assert(bytes@.subrange(0, 8) =~= png_signature());
        let ghost whole = bytes@.skip(8);
        let mut chunks: Vec<Chunk> = Vec::new();
        let mut pos: usize = 8;
        assert(bytes@.skip(8) =~= bytes@.subrange(8, bytes@.len() as int));
        assert(chunks@.map_values(|c: Chunk| c@) =~= Seq::<ChunkModel>::empty());
        while pos < bytes.len()
            invariant
                8 <= pos <= bytes@.len(),
                bytes@.subrange(0, 8) == png_signature(),
                whole == bytes@.skip(8),
                all_wf(chunks@.map_values(|c: Chunk| c@)),
                parse_chunks(whole) == prepend_parsed(
                    chunks@.map_values(|c: Chunk| c@),
                    parse_chunks(bytes@.skip(pos as int)),
                ),
            decreases bytes@.len() - pos,
        {
            let ghost rest = bytes@.skip(pos as int);
            assert(rest =~= bytes@.subrange(pos as int, bytes@.len() as int));
            let ghost done = chunks@.map_values(|c: Chunk| c@);
            match decode_at(bytes, pos) {
                Err(e) => {
                    assert(parse_chunks(rest) == Err::<Seq<ChunkModel>, ChunkError>(e));
                    return Err(PNGError::ChunkParse(e));
                },
                Ok(c) => {
                    proof {
                        lemma_encode_decode(rest);
                    }
                    let next = pos + 12 + c.length() as usize;
                    proof {
                        let m = c@;
                        assert(rest.skip(12 + m.length) =~= bytes@.skip(next as int));
                        match parse_chunks(bytes@.skip(next as int)) {
                            Ok(tail) => {
                                assert(done + (seq![m] + tail) =~= done.push(m) + tail);
                            },
                            Err(_) => {},
                        }
                    }
                    chunks.push(c);
                    assert(chunks@.map_values(|c: Chunk| c@) =~= done.push(c@));
                    pos = next;
                },
            }
        }
        assert(bytes@.skip(pos as int) =~= Seq::<u8>::empty());
        assert(chunks@.map_values(|c: Chunk| c@) + Seq::<ChunkModel>::empty() =~= chunks@.map_values(
            |c: Chunk| c@,
        ));
        Ok(Png { chunks })
    }

    /// Adds a chunk at the end.
    pub fn append_chunk(&mut self, chunk: Chunk)
        ensures
            final(self)@ == old(self)@.push(chunk@),
    {
        proof {
            use_type_invariant(&*self);
        }
        chunk.length();
        let mut v: Vec<Chunk> = Vec::new();
        std::mem::swap(&mut self.chunks, &mut v);
        v.push(chunk);
        assert(v@.map_values(|c: Chunk| c@) =~= old(self)@.push(chunk@));
        assert(all_wf(old(self)@.push(chunk@)));
        std::mem::swap(&mut self.chunks, &mut v);
        assert(self@ =~= old(self)@.push(chunk@));
    }

    /// The first chunk whose type code's text is `chunk_type`.
    pub fn chunk_by_type(&self, chunk_type: &str) -> (r: Option<&Chunk>)
        ensures
            r is None <==> !has_match(self@, chunk_type.spec_bytes()),
            r matches Some(c) ==> exists|i: int|
                is_first_match(self@, chunk_type.spec_bytes(), i) && c@ == #[trigger] self@[i],
    {
        let t = chunk_type.as_bytes();
        let mut i: usize = 0;
        while i < self.chunks.len()
            invariant
                i <= self@.len(),
                self@.len() == self.chunks@.len(),
                t@ == chunk_type.spec_bytes(),
                forall|j: int| 0 <= j < i ==> #[trigger] self@[j].ty != t@,
            decreases self.chunks@.len() - i,
        {
            let c = &self.chunks[i];
            if Png::type_is(c, t) {
                assert(is_first_match(self@, t@, i as int));
                return Some(c);
            }
            i = i + 1;
        }
        None
    }

    /// Takes out the first chunk whose type code's text is `chunk_type`; the
    /// others keep their order.
    pub fn remove_first_chunk(&mut self, chunk_type: &str) -> (r: Option<Chunk>)
        ensures
            r is None <==> !has_match(old(self)@, chunk_type.spec_bytes()),
            r is None ==> final(self)@ == old(self)@,
            r matches Some(c) ==> exists|i: int|
                is_first_match(old(self)@, chunk_type.spec_bytes(), i) && c@ == #[trigger] old(
                    self,
                )@[i] && final(self)@ == old(self)@.remove(i),
    {
        let t = chunk_type.as_bytes();
        let mut i: usize = 0;
        while i < self.chunks.len()
            invariant
                i <= self@.len(),
                self@.len() == self.chunks@.len(),
                self@ == old(self)@,
                t@ == chunk_type.spec_bytes(),
                forall|j: int| 0 <= j < i ==> #[trigger] self@[j].ty != t@,
            decreases self.chunks@.len() - i,
        {
            if Png::type_is(&self.chunks[i], t) {
                assert(is_first_match(self@, t@, i as int));
                proof {
                    use_type_invariant(&*self);
                }
                let mut v: Vec<Chunk> = Vec::new();
                std::mem::swap(&mut self.chunks, &mut v);
                let c = v.remove(i);
                let ghost rest = v@.map_values(|c: Chunk| c@);
                assert(rest =~= old(self)@.remove(i as int));
                assert forall|j: int| 0 <= j < rest.len() implies chunk_wf(#[trigger] rest[j]) by {
                    if j >= i {
                        assert(rest[j] == old(self)@[j + 1]);
                    } else {
                        assert(rest[j] == old(self)@[j]);
                    }
                }
                std::mem::swap(&mut self.chunks, &mut v);
                assert(self@ =~= old(self)@.remove(i as int));
                return Some(c);
            }
            i = i + 1;
        }
        None
    }

    /// The chunk's type code has the bytes `t`.
    fn type_is(c: &Chunk, t: &[u8]) -> (r: bool)
        ensures
            r == (c@.ty == t@),
    {
        let ty = c.chunk_type().bytes();
        if t.len() != 4 {
            return false;
        }
        let mut i: usize = 0;
        while i < 4
            invariant
                i <= 4,
                t@.len() == 4,
                ty@ == c@.ty,
                forall|j: int| 0 <= j < i ==> ty@[j] == t@[j],
            decreases 4 - i,
        {
            if ty[i] != t[i] {
                return false;
            }
            i = i + 1;
        }
        assert(ty@ =~= t@);
        true
    }

    /// The chunks, in order.
    pub fn chunks(&self) -> (r: &[Chunk])
        ensures
            r@.map_values(|c: Chunk| c@) == self@,
            all_wf(self@),
    {
        proof {
            use_type_invariant(self);
        }
        self.chunks.as_slice()
    }

    /// The signature followed by each chunk's wire form, in order.
    pub fn as_bytes(&self) -> (r: Vec<u8>)
        ensures
            r@ == serialize_png(self@),
            all_wf(self@),
    {
        proof {
            use_type_invariant(self);
        }
        let header = Png::standard_header();
        let mut out: Vec<u8> = Vec::new();
        let mut k: usize = 0;
        while k < 8
            invariant
                k <= 8,
                header@ == png_signature(),
                out@ == header@.subrange(0, k as int),
            decreases 8 - k,
        {
            out.push(header[k]);
            assert(header@.subrange(0, k + 1) =~= header@.subrange(0, k as int).push(header@[k as int]));
            k = k + 1;
        }
        assert(self@.take(0) =~= Seq::<ChunkModel>::empty());
        assert(out@ =~= png_signature() + encode_chunks(self@.take(0)));
        let mut i: usize = 0;
        while i < self.chunks.len()
            invariant
                i <= self@.len(),
                self@.len() == self.chunks@.len(),
                out@ == png_signature() + encode_chunks(self@.take(i as int)),
            decreases self.chunks@.len() - i,
        {
            let mut bytes = self.chunks[i].as_bytes();
            proof {
                assert(self@.take(i + 1) =~= self@.take(i as int).push(self@[i as int]));
                lemma_encode_chunks_push(self@.take(i as int), self@[i as int]);
            }
            out.append(&mut bytes);
            i = i + 1;
        }
        assert(self@.take(i as int) =~= self@);
        out
    }
}

} // verus!
