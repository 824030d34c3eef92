use vstd::prelude::*;
use vstd::utf8::{decode_utf8, valid_utf8};

use crate::chunk_type::{first_non_alpha, is_type_code, lemma_first_non_alpha, ChunkType, ChunkTypeError};
use crate::crc::{crc32, crc32_of};
use crate::text::{decimal_of, decimal_string, string_from_utf8};
use crate::chunk_type::code_text;
use vstd::string::StringExecFns;

verus! {

/// The four big-endian bytes of `x`.
pub open spec fn u32_be(x: u32) -> Seq<u8> {
    seq![(x >> 24) as u8, (x >> 16) as u8, (x >> 8) as u8, x as u8]
}

/// The integer held by four big-endian bytes.
pub open spec fn be_u32(s: Seq<u8>) -> u32
    recommends
        s.len() == 4,
{
    ((s[0] as u32) << 24) | ((s[1] as u32) << 16) | ((s[2] as u32) << 8) | (s[3] as u32)
}

/// Reading the bytes of an integer gives the integer back.
pub proof fn lemma_be_u32_of_bytes(x: u32)
    ensures
        be_u32(u32_be(x)) == x,
{
    assert((((x >> 24) as u8 as u32) << 24) | (((x >> 16) as u8 as u32) << 16) | (((x
        >> 8) as u8 as u32) << 8) | (x as u8 as u32) == x) by (bit_vector);
}

/// Four bytes are the bytes of the integer they hold.
pub proof fn lemma_bytes_of_be_u32(s: Seq<u8>)
    requires
        s.len() == 4,
    ensures
        u32_be(be_u32(s)) == s,
{
    let (a, b, c, d) = (s[0], s[1], s[2], s[3]);
    let x = ((a as u32) << 24) | ((b as u32) << 16) | ((c as u32) << 8) | (d as u32);
    assert((x >> 24) as u8 == a && (x >> 16) as u8 == b && (x >> 8) as u8 == c && x as u8 == d)
        by (bit_vector)
        requires
            x == ((a as u32) << 24) | ((b as u32) << 16) | ((c as u32) << 8) | (d as u32),
    ;
    assert(u32_be(be_u32(s)) =~= s);
}

/// What a chunk holds: declared length, type code, payload and checksum.
pub struct ChunkModel {
    pub length: u32,
    pub ty: Seq<u8>,
    pub data: Seq<u8>,
    pub crc: u32,
}

/// A well-formed chunk: a valid type code, a length that is the payload's, and the
/// checksum of type code and payload.
pub open spec fn chunk_wf(m: ChunkModel) -> bool {
    &&& is_type_code(m.ty)
    &&& m.length == m.data.len()
    &&& m.crc == crc32_of(m.ty + m.data)
}

/// The chunk built from a type code and a payload.
pub open spec fn new_model(ty: Seq<u8>, data: Seq<u8>) -> ChunkModel {
    ChunkModel { length: data.len() as u32, ty, data, crc: crc32_of(ty + data) }
}

/// Wire form: length, type code, payload, checksum.
pub open spec fn encode_chunk(m: ChunkModel) -> Seq<u8> {
    u32_be(m.length) + m.ty + m.data + u32_be(m.crc)
}

/// The payload length declared by the first four bytes.
pub open spec fn declared_len(b: Seq<u8>) -> u32 {
    be_u32(b.subrange(0, 4))
}

/// Reading one chunk from the front of `b`; bytes past it are left alone.
#[verifier::opaque]
pub open spec fn decode_chunk(b: Seq<u8>) -> Result<ChunkModel, ChunkError> {
    if b.len() < 12 {
        Err(ChunkError::DataLength(b.len() as usize))
    } else {
        let len = declared_len(b);
        if b.len() < 12 + len {
            Err(ChunkError::Truncated(len, (b.len() - 8) as usize))
        } else {
            let ty = b.subrange(4, 8);
            match first_non_alpha(ty) {
                Some(x) => Err(ChunkError::InvalidType(ChunkTypeError::InvalidByteRange(x))),
                None => {
                    let data = b.subrange(8, 8 + len);
                    let stored = be_u32(b.subrange(8 + len, 12 + len));
                    let computed = crc32_of(ty + data);
                    if stored != computed {
                        Err(ChunkError::CRCMismatch(stored, computed))
                    } else {
                        Ok(ChunkModel { length: len, ty, data, crc: stored })
                    }
                },
            }
        }
    }
}

/// A well-formed chunk's wire form starts with its length and type code, and
/// every part of it is where the layout puts it.
proof fn lemma_encode_parts(m: ChunkModel)
    requires
        chunk_wf(m),
    ensures
        ({
            let e = encode_chunk(m);
            let len = m.length as int;
            &&& e.len() == 12 + len
            &&& e.subrange(0, 4) == u32_be(m.length)
            &&& e.subrange(4, 8) == m.ty
            &&& e.subrange(8, 8 + len) == m.data
            &&& e.subrange(8 + len, 12 + len) == u32_be(m.crc)
        }),
{
    let e = encode_chunk(m);
    let len = m.length as int;
    assert(e.subrange(0, 4) =~= u32_be(m.length));
    assert(e.subrange(4, 8) =~= m.ty);
    assert(e.subrange(8, 8 + len) =~= m.data);
    assert(e.subrange(8 + len, 12 + len) =~= u32_be(m.crc));
}

/// Decoding the wire form of a well-formed chunk gives the chunk back.
pub proof fn lemma_decode_encode(m: ChunkModel)
    requires
        chunk_wf(m),
    ensures
        decode_chunk(encode_chunk(m)) == Ok::<ChunkModel, ChunkError>(m),
{
    lemma_decode_encode_then(m, Seq::empty());
    assert(encode_chunk(m) + Seq::<u8>::empty() =~= encode_chunk(m));
}

/// Decoding stops at the end of a well-formed chunk's wire form, whatever follows.
pub proof fn lemma_decode_encode_then(m: ChunkModel, rest: Seq<u8>)
    requires
        chunk_wf(m),
    ensures
        decode_chunk(encode_chunk(m) + rest) == Ok::<ChunkModel, ChunkError>(m),
{
    reveal(decode_chunk);
    let e = encode_chunk(m);
    let b = e + rest;
    let len = m.length as int;
    lemma_encode_parts(m);
    assert(b.subrange(0, 4) =~= e.subrange(0, 4));
    assert(b.subrange(4, 8) =~= e.subrange(4, 8));
    assert(b.subrange(8, 8 + len) =~= e.subrange(8, 8 + len));
    assert(b.subrange(8 + len, 12 + len) =~= e.subrange(8 + len, 12 + len));
    lemma_be_u32_of_bytes(m.length);
    lemma_be_u32_of_bytes(m.crc);
    lemma_first_non_alpha(m.ty);
}

/// A chunk built from any type code and any payload that fits the length field
/// decodes, from its wire form, to itself: same length, type, payload and checksum.
pub proof fn lemma_chunk_round_trip(ty: Seq<u8>, data: Seq<u8>)
    requires
        is_type_code(ty),
        data.len() <= u32::MAX,
    ensures
        chunk_wf(new_model(ty, data)),
        decode_chunk(encode_chunk(new_model(ty, data))) == Ok::<ChunkModel, ChunkError>(
            new_model(ty, data),
        ),
{
    lemma_decode_encode(new_model(ty, data));
}

/// Reading the wire form a chunk was decoded from: it is the first `12 + length`
/// bytes of the input.
pub proof fn lemma_encode_decode(b: Seq<u8>)
    requires
        decode_chunk(b) is Ok,
    ensures
        ({
            let m = decode_chunk(b)->Ok_0;
            &&& chunk_wf(m)
            &&& 12 + m.length <= b.len()
            &&& encode_chunk(m) == b.subrange(0, 12 + m.length)
        }),
{
    reveal(decode_chunk);
    let m = decode_chunk(b)->Ok_0;
    let len = m.length as int;
    lemma_first_non_alpha(b.subrange(4, 8));
    lemma_bytes_of_be_u32(b.subrange(0, 4));
    lemma_bytes_of_be_u32(b.subrange(8 + len, 12 + len));
    assert(encode_chunk(m) =~= b.subrange(0, 12 + len));
}

/// Flipping any bit of the four checksum bytes at the end of a well-formed
/// chunk's wire form makes decoding fail with a checksum mismatch.
pub proof fn lemma_checksum_flip_rejected(m: ChunkModel, i: int, bit: u8)
    requires
        chunk_wf(m),
        0 <= i < 4,
        bit < 8,
    ensures
        ({
            let e = encode_chunk(m);
            let at = e.len() - 4 + i;
            let f = e.update(at, e[at] ^ (1u8 << bit));
            decode_chunk(f) matches Err(ChunkError::CRCMismatch(found, expected)) && expected
                == m.crc && found != m.crc
        }),
{
    reveal(decode_chunk);
    let e = encode_chunk(m);
    let len = m.length as int;
    let at = e.len() - 4 + i;
    let x = e[at];
    let f = e.update(at, x ^ (1u8 << bit));
    lemma_encode_parts(m);
    lemma_first_non_alpha(m.ty);
    assert(f.subrange(0, 4) =~= e.subrange(0, 4));
    assert(f.subrange(4, 8) =~= e.subrange(4, 8));
    assert(f.subrange(8, 8 + len) =~= e.subrange(8, 8 + len));
    lemma_be_u32_of_bytes(m.length);
    let tail = f.subrange(8 + len, 12 + len);
    assert((x ^ (1u8 << bit)) != x) by (bit_vector)
        requires
            bit < 8,
    ;
    lemma_bytes_of_be_u32(tail);
    if be_u32(tail) == m.crc {
        assert(tail[i] != e.subrange(8 + len, 12 + len)[i]);
    }
}

/// The human-readable block that describes a chunk.
pub open spec fn render_chunk(m: ChunkModel) -> Seq<char> {
    let text = if valid_utf8(m.data) {
        decode_utf8(m.data)
    } else {
        "INVALID_UTF8_STRING"@
    };
    "{\n"@ + " [Data Length]: "@ + decimal_of(m.length as nat) + "\n"@ + " [Chunk Type]: "@
        + code_text(m.ty) + "\n"@ + " [Data]: "@ + text + "\n"@ + " [CRC32-ISO-HDLC]: "@
        + decimal_of(m.crc as nat) + "\n"@ + "}\n"@
}

/// Why a chunk could not be read.
#[derive(Debug, PartialEq, Eq, Structural, Clone, Copy)]
pub enum ChunkError {
    /// Fewer than the twelve bytes of an empty chunk; holds the number given.
    DataLength(usize),
    /// The type code is not four ASCII letters.
    InvalidType(ChunkTypeError),
    /// Fewer bytes after the type code than the declared payload and checksum
    /// need; holds the declared length and the bytes there were.
    Truncated(u32, usize),
    /// The checksum does not match; holds the stored value, then the one computed
    /// over type code and payload.
    CRCMismatch(u32, u32),
}

/// A typed, checksummed record.
#[derive(Debug, PartialEq, Eq)]
pub struct Chunk {
    length: u32,
    chunk_type: ChunkType,
    data: Vec<u8>,
    crc: u32,
}

impl View for Chunk {
    type V = ChunkModel;

    closed spec fn view(&self) -> ChunkModel {
        ChunkModel {
            length: self.length,
            ty: self.chunk_type@,
            data: self.data@,
            crc: self.crc,
        }
    }
}

/// Big-endian integer from `b[at..at + 4]`.
fn read_be_u32(b: &[u8], at: usize) -> (r: u32)
    requires
        at + 4 <= b@.len(),
    ensures
        r == be_u32(b@.subrange(at as int, at + 4)),
{
    let s = Ghost(b@.subrange(at as int, at + 4));
    assert(s@[0] == b@[at as int] && s@[1] == b@[at + 1] && s@[2] == b@[at + 2] && s@[3] == b@[at
        + 3]);
    ((b[at] as u32) << 24) | ((b[at + 1] as u32) << 16) | ((b[at + 2] as u32) << 8) | (b[at
        + 3] as u32)
}

/// Appends the big-endian bytes of `x`.
fn push_be_u32(out: &mut Vec<u8>, x: u32)
    ensures
        final(out)@ == old(out)@ + u32_be(x),
{
    out.push((x >> 24) as u8);
    out.push((x >> 16) as u8);
    out.push((x >> 8) as u8);
    out.push(x as u8);
    assert(final(out)@ =~= old(out)@ + u32_be(x));
}

/// Appends `b[from..to]`.
fn push_range(out: &mut Vec<u8>, b: &[u8], from: usize, to: usize)
    requires
        from <= to <= b@.len(),
    ensures
        final(out)@ == old(out)@ + b@.subrange(from as int, to as int),
{
    let mut i: usize = from;
    while i < to
        invariant
            from <= i <= to <= b@.len(),
            out@ == old(out)@ + b@.subrange(from as int, i as int),
        decreases to - i,
    {
        out.push(b[i]);
        assert(b@.subrange(from as int, i + 1) =~= b@.subrange(from as int, i as int).push(b@[i as int]));
        i = i + 1;
    }
}

/// Reads one chunk from `bytes[start..]`, consuming its first `12 + length` bytes.
pub fn decode_at(bytes: &[u8], start: usize) -> (r: Result<Chunk, ChunkError>)
    requires
        start <= bytes@.len(),
    ensures
        ({
            let b = bytes@.subrange(start as int, bytes@.len() as int);
            match decode_chunk(b) {
                Ok(m) => r matches Ok(c) && c@ == m && chunk_wf(m),
                Err(e) => r == Err::<Chunk, ChunkError>(e),
            }
        }),
{
    reveal(decode_chunk);
    let ghost b = bytes@.subrange(start as int, bytes@.len() as int);
    let n = bytes.len() - start;
    if n < 12 {
        return Err(ChunkError::DataLength(n));
    }
    let length = read_be_u32(bytes, start);
    assert(b.subrange(0, 4) =~= bytes@.subrange(start as int, start + 4));
    if n - 12 < length as usize {
        return Err(ChunkError::Truncated(length, n - 8));
    }
    let ty_bytes: [u8; 4] = [bytes[start + 4], bytes[start + 5], bytes[start + 6], bytes[start + 7]];
    assert(ty_bytes@ =~= b.subrange(4, 8));
    let chunk_type = match ChunkType::from_bytes(ty_bytes) {
        Ok(t) => t,
        Err(e) => {
            return Err(ChunkError::InvalidType(e));
        },
    };
    let len = length as usize;
    let mut data: Vec<u8> = Vec::new();
    push_range(&mut data, bytes, start + 8, start + 8 + len);
    assert(data@ =~= b.subrange(8, 8 + len));
    let stored = read_be_u32(bytes, start + 8 + len);
    assert(b.subrange(8 + len, 12 + len) =~= bytes@.subrange(start + 8 + len, start + 12 + len));
    let mut stream: Vec<u8> = Vec::new();
    push_range(&mut stream, bytes, start + 4, start + 8 + len);
    assert(stream@ =~= b.subrange(4, 8) + b.subrange(8, 8 + len));
    let computed = crc32(stream.as_slice());
    if stored != computed {
        return Err(ChunkError::CRCMismatch(stored, computed));
    }
    proof {
        lemma_first_non_alpha(b.subrange(4, 8));
    }
    Ok(Chunk { length, chunk_type, data, crc: stored })
}

impl<'a> std::convert::TryFrom<&'a [u8]> for Chunk {
    type Error = ChunkError;

    fn try_from(data: &'a [u8]) -> Result<Chunk, ChunkError> {
        Chunk::from_bytes(data)
    }
}

/// The trait conversion states nothing of its own; the inherent `from_bytes`
/// that it calls carries the contract.
impl<'a> vstd::std_specs::convert::TryFromSpecImpl<&'a [u8]> for Chunk {
    open spec fn obeys_try_from_spec() -> bool {
        false
    }

    open spec fn try_from_spec(data: &'a [u8]) -> Result<Chunk, ChunkError> {
        arbitrary()
    }
}

impl Chunk {
    #[verifier::type_invariant]
    spec fn inv(self) -> bool {
        chunk_wf(self@)
    }

    /// Builds a chunk, computing its length and checksum.
    pub fn new(chunk_type: ChunkType, data: Vec<u8>) -> (r: Chunk)
        requires
            data@.len() <= u32::MAX,
        ensures
            r@ == new_model(chunk_type@, data@),
            chunk_wf(r@),
    {
        let ty = chunk_type.bytes();
        let mut stream: Vec<u8> = Vec::new();
        push_range(&mut stream, &ty, 0, 4);
        push_range(&mut stream, data.as_slice(), 0, data.len());
        assert(stream@ =~= chunk_type@ + data@);
        let crc = crc32(stream.as_slice());
        Chunk { length: data.len() as u32, chunk_type, data, crc }
    }

    /// Reads a chunk from the front of `data`.
    pub fn from_bytes(data: &[u8]) -> (r: Result<Chunk, ChunkError>)
        ensures
            match decode_chunk(data@) {
                Ok(m) => r matches Ok(c) && c@ == m && chunk_wf(m),
                Err(e) => r == Err::<Chunk, ChunkError>(e),
            },
    {
        let r = decode_at(data, 0);
        assert(data@.subrange(0, data@.len() as int) =~= data@);
        r
    }

    /// The declared payload length.
    pub fn length(&self) -> (r: u32)
        ensures
            r == self@.length,
            chunk_wf(self@),
    {
        proof {
            use_type_invariant(self);
        }
        self.length
    }

    /// The type code.
    pub fn chunk_type(&self) -> (r: &ChunkType)
        ensures
            r@ == self@.ty,
    {
        &self.chunk_type
    }

    /// The payload.
    pub fn data(&self) -> (r: &[u8])
        ensures
            r@ == self@.data,
    {
        self.data.as_slice()
    }

    /// The payload read as UTF-8 text.
    pub fn data_as_string(&self) -> (r: Result<String, std::string::FromUtf8Error>)
        ensures
            r is Ok <==> valid_utf8(self@.data),
            r matches Ok(s) ==> s@ == decode_utf8(self@.data),
    {
        let mut copy: Vec<u8> = Vec::new();
        push_range(&mut copy, self.data.as_slice(), 0, self.data.len());
        assert(copy@ =~= self@.data);
        string_from_utf8(copy)
    }

    /// The checksum.
    pub fn crc(&self) -> (r: u32)
        ensures
            r == self@.crc,
    {
        self.crc
    }

    /// A human-readable block: length, type code, payload as text (or a marker
    /// when it is not UTF-8) and checksum.
    pub fn to_string(&self) -> (r: String)
        ensures
            r@ == render_chunk(self@),
    {
        let mut r = String::new();
        r.append("{\n");
        r.append(" [Data Length]: ");
        r.append(decimal_string(self.length).as_str());
        r.append("\n");
        r.append(" [Chunk Type]: ");
        r.append(self.chunk_type.to_string().as_str());
        r.append("\n");
        r.append(" [Data]: ");
        match self.data_as_string() {
            Ok(text) => r.append(text.as_str()),
            Err(_) => r.append("INVALID_UTF8_STRING"),
        }
        r.append("\n");
        r.append(" [CRC32-ISO-HDLC]: ");
        r.append(decimal_string(self.crc).as_str());
        r.append("\n");
        r.append("}\n");
        assert(r@ =~= render_chunk(self@));
        r
    }

    /// The wire form of the chunk.
    pub fn as_bytes(&self) -> (r: Vec<u8>)
        ensures
            r@ == encode_chunk(self@),
    {
        let mut out: Vec<u8> = Vec::new();
        push_be_u32(&mut out, self.length);
        let ty = self.chunk_type.bytes();
        push_range(&mut out, &ty, 0, 4);
        push_range(&mut out, self.data.as_slice(), 0, self.data.len());
        push_be_u32(&mut out, self.crc);
        assert(out@ =~= encode_chunk(self@));
        out
    }
}

} // verus!
