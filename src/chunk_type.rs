use vstd::prelude::*;
use vstd::string::StringSliceAdditionalSpecFns;
use vstd::utf8::{decode_utf8, encode_utf8, is_ascii_chars};
use crate::text::string_from_utf8;

verus! {

/// An ASCII letter, `A`..=`Z` or `a`..=`z`.
pub open spec fn is_alpha(b: u8) -> bool {
    (65 <= b <= 90) || (97 <= b <= 122)
}

/// Four bytes, each an ASCII letter.
pub open spec fn is_type_code(s: Seq<u8>) -> bool {
    s.len() == 4 && forall|i: int| 0 <= i < 4 ==> is_alpha(#[trigger] s[i])
}

/// The first byte of a four-byte code that is not an ASCII letter, if any.
pub open spec fn first_non_alpha(s: Seq<u8>) -> Option<u8>
    recommends
        s.len() == 4,
{
    if !is_alpha(s[0]) {
        Some(s[0])
    } else if !is_alpha(s[1]) {
        Some(s[1])
    } else if !is_alpha(s[2]) {
        Some(s[2])
    } else if !is_alpha(s[3]) {
        Some(s[3])
    } else {
        None
    }
}

/// Bit 5 (0x20) of `b` is clear.
pub open spec fn bit5_clear(b: u8) -> bool {
    b & 0x20 == 0
}

/// The text form of a type code: each byte read as a character.
pub open spec fn code_text(s: Seq<u8>) -> Seq<char> {
    s.map_values(|b: u8| b as char)
}

/// A four-byte code has no offending byte exactly when it is made of ASCII letters.
pub proof fn lemma_first_non_alpha(s: Seq<u8>)
    requires
        s.len() == 4,
    ensures
        first_non_alpha(s) is None <==> is_type_code(s),
{
    if first_non_alpha(s) is None {
        assert forall|i: int| 0 <= i < 4 implies is_alpha(#[trigger] s[i]) by {
            if i == 0 {
            } else if i == 1 {
            } else if i == 2 {
            } else {
            }
        }
    }
}

/// Why a type code could not be built.
#[derive(Debug, PartialEq, Eq, Structural, Clone, Copy)]
pub enum ChunkTypeError {
    /// A byte that is not an ASCII letter.
    InvalidByteRange(u8),
    /// Text whose UTF-8 form is not four bytes long; holds that length.
    InvalidLength(usize),
    /// Text holding a byte that is not an ASCII letter.
    InvalidCharacter(u8),
}

/// A four-byte chunk type tag made of ASCII letters.
#[derive(Debug, Clone, Copy, PartialEq, Eq)]
pub struct ChunkType {
    body: [u8; 4],
}

impl View for ChunkType {
    type V = Seq<u8>;

    closed spec fn view(&self) -> Seq<u8> {
        self.body@
    }
}

impl std::convert::TryFrom<[u8; 4]> for ChunkType {
    type Error = ChunkTypeError;

    fn try_from(bytes: [u8; 4]) -> Result<ChunkType, ChunkTypeError> {
        ChunkType::from_bytes(bytes)
    }
}

/// The trait conversion states nothing of its own; the inherent `from_bytes`
/// that it calls carries the contract.
impl vstd::std_specs::convert::TryFromSpecImpl<[u8; 4]> for ChunkType {
    open spec fn obeys_try_from_spec() -> bool {
        false
    }

    open spec fn try_from_spec(bytes: [u8; 4]) -> Result<ChunkType, ChunkTypeError> {
        arbitrary()
    }
}

impl std::str::FromStr for ChunkType {
    type Err = ChunkTypeError;

    fn from_str(s: &str) -> Result<ChunkType, ChunkTypeError> {
        ChunkType::from_text(s)
    }
}

impl ChunkType {
    #[verifier::type_invariant]
    spec fn inv(self) -> bool {
        is_type_code(self.body@)
    }

    /// Builds a type code from four raw bytes.
    pub fn from_bytes(bytes: [u8; 4]) -> (r: Result<ChunkType, ChunkTypeError>)
        ensures
            first_non_alpha(bytes@) is None ==> (r matches Ok(t) && t@ == bytes@),
            first_non_alpha(bytes@) matches Some(b) ==> r == Err::<ChunkType, ChunkTypeError>(
                ChunkTypeError::InvalidByteRange(b),
            ),
    {
        let mut i: usize = 0;
        while i < 4
            invariant
                i <= 4,
                forall|j: int| 0 <= j < i ==> is_alpha(#[trigger] bytes@[j]),
            decreases 4 - i,
        {
            if !ChunkType::is_valid_byte(bytes[i]) {
                return Err(ChunkTypeError::InvalidByteRange(bytes[i]));
            }
            i = i + 1;
        }
        proof {
            lemma_first_non_alpha(bytes@);
        }
        Ok(ChunkType { body: bytes })
    }

    /// Builds a type code from its four-letter text form.
    pub fn from_text(s: &str) -> (r: Result<ChunkType, ChunkTypeError>)
        ensures
            s.spec_bytes().len() != 4 ==> r == Err::<ChunkType, ChunkTypeError>(
                ChunkTypeError::InvalidLength(s.spec_bytes().len() as usize),
            ),
            s.spec_bytes().len() == 4 && first_non_alpha(s.spec_bytes()) is None ==> (r matches Ok(
                t,
            ) && t@ == s.spec_bytes()),
            s.spec_bytes().len() == 4 ==> (first_non_alpha(s.spec_bytes()) matches Some(b)
                ==> r == Err::<ChunkType, ChunkTypeError>(ChunkTypeError::InvalidCharacter(b))),
    {
        let b = s.as_bytes();
        if b.len() != 4 {
            return Err(ChunkTypeError::InvalidLength(b.len()));
        }
        let mut i: usize = 0;
        while i < 4
            invariant
                i <= 4,
                b@.len() == 4,
                b@ == s.spec_bytes(),
                forall|j: int| 0 <= j < i ==> is_alpha(#[trigger] b@[j]),
            decreases 4 - i,
        {
            if !ChunkType::is_valid_byte(b[i]) {
                return Err(ChunkTypeError::InvalidCharacter(b[i]));
            }
            i = i + 1;
        }
        let body: [u8; 4] = [b[0], b[1], b[2], b[3]];
        assert(body@ =~= b@);
        proof {
            lemma_first_non_alpha(b@);
        }
        Ok(ChunkType { body })
    }

    /// The four bytes of the code.
    pub fn bytes(&self) -> (r: [u8; 4])
        ensures
            r@ == self@,
            is_type_code(self@),
    {
        proof {
            use_type_invariant(self);
        }
        self.body
    }

    /// Byte 0 has bit 5 clear.
    pub fn is_critical(&self) -> (r: bool)
        ensures
            r == bit5_clear(self@[0]),
    {
        self.body[0] & 0x20 == 0
    }

    /// Byte 1 has bit 5 clear.
    pub fn is_public(&self) -> (r: bool)
        ensures
            r == bit5_clear(self@[1]),
    {
        self.body[1] & 0x20 == 0
    }

    /// Byte 2 has bit 5 clear.
    pub fn is_reserved_bit_valid(&self) -> (r: bool)
        ensures
            r == bit5_clear(self@[2]),
    {
        self.body[2] & 0x20 == 0
    }

    /// Byte 3 has bit 5 set.
    pub fn is_safe_to_copy(&self) -> (r: bool)
        ensures
            r == !bit5_clear(self@[3]),
    {
        self.body[3] & 0x20 != 0
    }

    /// The reserved bit is valid and all four bytes are ASCII letters.
    pub fn is_valid(&self) -> (r: bool)
        ensures
            r == (bit5_clear(self@[2]) && is_type_code(self@)),
    {
        let mut all_alpha = true;
        let mut i: usize = 0;
        while i < 4
            invariant
                i <= 4,
                all_alpha == (forall|j: int| 0 <= j < i ==> is_alpha(#[trigger] self.body@[j])),
            decreases 4 - i,
        {
            if !ChunkType::is_valid_byte(self.body[i]) {
                all_alpha = false;
            }
            i = i + 1;
        }
        self.is_reserved_bit_valid() && all_alpha
    }

    /// The four-letter text form of the code.
    pub fn to_string(&self) -> (r: String)
        ensures
            r@ == code_text(self@),
    {
        proof {
            use_type_invariant(self);
        }
        let v: Vec<u8> = vec![self.body[0], self.body[1], self.body[2], self.body[3]];
        proof {
            broadcast use vstd::utf8::group_utf8_lib;

            let chars = code_text(self@);
            assert(is_ascii_chars(chars));
            assert(encode_utf8(chars) =~= v@);
            assert(decode_utf8(v@) == chars);
        }
        let r = string_from_utf8(v);
        r.unwrap()
    }

    /// An ASCII letter.
    pub fn is_valid_byte(byte: u8) -> (r: bool)
        ensures
            r == is_alpha(byte),
    {
        (65 <= byte && byte <= 90) || (97 <= byte && byte <= 122)
    }
}

} // verus!
