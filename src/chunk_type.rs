use vstd::prelude::*;
use vstd::string::StringSliceAdditionalSpecFns;
use vstd::utf8::{decode_utf8, encode_utf8, encode_utf8_decode_utf8, encode_utf8_valid_utf8, is_ascii_chars_encode_utf8, valid_utf8};
use crate::primitives::utf8_text;

verus! {

/// An ASCII letter, upper or lower case.
pub open spec fn is_alpha(b: u8) -> bool {
    (65 <= b && b <= 90) || (97 <= b && b <= 122)
}

/// An upper-case ASCII letter.
pub open spec fn is_upper(b: u8) -> bool {
    65 <= b && b <= 90
}

/// Four bytes, each an ASCII letter.
pub open spec fn valid_tag(t: Seq<u8>) -> bool {
    &&& t.len() == 4
    &&& forall|i: int| 0 <= i < 4 ==> #[trigger] is_alpha(t[i])
}

/// The characters of ASCII bytes, one for each byte.
pub open spec fn ascii_chars(t: Seq<u8>) -> Seq<char> {
    Seq::new(t.len(), |i: int| t[i] as char)
}

/// ASCII bytes are valid UTF-8, and they decode to one character per byte.
pub proof fn lemma_ascii_utf8(t: Seq<u8>)
    requires
        forall|i: int| 0 <= i < t.len() ==> #[trigger] t[i] < 128,
    ensures
        valid_utf8(t),
        decode_utf8(t) == ascii_chars(t),
{
    let chars = ascii_chars(t);
    assert(vstd::utf8::is_ascii_chars(chars));
    is_ascii_chars_encode_utf8(chars);
    assert(encode_utf8(chars) =~= t);
    encode_utf8_valid_utf8(chars);
    encode_utf8_decode_utf8(chars);
}

/// Why a tag, a chunk or a container could not be built.
#[derive(Debug, PartialEq, Eq, Structural, Clone, Copy)]
pub enum ChunkError {
    /// Too few bytes, or a declared length that runs past the end of the input.
    InvalidLength,
    /// A chunk type byte that is not an ASCII letter.
    InvalidTag,
    /// A textual chunk type that is not exactly four bytes long.
    WrongTagLength,
    /// A stored checksum that differs from the one computed over type and data.
    InvalidCrc,
    /// A container whose leading bytes are not the PNG signature.
    InvalidSignature,
    /// Chunk data that is not valid UTF-8.
    InvalidEncoding,
    /// No chunk of the requested type.
    NotFound,
}

/// The four-byte type of a chunk. Every byte is an ASCII letter.
#[derive(Debug, Clone, Copy)]
pub struct ChunkType {
    chunk_type: [u8; 4],
}

fn alpha(b: u8) -> (r: bool)
    ensures
        r == is_alpha(b),
{
    (65 <= b && b <= 90) || (97 <= b && b <= 122)
}

fn upper(b: u8) -> (r: bool)
    ensures
        r == is_upper(b),
{
    65 <= b && b <= 90
}

impl PartialEq for ChunkType {
    /// Two types are equal when their bytes are.
    fn eq(&self, other: &ChunkType) -> (r: bool) {
        let r = self.chunk_type[0] == other.chunk_type[0] && self.chunk_type[1] == other.chunk_type[1]
            && self.chunk_type[2] == other.chunk_type[2] && self.chunk_type[3]
            == other.chunk_type[3];
        proof {
            if r {
                assert(self.chunk_type@ =~= other.chunk_type@);
            }
        }
        r
    }
}

impl vstd::std_specs::cmp::PartialEqSpecImpl for ChunkType {
    open spec fn obeys_eq_spec() -> bool {
        true
    }

    open spec fn eq_spec(&self, other: &ChunkType) -> bool {
        self@ == other@
    }
}

impl Eq for ChunkType {

}

impl View for ChunkType {
    type V = Seq<u8>;

    closed spec fn view(&self) -> Seq<u8> {
        self.chunk_type@
    }
}

/// What building a chunk type from four bytes gives.
pub open spec fn from_bytes_spec(b: Seq<u8>) -> Result<Seq<u8>, ChunkError> {
    if valid_tag(b) {
        Ok(b)
    } else {
        Err(ChunkError::InvalidTag)
    }
}

/// What building a chunk type from the bytes of a text gives.
pub open spec fn from_text_spec(s: Seq<u8>) -> Result<Seq<u8>, ChunkError> {
    if s.len() != 4 {
        Err(ChunkError::WrongTagLength)
    } else {
        from_bytes_spec(s)
    }
}

/// The view of a result that may hold a chunk type.
pub open spec fn type_result_view(r: Result<ChunkType, ChunkError>) -> Result<Seq<u8>, ChunkError> {
    match r {
        Ok(t) => Ok(t@),
        Err(e) => Err(e),
    }
}

impl ChunkType {
    /// Every chunk type holds four ASCII letters.
    pub open spec fn wf(&self) -> bool {
        valid_tag(self@)
    }

    pub proof fn lemma_view_len(&self)
        ensures
            self@.len() == 4,
    {
    }

    /// Builds a chunk type from four bytes, each of which must be an ASCII letter.
    pub fn from_bytes(value: [u8; 4]) -> (r: Result<ChunkType, ChunkError>)
        ensures
            type_result_view(r) == from_bytes_spec(value@),
            r is Ok ==> r->Ok_0.wf(),
    {
        let mut i: usize = 0;
        while i < 4
            invariant
                0 <= i <= 4,
                value@.len() == 4,
                forall|j: int| 0 <= j < i ==> #[trigger] is_alpha(value@[j]),
            decreases 4 - i,
        {
            if !alpha(value[i]) {
                return Err(ChunkError::InvalidTag);
            }
            i = i + 1;
        }
        Ok(ChunkType { chunk_type: value })
    }

    /// Builds a chunk type from a text of exactly four bytes, each an ASCII letter.
    pub fn from_text(s: &str) -> (r: Result<ChunkType, ChunkError>)
        ensures
            type_result_view(r) == from_text_spec(s.spec_bytes()),
            r is Ok ==> r->Ok_0.wf(),
    {
        let bytes = s.as_bytes();
        if bytes.len() != 4 {
            return Err(ChunkError::WrongTagLength);
        }
        let array: [u8; 4] = [bytes[0], bytes[1], bytes[2], bytes[3]];
        proof {
            assert(array@ =~= bytes@);
        }
        ChunkType::from_bytes(array)
    }

    /// The type as text: one ASCII letter for each byte.
    pub fn to_string(&self) -> (r: String)
        requires
            self.wf(),
        ensures
            r@ == ascii_chars(self@),
    {
        let v: Vec<u8> = vec![self.chunk_type[0], self.chunk_type[1], self.chunk_type[2], self.chunk_type[3]];
        proof {
            assert(v@ =~= self@);
            assert(forall|i: int| 0 <= i < 4 ==> is_alpha(#[trigger] self@[i]));
            lemma_ascii_utf8(self@);
        }
        match utf8_text(v) {
            Some(s) => s,
            None => String::new(),
        }
    }

    /// The four bytes of this type.
    pub fn bytes(&self) -> (r: [u8; 4])
        ensures
            r@ == self@,
    {
        self.chunk_type
    }

    /// Critical chunks have an upper-case first byte.
    pub fn is_critical(&self) -> (r: bool)
        ensures
            r == is_upper(self@[0]),
    {
        upper(self.chunk_type[0])
    }

    /// Whether every byte is an ASCII letter.
    pub fn is_valid(&self) -> (r: bool)
        ensures
            r == valid_tag(self@),
    {
        let mut i: usize = 0;
        while i < 4
            invariant
                0 <= i <= 4,
                self@.len() == 4,
                forall|j: int| 0 <= j < i ==> #[trigger] is_alpha(self@[j]),
            decreases 4 - i,
        {
            if !alpha(self.chunk_type[i]) {
                return false;
            }
            i = i + 1;
        }
        true
    }

    /// Public chunks have an upper-case second byte.
    pub fn is_public(&self) -> (r: bool)
        ensures
            r == is_upper(self@[1]),
    {
        upper(self.chunk_type[1])
    }

    /// The reserved bit is valid when the third byte is upper case.
    pub fn is_reserved_bit_valid(&self) -> (r: bool)
        ensures
            r == is_upper(self@[2]),
    {
        upper(self.chunk_type[2])
    }

    /// Chunks are safe to copy when the fourth byte is not upper case.
    pub fn is_safe_to_copy(&self) -> (r: bool)
        ensures
            r == !is_upper(self@[3]),
    {
        !upper(self.chunk_type[3])
    }
}

impl TryFrom<[u8; 4]> for ChunkType {
    type Error = ChunkError;

    fn try_from(value: [u8; 4]) -> (r: Result<ChunkType, ChunkError>)
        ensures
            type_result_view(r) == from_bytes_spec(value@),
            r is Ok ==> r->Ok_0.wf(),
    {
        let r = ChunkType::from_bytes(value);
        proof {
            if let Ok(t) = r {
                broadcast use vstd::array::axiom_array_ext_equal;
                assert(t.chunk_type =~= value);
            }
        }
        r
    }
}

impl vstd::std_specs::convert::TryFromSpecImpl<[u8; 4]> for ChunkType {
    open spec fn obeys_try_from_spec() -> bool {
        true
    }

    closed spec fn try_from_spec(value: [u8; 4]) -> Result<ChunkType, ChunkError> {
        if valid_tag(value@) {
            Ok(ChunkType { chunk_type: value })
        } else {
            Err(ChunkError::InvalidTag)
        }
    }
}

impl core::str::FromStr for ChunkType {
    type Err = ChunkError;

    fn from_str(s: &str) -> (r: Result<ChunkType, ChunkError>)
        ensures
            type_result_view(r) == from_text_spec(s.spec_bytes()),
            r is Ok ==> r->Ok_0.wf(),
    {
        ChunkType::from_text(s)
    }
}

} // verus!
