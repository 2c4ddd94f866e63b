use vstd::prelude::*;
use vstd::slice::{slice_subrange, slice_to_vec};
use vstd::utf8::{decode_utf8, valid_utf8};
use vstd::string::StringExecFns;
pub use crate::chunk_type::ChunkError;
use crate::chunk_type::{ChunkType, ascii_chars, lemma_ascii_utf8, valid_tag};
use crate::primitives::{crc32, crc32_of, utf8_text};

verus! {

/// The four big-endian bytes of a 32-bit value.
pub open spec fn be_bytes(x: u32) -> Seq<u8> {
    seq![(x >> 24u32) as u8, (x >> 16u32) as u8, (x >> 8u32) as u8, x as u8]
}

/// The 32-bit value whose big-endian bytes are `b0 b1 b2 b3`.
pub open spec fn be_value(b0: u8, b1: u8, b2: u8, b3: u8) -> u32 {
    ((b0 as u32) << 24u32) | ((b1 as u32) << 16u32) | ((b2 as u32) << 8u32) | (b3 as u32)
}

pub proof fn lemma_be_round_trip(x: u32)
    ensures
        be_value(be_bytes(x)[0], be_bytes(x)[1], be_bytes(x)[2], be_bytes(x)[3]) == x,
{
    let b0 = (x >> 24u32) as u8;
    let b1 = (x >> 16u32) as u8;
    let b2 = (x >> 8u32) as u8;
    let b3 = x as u8;
    assert(((b0 as u32) << 24u32) | ((b1 as u32) << 16u32) | ((b2 as u32) << 8u32) | (b3 as u32)
        == x) by (bit_vector)
        requires
            b0 == (x >> 24u32) as u8,
            b1 == (x >> 16u32) as u8,
            b2 == (x >> 8u32) as u8,
            b3 == x as u8,
    ;
}

/// The decimal digits of `n`, as ASCII bytes, without leading zeros.
pub open spec fn decimal(n: nat) -> Seq<u8>
    decreases n,
{
    if n < 10 {
        seq![(48 + n) as u8]
    } else {
        decimal(n / 10).push((48 + n % 10) as u8)
    }
}

/// A short description of a chunk: its length, type and checksum, not its data.
pub open spec fn chunk_summary(m: ChunkModel) -> Seq<char> {
    "Chunk { length: "@ + ascii_chars(decimal(m.length as nat)) + ", chunk_type: "@ + ascii_chars(
        m.chunk_type,
    ) + ", crc: "@ + ascii_chars(decimal(m.crc as nat)) + " }"@
}

fn push_decimal(v: &mut Vec<u8>, n: u32)
    ensures
        final(v)@ == old(v)@ + decimal(n as nat),
    decreases n,
{
    if n >= 10 {
        push_decimal(v, n / 10);
    }
    v.push((48 + n % 10) as u8);
    proof {
        assert(final(v)@ =~= old(v)@ + decimal(n as nat));
    }
}

proof fn lemma_decimal_ascii(n: nat)
    ensures
        forall|i: int| 0 <= i < decimal(n).len() ==> #[trigger] decimal(n)[i] < 128,
    decreases n,
{
    if n >= 10 {
        lemma_decimal_ascii(n / 10);
        assert forall|i: int| 0 <= i < decimal(n).len() implies #[trigger] decimal(n)[i] < 128 by {
            if i < decimal(n / 10).len() {
                assert(decimal(n)[i] == decimal(n / 10)[i]);
            }
        }
    }
}

fn decimal_text(n: u32) -> (r: String)
    ensures
        r@ == ascii_chars(decimal(n as nat)),
{
    let mut v: Vec<u8> = Vec::new();
    push_decimal(&mut v, n);
    proof {
        assert(v@ =~= decimal(n as nat));
        lemma_decimal_ascii(n as nat);
        lemma_ascii_utf8(v@);
    }
    match utf8_text(v) {
        Some(s) => s,
        None => String::new(),
    }
}

proof fn lemma_be_bytes_of_value(b0: u8, b1: u8, b2: u8, b3: u8)
    ensures
        be_bytes(be_value(b0, b1, b2, b3)) == seq![b0, b1, b2, b3],
{
    let x = be_value(b0, b1, b2, b3);
    assert((x >> 24u32) as u8 == b0 && (x >> 16u32) as u8 == b1 && (x >> 8u32) as u8 == b2
        && x as u8 == b3) by (bit_vector)
        requires
            x == ((b0 as u32) << 24u32) | ((b1 as u32) << 16u32) | ((b2 as u32) << 8u32) | (
            b3 as u32),
    ;
    assert(be_bytes(x) =~= seq![b0, b1, b2, b3]);
}

/// A chunk as plain values: its declared length, type bytes, data and checksum.
pub struct ChunkModel {
    pub length: u32,
    pub chunk_type: Seq<u8>,
    pub data: Seq<u8>,
    pub crc: u32,
}

/// A chunk whose length is its data's, whose type is four letters and whose
/// checksum is the CRC-32 of its type followed by its data.
pub open spec fn chunk_wf(m: ChunkModel) -> bool {
    &&& m.length == m.data.len()
    &&& valid_tag(m.chunk_type)
    &&& m.crc == crc32_of(m.chunk_type + m.data)
}

/// The bytes of a chunk: length, type, data and checksum.
pub open spec fn encode_chunk(m: ChunkModel) -> Seq<u8> {
    be_bytes(m.length) + m.chunk_type + m.data + be_bytes(m.crc)
}

/// The declared data length at the start of a chunk's bytes.
pub open spec fn declared_length(b: Seq<u8>) -> u32
    recommends
        b.len() >= 4,
{
    be_value(b[0], b[1], b[2], b[3])
}

/// What decoding a chunk from the start of `b` gives; bytes after it are ignored.
#[verifier::opaque]
pub open spec fn decode_chunk(b: Seq<u8>) -> Result<ChunkModel, ChunkError> {
    if b.len() < 12 {
        Err(ChunkError::InvalidLength)
    } else if !valid_tag(b.subrange(4, 8)) {
        Err(ChunkError::InvalidTag)
    } else if 12 + declared_length(b) > b.len() {
        Err(ChunkError::InvalidLength)
    } else {
        let n = declared_length(b) as int;
        let tag = b.subrange(4, 8);
        let data = b.subrange(8, 8 + n);
        let crc = be_value(b[8 + n], b[9 + n], b[10 + n], b[11 + n]);
        if crc != crc32_of(tag + data) {
            Err(ChunkError::InvalidCrc)
        } else {
            Ok(ChunkModel { length: n as u32, chunk_type: tag, data, crc })
        }
    }
}

/// Decoding the bytes of a well-formed chunk gives that chunk back; every
/// chunk that decoding yields is well formed.
pub proof fn lemma_chunk_round_trip(m: ChunkModel)
    requires
        chunk_wf(m),
    ensures
        decode_chunk(encode_chunk(m)) == Ok::<ChunkModel, ChunkError>(m),
{
    lemma_chunk_decode_prefix(m, Seq::empty());
    assert(encode_chunk(m) + Seq::<u8>::empty() =~= encode_chunk(m));
}

/// A well-formed chunk decodes from the front of its bytes, whatever follows them.
pub proof fn lemma_chunk_decode_prefix(m: ChunkModel, rest: Seq<u8>)
    requires
        chunk_wf(m),
    ensures
        decode_chunk(encode_chunk(m) + rest) == Ok::<ChunkModel, ChunkError>(m),
{
    reveal(decode_chunk);
    let b = encode_chunk(m) + rest;
    let n = m.length as int;
    lemma_be_round_trip(m.length);
    lemma_be_round_trip(m.crc);
    assert(b.subrange(4, 8) =~= m.chunk_type);
    assert(b.subrange(8, 8 + n) =~= m.data);
    assert(b[8 + n] == be_bytes(m.crc)[0]);
    assert(b[9 + n] == be_bytes(m.crc)[1]);
    assert(b[10 + n] == be_bytes(m.crc)[2]);
    assert(b[11 + n] == be_bytes(m.crc)[3]);
}

/// A chunk that decodes from the front of `b` is well formed, and its bytes
/// are exactly the part of `b` that it was read from.
pub proof fn lemma_decoded_chunk(b: Seq<u8>)
    requires
        decode_chunk(b) is Ok,
    ensures
        chunk_wf(decode_chunk(b)->Ok_0),
        12 + decode_chunk(b)->Ok_0.length <= b.len(),
        encode_chunk(decode_chunk(b)->Ok_0) == b.subrange(
            0,
            12 + decode_chunk(b)->Ok_0.length,
        ),
{
    reveal(decode_chunk);
    let m = decode_chunk(b)->Ok_0;
    let n = m.length as int;
    lemma_be_bytes_of_value(b[0], b[1], b[2], b[3]);
    lemma_be_bytes_of_value(b[8 + n], b[9 + n], b[10 + n], b[11 + n]);
    assert(encode_chunk(m) =~= b.subrange(0, 12 + n));
}

/// Fewer than twelve bytes never decode.
pub proof fn lemma_short_input_rejected(b: Seq<u8>)
    requires
        b.len() < 12,
    ensures
        decode_chunk(b) == Err::<ChunkModel, ChunkError>(ChunkError::InvalidLength),
{
    reveal(decode_chunk);
}

/// A chunk with a valid type whose declared length runs past the end of the
/// input does not decode.
pub proof fn lemma_overrun_rejected(b: Seq<u8>)
    requires
        b.len() >= 12,
        valid_tag(b.subrange(4, 8)),
        12 + declared_length(b) > b.len(),
    ensures
        decode_chunk(b) == Err::<ChunkModel, ChunkError>(ChunkError::InvalidLength),
{
    reveal(decode_chunk);
}

/// A chunk's bytes with its type or data replaced, keeping the type four
/// letters, are rejected for their checksum whenever the checksum of the new
/// type and data differs from the stored one.
pub proof fn lemma_altered_chunk_rejected(m: ChunkModel, tag: Seq<u8>, data: Seq<u8>)
    requires
        chunk_wf(m),
        valid_tag(tag),
        data.len() == m.data.len(),
        crc32_of(tag + data) != m.crc,
    ensures
        decode_chunk(encode_chunk(ChunkModel { chunk_type: tag, data, ..m })) == Err::<
            ChunkModel,
            ChunkError,
        >(ChunkError::InvalidCrc),
{
    reveal(decode_chunk);
    let a = ChunkModel { chunk_type: tag, data, ..m };
    let b = encode_chunk(a);
    let n = m.length as int;
    lemma_be_round_trip(m.length);
    lemma_be_round_trip(m.crc);
    assert(b.subrange(4, 8) =~= tag);
    assert(b.subrange(8, 8 + n) =~= data);
    assert(b[8 + n] == be_bytes(m.crc)[0]);
    assert(b[9 + n] == be_bytes(m.crc)[1]);
    assert(b[10 + n] == be_bytes(m.crc)[2]);
    assert(b[11 + n] == be_bytes(m.crc)[3]);
}

/// A chunk of a container: a type, data, and the checksum over both.
#[derive(Debug)]
pub struct Chunk {
    length: u32,
    chunk_type: ChunkType,
    data: Vec<u8>,
    crc: u32,
}

impl View for Chunk {
    type V = ChunkModel;

    closed spec fn view(&self) -> ChunkModel {
        ChunkModel {
            length: self.length,
            chunk_type: self.chunk_type@,
            data: self.data@,
            crc: self.crc,
        }
    }
}

/// The view of a result that may hold a chunk.
pub open spec fn chunk_result_view(r: Result<Chunk, ChunkError>) -> Result<ChunkModel, ChunkError> {
    match r {
        Ok(c) => Ok(c@),
        Err(e) => Err(e),
    }
}

fn read_u32(b: &[u8], i: usize) -> (r: u32)
    requires
        i + 4 <= b@.len(),
    ensures
        r == be_value(b@[i as int], b@[i + 1], b@[i + 2], b@[i + 3]),
{
    ((b[i] as u32) << 24u32) | ((b[i + 1] as u32) << 16u32) | ((b[i + 2] as u32) << 8u32) | (
    b[i + 3] as u32)
}

fn push_u32(v: &mut Vec<u8>, x: u32)
    ensures
        final(v)@ == old(v)@ + be_bytes(x),
{
    v.push((x >> 24u32) as u8);
    v.push((x >> 16u32) as u8);
    v.push((x >> 8u32) as u8);
    v.push(x as u8);
    proof {
        assert(final(v)@ =~= old(v)@ + be_bytes(x));
    }
}

impl Chunk {
    /// Every chunk is well formed.
    pub open spec fn wf(&self) -> bool {
        chunk_wf(self@)
    }

    /// The checksum input: type bytes followed by the data.
    fn checksum_input(chunk_type: &ChunkType, data: &Vec<u8>) -> (r: Vec<u8>)
        ensures
            r@ == chunk_type@ + data@,
    {
        let tag = chunk_type.bytes();
        let mut r: Vec<u8> = vec![tag[0], tag[1], tag[2], tag[3]];
        let mut rest = data.clone();
        proof {
            assert(rest@ =~= data@);
        }
        r.append(&mut rest);
        proof {
            chunk_type.lemma_view_len();
            assert(r@ =~= chunk_type@ + data@);
        }
        r
    }

    /// A chunk of the given type and data, with the checksum computed over both.
    pub fn new(chunk_type: ChunkType, data: Vec<u8>) -> (r: Chunk)
        requires
            chunk_type.wf(),
            data@.len() <= u32::MAX,
        ensures
            r@.length == data@.len(),
            r@.chunk_type == chunk_type@,
            r@.data == data@,
            r@.crc == crc32_of(chunk_type@ + data@),
            r.wf(),
    {
        let input = Chunk::checksum_input(&chunk_type, &data);
        let crc = crc32(input.as_slice());
        Chunk { length: data.len() as u32, chunk_type, data, crc }
    }

    /// Decodes a chunk from the start of `value`. The length must leave room
    /// for the data and checksum, the type must be four letters, and the
    /// stored checksum must match the one computed over type and data.
    pub fn try_from(value: &[u8]) -> (r: Result<Chunk, ChunkError>)
        ensures
            chunk_result_view(r) == decode_chunk(value@),
            r is Ok ==> r->Ok_0.wf(),
    {
        proof {
            reveal(decode_chunk);
        }
        if value.len() < 12 {
            return Err(ChunkError::InvalidLength);
        }
        let length = read_u32(value, 0);
        let chunk_type = match ChunkType::from_bytes([value[4], value[5], value[6], value[7]]) {
            Ok(t) => t,
            Err(e) => {
                proof {
                    assert(value@.subrange(4, 8) =~= seq![value@[4], value@[5], value@[6], value@[7]]);
                }
                return Err(e);
            },
        };
        proof {
            assert(chunk_type@ =~= value@.subrange(4, 8));
        }
        if length as usize > value.len() - 12 {
            return Err(ChunkError::InvalidLength);
        }
        let data_end: usize = 8 + length as usize;
        let data = slice_to_vec(slice_subrange(value, 8, data_end));
        let crc = read_u32(value, data_end);
        let input = slice_subrange(value, 4, data_end);
        let crc_check = crc32(input);
        proof {
            assert(input@ =~= value@.subrange(4, 8) + data@);
        }
        if crc != crc_check {
            return Err(ChunkError::InvalidCrc);
        }
        let r = Chunk { length, chunk_type, data, crc };
        proof {
            assert(r@ == decode_chunk(value@)->Ok_0);
        }
        Ok(r)
    }

    /// The declared length of the data.
    pub fn length(&self) -> (r: u32)
        ensures
            r == self@.length,
    {
        self.length
    }

    /// The chunk's type.
    pub fn chunk_type(&self) -> (r: &ChunkType)
        ensures
            r@ == self@.chunk_type,
            self.wf() ==> r.wf(),
    {
        &self.chunk_type
    }

    /// The chunk's data.
    pub fn data(&self) -> (r: &[u8])
        ensures
            r@ == self@.data,
    {
        self.data.as_slice()
    }

    /// The stored checksum.
    pub fn crc(&self) -> (r: u32)
        ensures
            r == self@.crc,
    {
        self.crc
    }

    /// The data read as UTF-8 text; fails when it is not valid UTF-8.
    pub fn data_as_string(&self) -> (r: Result<String, ChunkError>)
        ensures
            r is Ok <==> valid_utf8(self@.data),
            r is Ok ==> r->Ok_0@ == decode_utf8(self@.data),
            r is Err ==> r->Err_0 == ChunkError::InvalidEncoding,
    {
        match utf8_text(self.data.clone()) {
            Some(s) => Ok(s),
            None => Err(ChunkError::InvalidEncoding),
        }
    }

    /// A short description: length, type and checksum, never the data.
    pub fn to_string(&self) -> (r: String)
        requires
            self.wf(),
        ensures
            r@ == chunk_summary(self@),
    {
        let mut s = String::from_str("Chunk { length: ");
        let length = decimal_text(self.length);
        s.append(length.as_str());
        s.append(", chunk_type: ");
        let tag = self.chunk_type.to_string();
        s.append(tag.as_str());
        s.append(", crc: ");
        let crc = decimal_text(self.crc);
        s.append(crc.as_str());
        s.append(" }");
        s
    }

    /// The chunk's bytes: length and checksum big-endian, around type and data.
    pub fn as_bytes(&self) -> (r: Vec<u8>)
        ensures
            r@ == encode_chunk(self@),
    {
        let mut bytes: Vec<u8> = Vec::new();
        push_u32(&mut bytes, self.length);
        let tag = self.chunk_type.bytes();
        bytes.push(tag[0]);
        bytes.push(tag[1]);
        bytes.push(tag[2]);
        bytes.push(tag[3]);
        let mut data = self.data.clone();
        proof {
            assert(data@ =~= self.data@);
        }
        bytes.append(&mut data);
        push_u32(&mut bytes, self.crc);
        proof {
            self.chunk_type.lemma_view_len();
            assert(bytes@ =~= encode_chunk(self@));
        }
        bytes
    }
}

} // verus!
