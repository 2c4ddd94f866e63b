use vstd::prelude::*;
use vstd::slice::slice_subrange;
use vstd::string::StringSliceAdditionalSpecFns;
use vstd::string::StringExecFns;
use crate::chunk::{
    Chunk, ChunkModel, chunk_summary, chunk_wf, decode_chunk, encode_chunk,
    lemma_chunk_decode_prefix, lemma_decoded_chunk,
};
use crate::chunk_type::ChunkError;

verus! {

/// The eight bytes that open every PNG file.
pub open spec fn png_signature() -> Seq<u8> {
    seq![137u8, 80u8, 78u8, 71u8, 13u8, 10u8, 26u8, 10u8]
}

/// The bytes of a sequence of chunks, one after the other.
pub open spec fn encode_chunks(ms: Seq<ChunkModel>) -> Seq<u8>
    decreases ms.len(),
{
    if ms.len() == 0 {
        Seq::empty()
    } else {
        encode_chunk(ms[0]) + encode_chunks(ms.drop_first())
    }
}

/// A description of a container: each chunk's summary on a line of its own.
pub open spec fn png_summary(ms: Seq<ChunkModel>) -> Seq<char>
    decreases ms.len(),
{
    if ms.len() == 0 {
        Seq::empty()
    } else {
        png_summary(ms.drop_last()) + chunk_summary(ms.last()) + "\n"@
    }
}

/// The bytes of a container: the signature, then its chunks.
pub open spec fn encode_png(ms: Seq<ChunkModel>) -> Seq<u8> {
    png_signature() + encode_chunks(ms)
}

/// Puts `ms` in front of the chunks of a result.
pub open spec fn prepend(ms: Seq<ChunkModel>, r: Result<Seq<ChunkModel>, ChunkError>) -> Result<
    Seq<ChunkModel>,
    ChunkError,
> {
    match r {
        Ok(rest) => Ok(ms + rest),
        Err(e) => Err(e),
    }
}

/// What decoding chunks one after the other from `b`, until it is used up, gives.
pub open spec fn decode_chunks(b: Seq<u8>) -> Result<Seq<ChunkModel>, ChunkError>
    decreases b.len(),
    via decode_chunks_decreases
{
    if b.len() == 0 {
        Ok(Seq::empty())
    } else {
        match decode_chunk(b) {
            Err(e) => Err(e),
            Ok(m) => prepend(seq![m], decode_chunks(b.subrange(12 + m.length, b.len() as int))),
        }
    }
}

#[via_fn]
proof fn decode_chunks_decreases(b: Seq<u8>) {
    if b.len() != 0 && decode_chunk(b) is Ok {
        lemma_decoded_chunk(b);
    }
}

/// What decoding a container from `b` gives.
pub open spec fn decode_png(b: Seq<u8>) -> Result<Seq<ChunkModel>, ChunkError> {
    if b.len() < 8 {
        Err(ChunkError::InvalidLength)
    } else if b.subrange(0, 8) != png_signature() {
        Err(ChunkError::InvalidSignature)
    } else {
        decode_chunks(b.subrange(8, b.len() as int))
    }
}

/// Every chunk of the sequence is well formed.
pub open spec fn all_wf(ms: Seq<ChunkModel>) -> bool {
    forall|i: int| 0 <= i < ms.len() ==> #[trigger] chunk_wf(ms[i])
}

/// Some chunk of the sequence has type `t`.
pub open spec fn has_type(ms: Seq<ChunkModel>, t: Seq<u8>) -> bool {
    exists|i: int| 0 <= i < ms.len() && #[trigger] ms[i].chunk_type == t
}

/// Index `i` holds the first chunk of type `t`.
pub open spec fn is_first_of_type(ms: Seq<ChunkModel>, t: Seq<u8>, i: int) -> bool {
    &&& 0 <= i < ms.len()
    &&& ms[i].chunk_type == t
    &&& forall|j: int| 0 <= j < i ==> #[trigger] ms[j].chunk_type != t
}

/// The views of a sequence of chunks.
pub open spec fn chunk_views(cs: Seq<Chunk>) -> Seq<ChunkModel> {
    cs.map_values(|c: Chunk| c@)
}

proof fn lemma_encode_chunks_push(ms: Seq<ChunkModel>, m: ChunkModel)
    ensures
        encode_chunks(ms.push(m)) == encode_chunks(ms) + encode_chunk(m),
    decreases ms.len(),
{
    if ms.len() == 0 {
        assert(ms.push(m).drop_first() =~= Seq::<ChunkModel>::empty());
        assert(ms.push(m)[0] == m);
        assert(encode_chunks(Seq::<ChunkModel>::empty()) == Seq::<u8>::empty());
        assert(encode_chunks(ms) == Seq::<u8>::empty());
        assert(encode_chunk(m) + Seq::<u8>::empty() =~= encode_chunk(m));
        assert(Seq::<u8>::empty() + encode_chunk(m) =~= encode_chunk(m));
    } else {
        assert(ms.push(m).drop_first() =~= ms.drop_first().push(m));
        assert(ms.push(m)[0] == ms[0]);
        lemma_encode_chunks_push(ms.drop_first(), m);
        assert(encode_chunk(ms[0]) + (encode_chunks(ms.drop_first()) + encode_chunk(m))
            =~= (encode_chunk(ms[0]) + encode_chunks(ms.drop_first())) + encode_chunk(m));
    }
}

proof fn lemma_decode_encode_chunks(ms: Seq<ChunkModel>)
    requires
        all_wf(ms),
    ensures
        decode_chunks(encode_chunks(ms)) == Ok::<Seq<ChunkModel>, ChunkError>(ms),
    decreases ms.len(),
{
    if ms.len() == 0 {
        assert(encode_chunks(ms) == Seq::<u8>::empty());
        assert(ms =~= Seq::<ChunkModel>::empty());
    } else {
        let m = ms[0];
        let rest = ms.drop_first();
        let b = encode_chunks(ms);
        assert(chunk_wf(m));
        assert(all_wf(rest)) by {
            assert forall|i: int| 0 <= i < rest.len() implies #[trigger] chunk_wf(rest[i]) by {
                assert(rest[i] == ms[i + 1]);
            }
        }
        assert(b == encode_chunk(m) + encode_chunks(rest));
        lemma_chunk_decode_prefix(m, encode_chunks(rest));
        let head = decode_chunk(b);
        assert(head == Ok::<ChunkModel, ChunkError>(m));
        assert(encode_chunk(m).len() == 12 + m.length);
        let tail = b.subrange(12 + m.length, b.len() as int);
        assert(tail =~= encode_chunks(rest));
        lemma_decode_encode_chunks(rest);
        assert(b.len() != 0);
        assert(decode_chunks(b) == prepend(seq![m], decode_chunks(tail)));
        assert(seq![m] + rest =~= ms);
    }
}

/// Decoding the bytes of a container of well-formed chunks gives back the
/// same chunks in the same order.
pub proof fn lemma_png_round_trip(ms: Seq<ChunkModel>)
    requires
        all_wf(ms),
    ensures
        decode_png(encode_png(ms)) == Ok::<Seq<ChunkModel>, ChunkError>(ms),
{
    let b = encode_png(ms);
    assert(b.subrange(0, 8) =~= png_signature());
    assert(b.subrange(8, b.len() as int) =~= encode_chunks(ms));
    lemma_decode_encode_chunks(ms);
}

proof fn lemma_decoded_chunks(b: Seq<u8>)
    requires
        decode_chunks(b) is Ok,
    ensures
        all_wf(decode_chunks(b)->Ok_0),
        encode_chunks(decode_chunks(b)->Ok_0) == b,
    decreases b.len(),
{
    let ms = decode_chunks(b)->Ok_0;
    if b.len() == 0 {
        assert(ms =~= Seq::<ChunkModel>::empty());
        assert(encode_chunks(ms) == Seq::<u8>::empty());
        assert(b =~= Seq::<u8>::empty());
    } else {
        lemma_decoded_chunk(b);
        let m = decode_chunk(b)->Ok_0;
        let tail = b.subrange(12 + m.length, b.len() as int);
        lemma_decoded_chunks(tail);
        let rest = decode_chunks(tail)->Ok_0;
        assert(ms == seq![m] + rest);
        assert(ms[0] == m);
        assert(ms.drop_first() =~= rest);
        assert forall|i: int| 0 <= i < ms.len() implies #[trigger] chunk_wf(ms[i]) by {
            if i > 0 {
                assert(ms[i] == rest[i - 1]);
            }
        }
        assert(encode_chunks(ms) == encode_chunk(m) + encode_chunks(rest));
        assert(b =~= b.subrange(0, 12 + m.length) + tail);
    }
}

/// A container that decodes from `b` holds well-formed chunks, and encoding
/// it again gives back exactly `b`.
pub proof fn lemma_decoded_png_reencodes(b: Seq<u8>)
    requires
        decode_png(b) is Ok,
    ensures
        all_wf(decode_png(b)->Ok_0),
        encode_png(decode_png(b)->Ok_0) == b,
{
    let rest = b.subrange(8, b.len() as int);
    lemma_decoded_chunks(rest);
    assert(b =~= b.subrange(0, 8) + rest);
}

/// After a chunk whose type no other chunk has is appended, it is the first
/// chunk of its type; removing it leaves the chunks as they were before.
pub proof fn lemma_append_then_remove(ms: Seq<ChunkModel>, m: ChunkModel)
    requires
        !has_type(ms, m.chunk_type),
    ensures
        has_type(ms.push(m), m.chunk_type),
        forall|i: int| #[trigger]
            is_first_of_type(ms.push(m), m.chunk_type, i) ==> i == ms.len() && ms.push(m)[i] == m
                && ms.push(m).remove(i) == ms,
{
    let n = ms.len() as int;
    assert(ms.push(m)[n] == m);
    assert(ms.push(m).remove(n) =~= ms);
    assert forall|i: int| #[trigger] is_first_of_type(ms.push(m), m.chunk_type, i) implies i == n by {
        if i < n {
            assert(ms.push(m)[i] == ms[i]);
        }
    }
}

/// When chunks `i < j` share a type, the first chunk of that type is at or
/// before `i`, and removing it keeps chunk `j` one place earlier.
pub proof fn lemma_first_match(ms: Seq<ChunkModel>, t: Seq<u8>, i: int, j: int)
    requires
        0 <= i < j < ms.len(),
        ms[i].chunk_type == t,
        ms[j].chunk_type == t,
    ensures
        exists|k: int| is_first_of_type(ms, t, k),
        forall|k: int| #[trigger]
            is_first_of_type(ms, t, k) ==> k <= i && ms.remove(k)[j - 1] == ms[j],
{
    lemma_first_exists(ms, t, i);
}

proof fn lemma_first_exists(ms: Seq<ChunkModel>, t: Seq<u8>, i: int)
    requires
        0 <= i < ms.len(),
        ms[i].chunk_type == t,
    ensures
        exists|k: int| is_first_of_type(ms, t, k),
    decreases i,
{
    if forall|j: int| 0 <= j < i ==> #[trigger] ms[j].chunk_type != t {
        assert(is_first_of_type(ms, t, i));
    } else {
        let j = choose|j: int| 0 <= j < i && #[trigger] ms[j].chunk_type == t;
        lemma_first_exists(ms, t, j);
    }
}

proof fn lemma_views_wf(cs: Seq<Chunk>)
    requires
        forall|i: int| 0 <= i < cs.len() ==> #[trigger] cs[i].wf(),
    ensures
        all_wf(chunk_views(cs)),
{
    assert forall|i: int| 0 <= i < chunk_views(cs).len() implies #[trigger] chunk_wf(
        chunk_views(cs)[i],
    ) by {
        assert(cs[i].wf());
    }
}

/// The view of a result that may hold a container.
pub open spec fn png_result_view(r: Result<Png, ChunkError>) -> Result<Seq<ChunkModel>, ChunkError> {
    match r {
        Ok(p) => Ok(p@),
        Err(e) => Err(e),
    }
}

/// A PNG file as a signature and an ordered list of chunks.
#[derive(Debug)]
pub struct Png {
    chunks: Vec<Chunk>,
}

impl View for Png {
    type V = Seq<ChunkModel>;

    closed spec fn view(&self) -> Seq<ChunkModel> {
        chunk_views(self.chunks@)
    }
}

fn type_matches(c: &Chunk, t: &[u8]) -> (r: bool)
    ensures
        r == (c@.chunk_type == t@),
{
    let ct = c.chunk_type();
    let tag = ct.bytes();
    proof {
        ct.lemma_view_len();
    }
    if t.len() != 4 {
        return false;
    }
    let r = tag[0] == t[0] && tag[1] == t[1] && tag[2] == t[2] && tag[3] == t[3];
    proof {
        if r {
            assert(c@.chunk_type =~= t@);
        }
    }
    r
}

impl Png {
    /// Every chunk of a container is well formed.
    pub open spec fn wf(&self) -> bool {
        all_wf(self@)
    }

    /// The signature that opens every container.
    pub fn standard_header() -> (r: [u8; 8])
        ensures
            r@ == png_signature(),
    {
        let r: [u8; 8] = [137, 80, 78, 71, 13, 10, 26, 10];
        proof {
            assert(r@ =~= png_signature());
        }
        r
    }

    /// A container holding the given chunks, in order.
    pub fn from_chunks(chunks: Vec<Chunk>) -> (r: Png)
        requires
            forall|i: int| 0 <= i < chunks@.len() ==> #[trigger] chunks@[i].wf(),
        ensures
            r@ == chunk_views(chunks@),
            r.wf(),
    {
        proof {
            lemma_views_wf(chunks@);
        }
        Png { chunks }
    }

    /// The signature that opens this container.
    pub fn header(&self) -> (r: [u8; 8])
        ensures
            r@ == png_signature(),
    {
        Png::standard_header()
    }

    /// The chunks, in order.
    pub fn chunks(&self) -> (r: &[Chunk])
        ensures
            chunk_views(r@) == self@,
    {
        self.chunks.as_slice()
    }

    /// Adds a chunk at the end.
    pub fn append_chunk(&mut self, chunk: Chunk)
        requires
            old(self).wf(),
            chunk.wf(),
        ensures
            final(self)@ == old(self)@.push(chunk@),
            final(self).wf(),
    {
        let ghost before = self.chunks@;
        self.chunks.push(chunk);
        proof {
            assert(chunk_views(self.chunks@) =~= chunk_views(before).push(chunk@));
        }
    }

    /// The first chunk whose type, as text, is `chunk_type`.
    pub fn chunk_by_type(&self, chunk_type: &str) -> (r: Option<&Chunk>)
        ensures
            r is Some <==> has_type(self@, chunk_type.spec_bytes()),
            r is Some ==> exists|i: int|
                is_first_of_type(self@, chunk_type.spec_bytes(), i) && r->Some_0@ == self@[i],
    {
        let t = chunk_type.as_bytes();
        let mut i: usize = 0;
        while i < self.chunks.len()
            invariant
                0 <= i <= self.chunks@.len(),
                self@ == chunk_views(self.chunks@),
                t@ == chunk_type.spec_bytes(),
                forall|j: int| 0 <= j < i ==> #[trigger] self@[j].chunk_type != t@,
            decreases self.chunks@.len() - i,
        {
            if type_matches(&self.chunks[i], t) {
                proof {
                    assert(is_first_of_type(self@, t@, i as int));
                }
                return Some(&self.chunks[i]);
            }
            i = i + 1;
        }
        None
    }

    /// Takes out the first chunk whose type, as text, is `chunk_type`; the
    /// others keep their order. With no such chunk the container is unchanged.
    pub fn remove_first_chunk(&mut self, chunk_type: &str) -> (r: Result<Chunk, ChunkError>)
        requires
            old(self).wf(),
        ensures
            r is Ok <==> has_type(old(self)@, chunk_type.spec_bytes()),
            r is Ok ==> exists|i: int|
                is_first_of_type(old(self)@, chunk_type.spec_bytes(), i) && r->Ok_0@ == old(
                    self,
                )@[i] && final(self)@ == old(self)@.remove(i),
            r is Ok ==> r->Ok_0.wf(),
            r is Err ==> r->Err_0 == ChunkError::NotFound && final(self)@ == old(self)@,
            final(self).wf(),
    {
        let t = chunk_type.as_bytes();
        let mut i: usize = 0;
        while i < self.chunks.len()
            invariant
                0 <= i <= self.chunks@.len(),
                t@ == chunk_type.spec_bytes(),
                self.chunks@ == old(self).chunks@,
                self@ == chunk_views(self.chunks@),
                self.wf(),
                forall|j: int| 0 <= j < i ==> #[trigger] self@[j].chunk_type != t@,
            decreases self.chunks@.len() - i,
        {
            if type_matches(&self.chunks[i], t) {
                let ghost before = self.chunks@;
                let c = self.chunks.remove(i);
                proof {
                    assert(is_first_of_type(chunk_views(before), t@, i as int));
                    assert(chunk_views(self.chunks@) =~= chunk_views(before).remove(i as int));
                    assert(chunk_wf(chunk_views(before)[i as int]));
                    assert(all_wf(self@));
                }
                return Ok(c);
            }
            i = i + 1;
        }
        Err(ChunkError::NotFound)
    }

    /// Each chunk's summary, in order, one per line.
    pub fn to_string(&self) -> (r: String)
        requires
            self.wf(),
        ensures
            r@ == png_summary(self@),
    {
        let mut s = String::new();
        let mut i: usize = 0;
        while i < self.chunks.len()
            invariant
                0 <= i <= self.chunks@.len(),
                self@ == chunk_views(self.chunks@),
                all_wf(self@),
                s@ == png_summary(self@.take(i as int)),
            decreases self.chunks@.len() - i,
        {
            proof {
                assert(chunk_wf(self@[i as int]));
            }
            let line = self.chunks[i].to_string();
            s.append(line.as_str());
            s.append("\n");
            proof {
                assert(self@.take(i + 1).drop_last() =~= self@.take(i as int));
            }
            i = i + 1;
        }
        proof {
            assert(self@.take(i as int) =~= self@);
        }
        s
    }

    /// The container's bytes: the signature, then each chunk's bytes in order.
    pub fn as_bytes(&self) -> (r: Vec<u8>)
        ensures
            r@ == encode_png(self@),
    {
        let header = Png::standard_header();
        let mut bytes: Vec<u8> = vec![
            header[0],
            header[1],
            header[2],
            header[3],
            header[4],
            header[5],
            header[6],
            header[7],
        ];
        proof {
            assert(bytes@ =~= png_signature() + encode_chunks(self@.take(0)));
        }
        let mut i: usize = 0;
        while i < self.chunks.len()
            invariant
                0 <= i <= self.chunks@.len(),
                self@ == chunk_views(self.chunks@),
                bytes@ == png_signature() + encode_chunks(self@.take(i as int)),
            decreases self.chunks@.len() - i,
        {
            let mut more = self.chunks[i].as_bytes();
            let ghost before = bytes@;
            bytes.append(&mut more);
            proof {
                assert(self@.take(i + 1) =~= self@.take(i as int).push(self@[i as int]));
                lemma_encode_chunks_push(self@.take(i as int), self@[i as int]);
                assert(bytes@ =~= png_signature() + encode_chunks(self@.take(i + 1)));
            }
            i = i + 1;
        }
        proof {
            assert(self@.take(i as int) =~= self@);
        }
        bytes
    }

    /// Decodes a container: the signature, then chunks one after the other
    /// until the input is used up. Any failing chunk fails the whole.
    pub fn try_from(bytes: &[u8]) -> (r: Result<Png, ChunkError>)
        ensures
            png_result_view(r) == decode_png(bytes@),
            r is Ok ==> r->Ok_0.wf(),
    {
        if bytes.len() < 8 {
            return Err(ChunkError::InvalidLength);
        }
        let header = Png::standard_header();
        let mut k: usize = 0;
        while k < 8
            invariant
                bytes@.len() >= 8,
                header@ == png_signature(),
                0 <= k <= 8,
                forall|j: int| 0 <= j < k ==> bytes@[j] == header@[j],
            decreases 8 - k,
        {
            if bytes[k] != header[k] {
                proof {
                    assert(bytes@.subrange(0, 8)[k as int] != png_signature()[k as int]);
                }
                return Err(ChunkError::InvalidSignature);
            }
            k = k + 1;
        }
        proof {
            assert(bytes@.subrange(0, 8) =~= png_signature());
        }
        let n = bytes.len();
        let mut chunks: Vec<Chunk> = Vec::new();
        let mut i: usize = 8;
        while i < n
            invariant
                n == bytes@.len(),
                8 <= i <= n,
                decode_png(bytes@) == prepend(
                    chunk_views(chunks@),
                    decode_chunks(bytes@.subrange(i as int, n as int)),
                ),
                forall|j: int| 0 <= j < chunks@.len() ==> #[trigger] chunks@[j].wf(),
            decreases n - i,
        {
            let rest = slice_subrange(bytes, i, n);
            let r = Chunk::try_from(rest);
            match r {
                Err(e) => {
                    return Err(e);
                },
                Ok(c) => {
                    let ghost old_chunks = chunks@;
                    proof {
                        lemma_decoded_chunk(rest@);
                    }
                    let step: usize = 12 + c.length() as usize;
                    proof {
                        assert(rest@.subrange(step as int, rest@.len() as int) =~= bytes@.subrange(
                            (i + step) as int,
                            n as int,
                        ));
                        assert(chunk_views(old_chunks.push(c)) =~= chunk_views(old_chunks) + seq![c@]);
                        assert(decode_chunks(rest@) == prepend(
                            seq![c@],
                            decode_chunks(bytes@.subrange((i + step) as int, n as int)),
                        ));
                        match decode_chunks(bytes@.subrange((i + step) as int, n as int)) {
                            Ok(x) => {
                                assert(chunk_views(old_chunks) + (seq![c@] + x) =~= (chunk_views(
                                    old_chunks,
                                ) + seq![c@]) + x);
                            },
                            Err(_) => {},
                        }
                    }
                    chunks.push(c);
                    i = i + step;
                },
            }
        }
        proof {
            assert(bytes@.subrange(i as int, n as int) =~= Seq::<u8>::empty());
            assert(chunk_views(chunks@) + Seq::<ChunkModel>::empty() =~= chunk_views(chunks@));
            lemma_views_wf(chunks@);
        }
        Ok(Png { chunks })
    }
}

} // verus!
