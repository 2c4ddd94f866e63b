use vstd::prelude::*;
use vstd::slice::slice_to_vec;
use vstd::string::StringSliceAdditionalSpecFns;
use vstd::utf8::{decode_utf8, valid_utf8};
use crate::chunk::{Chunk, ChunkModel, chunk_wf};
use crate::chunk_type::{ChunkError, ChunkType, from_text_spec};
use crate::png::{
    Png, all_wf, decode_png, encode_png, has_type, is_first_of_type, lemma_append_then_remove,
    lemma_decoded_png_reencodes, lemma_png_round_trip,
};
use crate::primitives::crc32_of;

verus! {

/// The index of the first chunk of type `t`, where there is one.
pub open spec fn first_of_type(ms: Seq<ChunkModel>, t: Seq<u8>) -> int {
    choose|i: int| is_first_of_type(ms, t, i)
}

/// There is at most one first chunk of a type.
pub proof fn lemma_first_unique(ms: Seq<ChunkModel>, t: Seq<u8>, i: int)
    requires
        is_first_of_type(ms, t, i),
    ensures
        first_of_type(ms, t) == i,
{
    let k = first_of_type(ms, t);
    assert(is_first_of_type(ms, t, k));
    if k < i {
        assert(ms[k].chunk_type == t);
    } else if i < k {
        assert(ms[i].chunk_type == t);
    }
}

/// What adding a chunk of type `tag` and data `msg` to the container `png` gives:
/// the new container's bytes.
pub open spec fn encode_spec(png: Seq<u8>, tag: Seq<u8>, msg: Seq<u8>) -> Result<Seq<u8>, ChunkError> {
    match decode_png(png) {
        Err(e) => Err(e),
        Ok(ms) => match from_text_spec(tag) {
            Err(e) => Err(e),
            Ok(t) => if msg.len() > u32::MAX {
                Err(ChunkError::InvalidLength)
            } else {
                Ok(
                    encode_png(
                        ms.push(
                            ChunkModel {
                                length: msg.len() as u32,
                                chunk_type: t,
                                data: msg,
                                crc: crc32_of(t + msg),
                            },
                        ),
                    ),
                )
            },
        },
    }
}

/// What reading the first chunk of type `tag` in the container `png` as text gives.
pub open spec fn decode_spec(png: Seq<u8>, tag: Seq<u8>) -> Result<Seq<char>, ChunkError> {
    match decode_png(png) {
        Err(e) => Err(e),
        Ok(ms) => if !has_type(ms, tag) {
            Err(ChunkError::NotFound)
        } else {
            let data = ms[first_of_type(ms, tag)].data;
            if valid_utf8(data) {
                Ok(decode_utf8(data))
            } else {
                Err(ChunkError::InvalidEncoding)
            }
        },
    }
}

/// What removing the first chunk of type `tag` from the container `png` gives:
/// the removed chunk and the bytes of what is left.
pub open spec fn remove_spec(png: Seq<u8>, tag: Seq<u8>) -> Result<(ChunkModel, Seq<u8>), ChunkError> {
    match decode_png(png) {
        Err(e) => Err(e),
        Ok(ms) => if !has_type(ms, tag) {
            Err(ChunkError::NotFound)
        } else {
            let i = first_of_type(ms, tag);
            Ok((ms[i], encode_png(ms.remove(i))))
        },
    }
}

/// Adding a chunk to a container that has none of its type, then removing
/// that type from the result, gives back the added chunk and the original
/// container's bytes exactly.
pub proof fn lemma_encode_then_remove(png: Seq<u8>, tag: Seq<u8>, msg: Seq<u8>)
    requires
        decode_png(png) is Ok,
        !has_type(decode_png(png)->Ok_0, tag),
        encode_spec(png, tag, msg) is Ok,
    ensures
        remove_spec(encode_spec(png, tag, msg)->Ok_0, tag) == Ok::<
            (ChunkModel, Seq<u8>),
            ChunkError,
        >(
            (
                ChunkModel {
                    length: msg.len() as u32,
                    chunk_type: tag,
                    data: msg,
                    crc: crc32_of(tag + msg),
                },
                png,
            ),
        ),
{
    let ms = decode_png(png)->Ok_0;
    let m = ChunkModel {
        length: msg.len() as u32,
        chunk_type: tag,
        data: msg,
        crc: crc32_of(tag + msg),
    };
    lemma_decoded_png_reencodes(png);
    assert(chunk_wf(m));
    let grown = ms.push(m);
    assert forall|i: int| 0 <= i < grown.len() implies #[trigger] chunk_wf(grown[i]) by {
        if i < ms.len() {
            assert(grown[i] == ms[i]);
        }
    }
    assert(all_wf(grown));
    lemma_png_round_trip(grown);
    lemma_append_then_remove(ms, m);
    assert(is_first_of_type(grown, tag, ms.len() as int));
    lemma_first_unique(grown, tag, ms.len() as int);
}

/// Adds a chunk of the given type holding `message` to the end of the
/// container whose bytes are `png`, and returns the new container's bytes.
pub fn encode(png: &[u8], chunk_type: &str, message: &str) -> (r: Result<Vec<u8>, ChunkError>)
    ensures
        match r {
            Ok(b) => encode_spec(png@, chunk_type.spec_bytes(), message.spec_bytes()) == Ok::<
                Seq<u8>,
                ChunkError,
            >(b@),
            Err(e) => encode_spec(png@, chunk_type.spec_bytes(), message.spec_bytes()) == Err::<
                Seq<u8>,
                ChunkError,
            >(e),
        },
{
    let mut p = match Png::try_from(png) {
        Ok(p) => p,
        Err(e) => return Err(e),
    };
    let t = match ChunkType::from_text(chunk_type) {
        Ok(t) => t,
        Err(e) => return Err(e),
    };
    let data = slice_to_vec(message.as_bytes());
    if data.len() > 0xFFFF_FFFF {
        return Err(ChunkError::InvalidLength);
    }
    let chunk = Chunk::new(t, data);
    p.append_chunk(chunk);
    Ok(p.as_bytes())
}

/// Reads as text the first chunk of the given type in the container whose
/// bytes are `png`.
pub fn decode(png: &[u8], chunk_type: &str) -> (r: Result<String, ChunkError>)
    ensures
        match r {
            Ok(s) => decode_spec(png@, chunk_type.spec_bytes()) == Ok::<Seq<char>, ChunkError>(s@),
            Err(e) => decode_spec(png@, chunk_type.spec_bytes()) == Err::<Seq<char>, ChunkError>(e),
        },
{
    let p = match Png::try_from(png) {
        Ok(p) => p,
        Err(e) => return Err(e),
    };
    match p.chunk_by_type(chunk_type) {
        None => Err(ChunkError::NotFound),
        Some(c) => {
            proof {
                let i = choose|i: int|
                    is_first_of_type(p@, chunk_type.spec_bytes(), i) && c@ == p@[i];
                lemma_first_unique(p@, chunk_type.spec_bytes(), i);
            }
            c.data_as_string()
        },
    }
}

/// Takes the first chunk of the given type out of the container whose bytes
/// are `png`; returns it with the bytes of what is left.
pub fn remove(png: &[u8], chunk_type: &str) -> (r: Result<(Chunk, Vec<u8>), ChunkError>)
    ensures
        match r {
            Ok((c, b)) => remove_spec(png@, chunk_type.spec_bytes()) == Ok::<
                (ChunkModel, Seq<u8>),
                ChunkError,
            >((c@, b@)),
            Err(e) => remove_spec(png@, chunk_type.spec_bytes()) == Err::<
                (ChunkModel, Seq<u8>),
                ChunkError,
            >(e),
        },
        r is Ok ==> r->Ok_0.0.wf(),
{
    let mut p = match Png::try_from(png) {
        Ok(p) => p,
        Err(e) => return Err(e),
    };
    let ghost before = p@;
    match p.remove_first_chunk(chunk_type) {
        Err(e) => Err(e),
        Ok(c) => {
            proof {
                let i = choose|i: int|
                    is_first_of_type(before, chunk_type.spec_bytes(), i) && c@ == before[i]
                        && p@ == before.remove(i);
                lemma_first_unique(before, chunk_type.spec_bytes(), i);
            }
            let b = p.as_bytes();
            Ok((c, b))
        },
    }
}

} // verus!
