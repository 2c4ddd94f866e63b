use pngme::chunk::Chunk;
use pngme::chunk_type::{ChunkError, ChunkType};
use pngme::commands::{decode, encode, remove};
use pngme::png::Png;

fn chunk(tag: &str, data: &str) -> Chunk {
    Chunk::new(ChunkType::from_text(tag).unwrap(), data.as_bytes().to_vec())
}

fn sample() -> Png {
    Png::from_chunks(vec![
        chunk("FrSt", "I am the first chunk"),
        chunk("miDl", "I am another chunk"),
        chunk("LASt", "I am the last chunk"),
    ])
}

fn types(p: &Png) -> Vec<String> {
    p.chunks().iter().map(|c| c.chunk_type().to_string()).collect()
}

#[test]
fn header_is_png_signature() {
    assert_eq!(Png::standard_header(), [137, 80, 78, 71, 13, 10, 26, 10]);
    assert_eq!(&sample().as_bytes()[0..8], &[137, 80, 78, 71, 13, 10, 26, 10]);
}

#[test]
fn container_round_trips() {
    let p = sample();
    let bytes = p.as_bytes();
    let back = Png::try_from(bytes.as_ref()).unwrap();
    assert_eq!(types(&back), vec!["FrSt", "miDl", "LASt"]);
    assert_eq!(back.as_bytes(), bytes);
    let empty = Png::from_chunks(Vec::new());
    let back = Png::try_from(empty.as_bytes().as_ref()).unwrap();
    assert!(back.chunks().is_empty());
}

#[test]
fn serialized_form_is_signature_then_chunks() {
    let p = sample();
    let mut expected = Png::standard_header().to_vec();
    for c in p.chunks() {
        expected.extend(c.as_bytes());
    }
    assert_eq!(p.as_bytes(), expected);
}

#[test]
fn bad_signature_is_rejected() {
    let mut bytes = sample().as_bytes();
    bytes[0] = 0;
    assert_eq!(Png::try_from(bytes.as_ref()).unwrap_err(), ChunkError::InvalidSignature);
    assert_eq!(Png::try_from(&[137u8, 80, 78][..]).unwrap_err(), ChunkError::InvalidLength);
}

#[test]
fn bad_chunk_fails_the_whole_container() {
    let mut bytes = sample().as_bytes();
    let last = bytes.len() - 1;
    bytes[last] ^= 1;
    assert_eq!(Png::try_from(bytes.as_ref()).unwrap_err(), ChunkError::InvalidCrc);
    let mut bytes = sample().as_bytes();
    bytes.push(0);
    assert_eq!(Png::try_from(bytes.as_ref()).unwrap_err(), ChunkError::InvalidLength);
}

#[test]
fn append_then_remove_restores() {
    let mut p = sample();
    let before = p.as_bytes();
    p.append_chunk(chunk("TeSt", "Message"));
    assert_eq!(types(&p), vec!["FrSt", "miDl", "LASt", "TeSt"]);
    let removed = p.remove_first_chunk("TeSt").unwrap();
    assert_eq!(removed.data_as_string().unwrap(), "Message");
    assert_eq!(removed.chunk_type().to_string(), "TeSt");
    assert_eq!(p.as_bytes(), before);
}

#[test]
fn remove_missing_type_is_not_found() {
    let mut p = sample();
    let before = p.as_bytes();
    assert_eq!(p.remove_first_chunk("NoNe").unwrap_err(), ChunkError::NotFound);
    assert_eq!(p.as_bytes(), before);
}

#[test]
fn lookup_and_remove_take_the_first_match() {
    let mut p = sample();
    p.append_chunk(chunk("miDl", "second of its type"));
    assert_eq!(p.chunk_by_type("miDl").unwrap().data_as_string().unwrap(), "I am another chunk");
    let removed = p.remove_first_chunk("miDl").unwrap();
    assert_eq!(removed.data_as_string().unwrap(), "I am another chunk");
    assert_eq!(types(&p), vec!["FrSt", "LASt", "miDl"]);
    assert_eq!(p.chunk_by_type("miDl").unwrap().data_as_string().unwrap(), "second of its type");
    assert!(p.chunk_by_type("NoNe").is_none());
}

#[test]
fn encode_decode_remove_commands() {
    let bytes = sample().as_bytes();
    let with = encode(&bytes, "RuSt", "This is where your secret message will be!").unwrap();
    assert_eq!(decode(&with, "RuSt").unwrap(), "This is where your secret message will be!");
    assert_eq!(decode(&with, "FrSt").unwrap(), "I am the first chunk");
    assert_eq!(decode(&with, "NoNe").unwrap_err(), ChunkError::NotFound);
    let (removed, without) = remove(&with, "RuSt").unwrap();
    assert_eq!(removed.length(), 42);
    assert_eq!(removed.crc(), 2882656334);
    assert_eq!(without, bytes);
    assert_eq!(remove(&without, "RuSt").unwrap_err(), ChunkError::NotFound);
}

#[test]
fn command_errors() {
    let bytes = sample().as_bytes();
    assert_eq!(encode(&bytes, "Ru1t", "x").unwrap_err(), ChunkError::InvalidTag);
    assert_eq!(encode(&bytes, "RuStx", "x").unwrap_err(), ChunkError::WrongTagLength);
    assert_eq!(encode(&bytes[1..], "RuSt", "x").unwrap_err(), ChunkError::InvalidSignature);
    let with = encode(&bytes, "BiNs", "").unwrap();
    let mut p = Png::try_from(with.as_ref()).unwrap();
    p.append_chunk(Chunk::new(ChunkType::from_text("RaWd").unwrap(), vec![0xC3, 0x28]));
    assert_eq!(decode(&p.as_bytes(), "RaWd").unwrap_err(), ChunkError::InvalidEncoding);
    assert_eq!(decode(&p.as_bytes(), "BiNs").unwrap(), "");
}

#[test]
fn chunk_summary_shows_length_type_and_crc() {
    let c = chunk("RuSt", "This is where your secret message will be!");
    assert_eq!(c.to_string(), "Chunk { length: 42, chunk_type: RuSt, crc: 2882656334 }");
    let e = chunk("IEND", "");
    assert_eq!(e.to_string(), "Chunk { length: 0, chunk_type: IEND, crc: 2923585666 }");
}

#[test]
fn container_summary_lists_chunks_in_order() {
    let p = Png::from_chunks(vec![chunk("RuSt", "This is where your secret message will be!"), chunk("IEND", "")]);
    assert_eq!(
        p.to_string(),
        "Chunk { length: 42, chunk_type: RuSt, crc: 2882656334 }\nChunk { length: 0, chunk_type: IEND, crc: 2923585666 }\n"
    );
    assert_eq!(Png::from_chunks(Vec::new()).to_string(), "");
}
