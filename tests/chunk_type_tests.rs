use pngme::chunk_type::{ChunkError, ChunkType};
use std::convert::TryFrom;
use std::str::FromStr;

#[test]
pub fn test_chunk_type_from_bytes() {
    let expected = [82, 117, 83, 116];
    let actual = ChunkType::try_from([82, 117, 83, 116]).unwrap();
    println!("{:?}", expected);

    assert_eq!(expected, actual.bytes());
}

#[test]
pub fn test_chunk_type_from_str() {
    let expected = ChunkType::try_from([82, 117, 83, 116]).unwrap();
    let actual = ChunkType::from_str("RuSt").unwrap();
    assert_eq!(expected, actual);
}

#[test]
pub fn test_chunk_type_is_critical() {
    let chunk = ChunkType::from_str("RuSt").unwrap();
    assert!(chunk.is_critical());
}

#[test]
pub fn test_chunk_type_is_not_critical() {
    let chunk = ChunkType::from_str("ruSt").unwrap();
    assert!(!chunk.is_critical());
}

#[test]
pub fn test_chunk_type_is_public() {
    let chunk = ChunkType::from_str("RUSt").unwrap();
    assert!(chunk.is_public());
}

#[test]
pub fn test_chunk_type_is_not_public() {
    let chunk = ChunkType::from_str("RuSt").unwrap();
    assert!(!chunk.is_public());
}

#[test]
pub fn test_chunk_type_is_reserved_bit_valid() {
    let chunk = ChunkType::from_str("RuSt").unwrap();
    assert!(chunk.is_reserved_bit_valid());
}

#[test]
pub fn test_chunk_type_is_reserved_bit_invalid() {
    let chunk = ChunkType::from_str("Rust").unwrap();
    assert!(!chunk.is_reserved_bit_valid());
}

#[test]
pub fn test_chunk_type_is_safe_to_copy() {
    let chunk = ChunkType::from_str("RuSt").unwrap();
    assert!(chunk.is_safe_to_copy());
}

#[test]
pub fn test_chunk_type_is_unsafe_to_copy() {
    let chunk = ChunkType::from_str("RuST").unwrap();
    assert!(!chunk.is_safe_to_copy());
}

#[test]
pub fn test_valid_chunk_is_valid() {
    let chunk = ChunkType::from_str("RuSt").unwrap();
    assert!(chunk.is_valid());
}

#[test]
pub fn test_chunk_type_string() {
    let chunk = ChunkType::from_str("RuSt").unwrap();
    assert_eq!(&chunk.to_string(), "RuSt");
}

#[test]
pub fn test_chunk_type_trait_impls() {
    let chunk_type_1: ChunkType = TryFrom::try_from([82, 117, 83, 116]).unwrap();
    let chunk_type_2: ChunkType = FromStr::from_str("RuSt").unwrap();
    let _chunk_string = chunk_type_1.to_string();
    let _are_chunks_equal = chunk_type_1 == chunk_type_2;
}

#[test]
fn every_byte_value_is_checked_in_every_position() {
    for pos in 0..4 {
        for b in 0..=255u8 {
            let mut tag = [82u8, 117, 83, 116];
            tag[pos] = b;
            let letter = b.is_ascii_alphabetic();
            assert_eq!(ChunkType::from_bytes(tag).is_ok(), letter);
            assert_eq!(ChunkType::try_from(tag).is_ok(), letter);
        }
    }
}

#[test]
fn non_letters_are_rejected() {
    assert_eq!(ChunkType::from_bytes([95, 117, 83, 116]), Err(ChunkError::InvalidTag));
    assert_eq!(ChunkType::from_bytes([82, 49, 83, 116]), Err(ChunkError::InvalidTag));
    assert_eq!(ChunkType::from_text("Ru1t"), Err(ChunkError::InvalidTag));
    assert!(ChunkType::from_bytes([82, 117, 83, 116]).is_ok());
}

#[test]
fn text_of_wrong_length_is_rejected() {
    assert_eq!(ChunkType::from_text("RuS"), Err(ChunkError::WrongTagLength));
    assert_eq!(ChunkType::from_text("RuStx"), Err(ChunkError::WrongTagLength));
    assert_eq!(ChunkType::from_text(""), Err(ChunkError::WrongTagLength));
    assert_eq!(ChunkType::from_text("Ruß"), Err(ChunkError::InvalidTag));
    assert_eq!(ChunkType::from_text("éé"), Err(ChunkError::InvalidTag));
}

#[test]
fn flags_of_rust_tags() {
    let t = ChunkType::from_bytes([82, 117, 83, 116]).unwrap();
    assert!(t.is_critical());
    assert!(!t.is_public());
    assert!(t.is_reserved_bit_valid());
    assert!(t.is_safe_to_copy());
    let u = ChunkType::from_text("RuST").unwrap();
    assert!(!u.is_safe_to_copy());
}
