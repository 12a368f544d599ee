use pngme::{Chunk, ChunkType, Png, PngError};

const SIGNATURE: [u8; 8] = [137, 80, 78, 71, 13, 10, 26, 10];

fn chunk_from(tag: &str, message: &str) -> Chunk {
    let chunk_type = ChunkType::from_str(tag).unwrap();
    Chunk::new(chunk_type, message.as_bytes().to_vec())
}

fn testing_png_bytes() -> Vec<u8> {
    let mut bytes: Vec<u8> = SIGNATURE.to_vec();
    bytes.extend(chunk_from("FrSt", "I am the first chunk").as_bytes());
    bytes.extend(chunk_from("miDl", "I am another chunk").as_bytes());
    bytes.extend(chunk_from("LASt", "I am the last chunk").as_bytes());
    bytes
}

#[test]
fn test_parse_signature_only() {
    let png = Png::parse(&SIGNATURE).unwrap();
    assert_eq!(png.chunks().len(), 0);
    assert_eq!(png.as_bytes(), SIGNATURE.to_vec());
}

#[test]
fn test_parse_then_encode_is_identity() {
    let bytes = testing_png_bytes();
    let png = Png::parse(&bytes).unwrap();
    assert_eq!(png.chunks().len(), 3);
    assert_eq!(png.as_bytes(), bytes);
}

#[test]
fn test_parse_bad_signature() {
    let mut bytes = testing_png_bytes();
    bytes[0] = 42;
    assert_eq!(Png::parse(&bytes).unwrap_err(), PngError::Format);
}

#[test]
fn test_parse_truncated_chunk() {
    let mut bytes = testing_png_bytes();
    bytes.pop();
    assert_eq!(Png::parse(&bytes).unwrap_err(), PngError::Format);
}

#[test]
fn test_parse_corrupted_chunk_crc() {
    let mut bytes = testing_png_bytes();
    let last = bytes.len() - 1;
    bytes[last] = bytes[last].wrapping_add(1);
    assert_eq!(Png::parse(&bytes).unwrap_err(), PngError::CrcMismatch);
}

#[test]
fn test_append_then_reparse_contains_chunk() {
    let bytes = testing_png_bytes();
    let mut png = Png::parse(&bytes).unwrap();
    png.append_chunk(chunk_from("RuSt", "Message I want to hide"));
    let reparsed = Png::parse(&png.as_bytes()).unwrap();
    assert_eq!(reparsed.chunks().len(), 4);
    let found = reparsed.find_chunk("RuSt").unwrap();
    assert_eq!(found.chunk_type().to_string(), "RuSt");
    assert_eq!(found.data_as_string().unwrap(), "Message I want to hide");
    assert_eq!(reparsed.as_bytes()[..bytes.len()], bytes[..]);
}

#[test]
fn test_remove_chunks_then_find_none() {
    let mut bytes = testing_png_bytes();
    bytes.extend(chunk_from("RuSt", "first secret").as_bytes());
    bytes.extend(chunk_from("TeSt", "untouched").as_bytes());
    bytes.extend(chunk_from("RuSt", "second secret").as_bytes());
    let mut png = Png::parse(&bytes).unwrap();
    assert_eq!(png.chunks().len(), 6);
    png.remove_chunks("RuSt");
    assert_eq!(png.chunks().len(), 4);
    assert!(png.find_chunk("RuSt").is_none());
    let kept = png.find_chunk("TeSt").unwrap();
    assert_eq!(kept.data_as_string().unwrap(), "untouched");

    let mut expected: Vec<u8> = testing_png_bytes();
    expected.extend(chunk_from("TeSt", "untouched").as_bytes());
    assert_eq!(png.as_bytes(), expected);
}

#[test]
fn test_remove_chunks_without_match_is_noop() {
    let bytes = testing_png_bytes();
    let mut png = Png::parse(&bytes).unwrap();
    png.remove_chunks("NoNe");
    assert_eq!(png.as_bytes(), bytes);
}

#[test]
fn test_find_chunk_first_match() {
    let mut bytes = testing_png_bytes();
    bytes.extend(chunk_from("RuSt", "first secret").as_bytes());
    bytes.extend(chunk_from("RuSt", "second secret").as_bytes());
    let png = Png::parse(&bytes).unwrap();
    let found = png.find_chunk("RuSt").unwrap();
    assert_eq!(found.data_as_string().unwrap(), "first secret");
    assert!(png.find_chunk("FaKe").is_none());
}

#[test]
fn test_find_messages_in_order() {
    let mut bytes = testing_png_bytes();
    bytes.extend(chunk_from("RuSt", "first secret").as_bytes());
    bytes.extend(chunk_from("RuSt", "second secret").as_bytes());
    let png = Png::parse(&bytes).unwrap();
    let messages = png.find_messages("RuSt").unwrap();
    assert_eq!(messages, vec!["first secret", "second secret"]);
    assert_eq!(png.find_messages("NoNe").unwrap(), Vec::<String>::new());
}

#[test]
fn test_find_messages_errors() {
    let bytes = testing_png_bytes();
    let mut png = Png::parse(&bytes).unwrap();
    assert_eq!(png.find_messages("Ru1t").unwrap_err(), PngError::Validation);
    let chunk_type = ChunkType::from_str("RuSt").unwrap();
    png.append_chunk(Chunk::new(chunk_type, vec![0xff, 0xfe]));
    assert_eq!(png.find_messages("RuSt").unwrap_err(), PngError::Encoding);
}

#[test]
fn test_data_as_string_rejects_non_utf8() {
    let chunk_type = ChunkType::from_str("RuSt").unwrap();
    let chunk = Chunk::new(chunk_type, vec![0xff, 0xfe, 0xfd]);
    assert_eq!(chunk.data_as_string().unwrap_err(), PngError::Encoding);
}

#[test]
fn test_chunk_encode_then_decode_round_trip() {
    let chunk = chunk_from("RuSt", "This is where your secret message will be!");
    let decoded = Chunk::decode(chunk.as_bytes().as_ref()).unwrap();
    assert_eq!(decoded.length(), chunk.length());
    assert_eq!(decoded.chunk_type().bytes(), chunk.chunk_type().bytes());
    assert_eq!(decoded.crc(), chunk.crc());
    assert_eq!(decoded.data_as_string().unwrap(), chunk.data_as_string().unwrap());
}

#[test]
fn test_chunk_encode_exact_bytes() {
    let chunk = chunk_from("RuSt", "This is where your secret message will be!");
    let mut expected: Vec<u8> = 42u32.to_be_bytes().to_vec();
    expected.extend("RuSt".as_bytes());
    expected.extend("This is where your secret message will be!".as_bytes());
    expected.extend(2882656334u32.to_be_bytes());
    assert_eq!(chunk.as_bytes(), expected);
}

#[test]
fn test_decode_reports_crc_mismatch_error() {
    let mut bytes = chunk_from("RuSt", "This is where your secret message will be!").as_bytes();
    let len = bytes.len();
    bytes[len - 4..].copy_from_slice(&2882656333u32.to_be_bytes());
    assert_eq!(Chunk::decode(bytes.as_ref()).unwrap_err(), PngError::CrcMismatch);
}

#[test]
fn test_decode_reports_truncation_error() {
    let bytes = chunk_from("RuSt", "short").as_bytes();
    assert_eq!(
        Chunk::decode(&bytes[..bytes.len() - 1]).unwrap_err(),
        PngError::Format
    );
    assert_eq!(Chunk::decode(&bytes[..3]).unwrap_err(), PngError::Format);
}

#[test]
fn test_tampering_any_byte_fails_decode() {
    let bytes = chunk_from("RuSt", "This is where your secret message will be!").as_bytes();
    for i in 0..bytes.len() {
        let mut tampered = bytes.clone();
        tampered[i] = tampered[i].wrapping_add(1);
        assert!(Chunk::decode(tampered.as_ref()).is_err());
    }
}

#[test]
fn test_tag_round_trip_for_legal_strings() {
    for tag in ["RuSt", "rust", "ABCD", "zzzz", "bLOb"] {
        let chunk_type = ChunkType::from_str(tag).unwrap();
        assert_eq!(chunk_type.to_string(), tag);
    }
}

#[test]
fn test_tag_rejected_inputs() {
    for tag in ["Ru1t", "Ru!t", "Ru t", "Rus", "Rusty", "", "R\u{fc}st"] {
        assert_eq!(ChunkType::from_str(tag).unwrap_err(), PngError::Validation);
    }
}

#[test]
fn test_reserved_bit_independent_of_letter_validity() {
    let lower = ChunkType::from_str("Rust").unwrap();
    assert!(lower.is_only_possible_bytes());
    assert!(!lower.is_reserved_bit_valid());
    let upper = ChunkType::from_str("RuSt").unwrap();
    assert!(upper.is_reserved_bit_valid());
}
