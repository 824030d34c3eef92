use pngme::chunk::{Chunk, ChunkError};
use pngme::chunk_type::{ChunkType, ChunkTypeError};
use std::str::FromStr;

fn testing_chunk() -> Chunk {
    let data_length: u32 = 42;
    let chunk_type = "RuSt".as_bytes();
    let message_bytes = "This is where your secret message will be!".as_bytes();
    let crc: u32 = 2882656334;

    let chunk_data: Vec<u8> = data_length
        .to_be_bytes()
        .iter()
        .chain(chunk_type.iter())
        .chain(message_bytes.iter())
        .chain(crc.to_be_bytes().iter())
        .copied()
        .collect();

    Chunk::try_from(chunk_data.as_ref()).unwrap()
}

fn wire(length: u32, ty: &[u8], payload: &[u8], crc: u32) -> Vec<u8> {
    length
        .to_be_bytes()
        .iter()
        .chain(ty.iter())
        .chain(payload.iter())
        .chain(crc.to_be_bytes().iter())
        .copied()
        .collect()
}

#[test]
fn test_new_chunk() {
    let chunk_type = ChunkType::from_str("RuSt").unwrap();
    let data = "This is where your secret message will be!".as_bytes().to_vec();
    let chunk = Chunk::new(chunk_type, data);
    assert_eq!(chunk.length(), 42);
    assert_eq!(chunk.crc(), 2882656334);
}

#[test]
fn test_chunk_length() {
    let chunk = testing_chunk();
    assert_eq!(chunk.length(), 42);
}

#[test]
fn test_chunk_type() {
    let chunk = testing_chunk();
    assert_eq!(chunk.chunk_type().to_string(), String::from("RuSt"));
}

#[test]
fn test_chunk_string() {
    let chunk = testing_chunk();
    let chunk_string = chunk.data_as_string().unwrap();
    let expected_chunk_string = String::from("This is where your secret message will be!");
    assert_eq!(chunk_string, expected_chunk_string);
}

#[test]
fn test_chunk_crc() {
    let chunk = testing_chunk();
    assert_eq!(chunk.crc(), 2882656334);
}

#[test]
fn test_valid_chunk_from_bytes() {
    let data_length: u32 = 42;
    let chunk_type = "RuSt".as_bytes();
    let message_bytes = "This is where your secret message will be!".as_bytes();
    let crc: u32 = 2882656334;

    let chunk_data: Vec<u8> = data_length
        .to_be_bytes()
        .iter()
        .chain(chunk_type.iter())
        .chain(message_bytes.iter())
        .chain(crc.to_be_bytes().iter())
        .copied()
        .collect();

    let chunk = Chunk::try_from(chunk_data.as_ref()).unwrap();

    let chunk_string = chunk.data_as_string().unwrap();
    let expected_chunk_string = String::from("This is where your secret message will be!");

    assert_eq!(chunk.length(), 42);
    assert_eq!(chunk.chunk_type().to_string(), String::from("RuSt"));
    assert_eq!(chunk_string, expected_chunk_string);
    assert_eq!(chunk.crc(), 2882656334);
}

#[test]
fn test_invalid_chunk_from_bytes() {
    let data_length: u32 = 42;
    let chunk_type = "RuSt".as_bytes();
    let message_bytes = "This is where your secret message will be!".as_bytes();
    let crc: u32 = 2882656333;

    let chunk_data: Vec<u8> = data_length
        .to_be_bytes()
        .iter()
        .chain(chunk_type.iter())
        .chain(message_bytes.iter())
        .chain(crc.to_be_bytes().iter())
        .copied()
        .collect();

    let chunk = Chunk::try_from(chunk_data.as_ref());

    assert!(chunk.is_err());
}

#[test]
pub fn test_chunk_trait_impls() {
    let data_length: u32 = 42;
    let chunk_type = "RuSt".as_bytes();
    let message_bytes = "This is where your secret message will be!".as_bytes();
    let crc: u32 = 2882656334;

    let chunk_data: Vec<u8> = data_length
        .to_be_bytes()
        .iter()
        .chain(chunk_type.iter())
        .chain(message_bytes.iter())
        .chain(crc.to_be_bytes().iter())
        .copied()
        .collect();

    let chunk: Chunk = TryFrom::try_from(chunk_data.as_ref()).unwrap();

    let _chunk_string = chunk.to_string();
}

#[test]
fn chunk_round_trip_keeps_every_field() {
    let ty = ChunkType::from_str("ruSt").unwrap();
    let payload: Vec<u8> = vec![0, 255, 10, 13, 137];
    let chunk = Chunk::new(ty, payload.clone());
    let bytes = chunk.as_bytes();
    assert_eq!(bytes.len(), 12 + payload.len());
    let back = Chunk::from_bytes(&bytes).unwrap();
    assert_eq!(back.length(), chunk.length());
    assert_eq!(back.chunk_type().bytes(), *b"ruSt");
    assert_eq!(back.data(), &payload[..]);
    assert_eq!(back.crc(), chunk.crc());
    assert_eq!(back, chunk);
}

#[test]
fn chunk_round_trip_empty_payload() {
    let ty = ChunkType::from_str("IEND").unwrap();
    let chunk = Chunk::new(ty, Vec::new());
    assert_eq!(chunk.length(), 0);
    assert_eq!(chunk.crc(), 0xAE42_6082);
    let bytes = chunk.as_bytes();
    assert_eq!(bytes, vec![0, 0, 0, 0, 73, 69, 78, 68, 0xAE, 0x42, 0x60, 0x82]);
    assert_eq!(Chunk::from_bytes(&bytes).unwrap(), chunk);
}

#[test]
fn as_bytes_layout() {
    let chunk = testing_chunk();
    let expected = wire(42, b"RuSt", b"This is where your secret message will be!", 2882656334);
    assert_eq!(chunk.as_bytes(), expected);
}

#[test]
fn flipping_any_checksum_bit_is_rejected() {
    let chunk = Chunk::new(ChunkType::from_str("RuSt").unwrap(), b"hello".to_vec());
    let bytes = chunk.as_bytes();
    let n = bytes.len();
    for i in 0..4 {
        for bit in 0..8 {
            let mut flipped = bytes.clone();
            flipped[n - 4 + i] ^= 1u8 << bit;
            let found = u32::from_be_bytes([flipped[n - 4], flipped[n - 3], flipped[n - 2], flipped[n - 1]]);
            assert_eq!(
                Chunk::from_bytes(&flipped),
                Err(ChunkError::CRCMismatch(found, chunk.crc()))
            );
        }
    }
}

#[test]
fn decode_too_short() {
    assert_eq!(Chunk::from_bytes(&[0u8; 11]), Err(ChunkError::DataLength(11)));
    assert_eq!(Chunk::from_bytes(&[]), Err(ChunkError::DataLength(0)));
}

#[test]
fn decode_truncated_payload() {
    let mut bytes = wire(10, b"RuSt", b"abc", 0);
    bytes.truncate(12);
    assert_eq!(Chunk::from_bytes(&bytes), Err(ChunkError::Truncated(10, 4)));
}

#[test]
fn decode_bad_type_code() {
    let bytes = wire(0, b"Ru1t", b"", 0);
    assert_eq!(
        Chunk::from_bytes(&bytes),
        Err(ChunkError::InvalidType(ChunkTypeError::InvalidByteRange(b'1')))
    );
}

#[test]
fn decode_ignores_bytes_after_the_chunk() {
    let chunk = testing_chunk();
    let mut bytes = chunk.as_bytes();
    bytes.extend_from_slice(&[1, 2, 3]);
    assert_eq!(Chunk::from_bytes(&bytes).unwrap(), chunk);
}

#[test]
fn data_as_string_rejects_invalid_utf8() {
    let chunk = Chunk::new(ChunkType::from_str("RuSt").unwrap(), vec![0xff, 0xfe]);
    assert!(chunk.data_as_string().is_err());
    assert_eq!(chunk.data(), &[0xff, 0xfe]);
}

#[test]
fn rendering_reports_each_field() {
    let chunk = Chunk::new(ChunkType::from_str("RuSt").unwrap(), b"hi".to_vec());
    let expected = format!(
        "{{\n [Data Length]: 2\n [Chunk Type]: RuSt\n [Data]: hi\n [CRC32-ISO-HDLC]: {}\n}}\n",
        chunk.crc()
    );
    assert_eq!(chunk.to_string(), expected);

    let binary = Chunk::new(ChunkType::from_str("RuSt").unwrap(), vec![0xff]);
    assert!(binary.to_string().contains(" [Data]: INVALID_UTF8_STRING\n"));
}

#[test]
fn rendering_testing_chunk() {
    let chunk = testing_chunk();
    assert_eq!(
        chunk.to_string(),
        "{\n [Data Length]: 42\n [Chunk Type]: RuSt\n [Data]: This is where your secret message will be!\n [CRC32-ISO-HDLC]: 2882656334\n}\n"
    );
}

#[test]
fn checksum_mismatch_holds_stored_then_computed() {
    let bytes = wire(42, b"RuSt", b"This is where your secret message will be!", 2882656333);
    assert_eq!(
        Chunk::from_bytes(&bytes),
        Err(ChunkError::CRCMismatch(2882656333, 2882656334))
    );
}

#[test]
fn rendering_empty_payload() {
    let chunk = Chunk::new(ChunkType::from_str("IEND").unwrap(), Vec::new());
    assert_eq!(
        chunk.to_string(),
        "{\n [Data Length]: 0\n [Chunk Type]: IEND\n [Data]: \n [CRC32-ISO-HDLC]: 2923585666\n}\n"
    );
}
