use pingu::Chunk;
use pingu::ChunkError;
use pingu::ChunkType;

fn testing_chunk() -> Chunk {
    let data_length: u32 = 42;
    let chunk_type = "RuSt".as_bytes();
    let message_bytes = "This is where your secret message will be!".as_bytes();
    let crc: u32 = 2882656334;

    let chunk_data: Vec<u8> = data_length
        .to_be_bytes()
        .iter()
        .chain(chunk_type.iter())
        .chain(message_bytes.iter())
        .chain(crc.to_be_bytes().iter())
        .copied()
        .collect();

    Chunk::try_from(chunk_data.as_ref()).unwrap()
}

#[test]
fn test_new_chunk() {
    let chunk_type = ChunkType::from_str("RuSt").unwrap();
    let data = "This is where your secret message will be!"
        .as_bytes()
        .to_vec();
    let chunk = Chunk::new(chunk_type, data);
    assert_eq!(chunk.length(), 42);
    assert_eq!(chunk.crc(), 2882656334);
}

#[test]
fn test_chunk_length() {
    let chunk = testing_chunk();
    assert_eq!(chunk.length(), 42);
}

#[test]
fn test_chunk_type() {
    let chunk = testing_chunk();
    assert_eq!(chunk.chunk_type().to_text(), String::from("RuSt"));
}

#[test]
fn test_chunk_string() {
    let chunk = testing_chunk();
    let chunk_string = chunk.data_as_string().unwrap();
    let expected_chunk_string = String::from("This is where your secret message will be!");
    assert_eq!(chunk_string, expected_chunk_string);
}

#[test]
fn test_chunk_crc() {
    let chunk = testing_chunk();
    assert_eq!(chunk.crc(), 2882656334);
}

#[test]
fn test_valid_chunk_from_bytes() {
    let data_length: u32 = 42;
    let chunk_type = "RuSt".as_bytes();
    let message_bytes = "This is where your secret message will be!".as_bytes();
    let crc: u32 = 2882656334;

    let chunk_data: Vec<u8> = data_length
        .to_be_bytes()
        .iter()
        .chain(chunk_type.iter())
        .chain(message_bytes.iter())
        .chain(crc.to_be_bytes().iter())
        .copied()
        .collect();

    let chunk = Chunk::try_from(chunk_data.as_ref()).unwrap();

    let chunk_string = chunk.data_as_string().unwrap();
    let expected_chunk_string = String::from("This is where your secret message will be!");

    assert_eq!(chunk.length(), 42);
    assert_eq!(chunk.chunk_type().to_text(), String::from("RuSt"));
    assert_eq!(chunk_string, expected_chunk_string);
    assert_eq!(chunk.crc(), 2882656334);
}

#[test]
fn test_invalid_chunk_from_bytes() {
    let data_length: u32 = 42;
    let chunk_type = "RuSt".as_bytes();
    let message_bytes = "This is where your secret message will be!".as_bytes();
    let crc: u32 = 2882656333;

    let chunk_data: Vec<u8> = data_length
        .to_be_bytes()
        .iter()
        .chain(chunk_type.iter())
        .chain(message_bytes.iter())
        .chain(crc.to_be_bytes().iter())
        .copied()
        .collect();

    let chunk = Chunk::try_from(chunk_data.as_ref());

    assert!(chunk.is_err());
}

#[test]
fn test_chunk_round_trip() {
    let chunk_type = ChunkType::from_str("RuSt").unwrap();
    let data = "This is where your secret message will be!"
        .as_bytes()
        .to_vec();
    let chunk = Chunk::new(chunk_type, data.clone());
    let encoded = chunk.as_bytes();
    let decoded = Chunk::try_from(encoded.as_slice()).unwrap();
    assert_eq!(decoded.length(), chunk.length());
    assert_eq!(decoded.crc(), chunk.crc());
    assert_eq!(decoded.chunk_type().bytes(), chunk.chunk_type().bytes());
    assert_eq!(decoded.as_bytes(), encoded);
}

#[test]
fn test_crc_sensitive_to_bit_flips() {
    let chunk_type = ChunkType::from_str("RuSt").unwrap();
    let data = "This is where your secret message will be!"
        .as_bytes()
        .to_vec();
    let chunk = Chunk::new(chunk_type, data);
    let encoded = chunk.as_bytes();
    // Flip every single bit of the type and data regions in turn; each
    // corrupted buffer must be rejected with a checksum mismatch.
    for byte_index in 4..(encoded.len() - 4) {
        for bit in 0..8 {
            let mut corrupted = encoded.clone();
            corrupted[byte_index] ^= 1u8 << bit;
            let tb = &corrupted[4..8];
            let still_letters = tb
                .iter()
                .all(|b| b.is_ascii_lowercase() || b.is_ascii_uppercase());
            let r = Chunk::try_from(corrupted.as_slice());
            if still_letters {
                assert!(matches!(r, Err(ChunkError::InvalidCrc)));
            } else {
                assert!(matches!(r, Err(ChunkError::InvalidChunkType)));
            }
        }
    }
}

#[test]
fn test_decode_too_short_is_invalid_length() {
    let buf: Vec<u8> = vec![0, 0, 0, 0, 82, 117, 83, 116, 0, 0, 0];
    assert!(matches!(
        Chunk::try_from(buf.as_slice()),
        Err(ChunkError::InvalidLength)
    ));
    let empty: Vec<u8> = vec![];
    assert!(matches!(
        Chunk::try_from(empty.as_slice()),
        Err(ChunkError::InvalidLength)
    ));
}

#[test]
fn test_decode_declared_length_beyond_buffer_is_invalid_length() {
    // Declares 200 payload bytes but carries only 4.
    let mut buf: Vec<u8> = Vec::new();
    buf.extend_from_slice(&200u32.to_be_bytes());
    buf.extend_from_slice("RuSt".as_bytes());
    buf.extend_from_slice(&[1, 2, 3, 4]);
    buf.extend_from_slice(&0u32.to_be_bytes());
    assert!(matches!(
        Chunk::try_from(buf.as_slice()),
        Err(ChunkError::InvalidLength)
    ));
}

#[test]
fn test_decode_non_letter_type_is_invalid_chunk_type() {
    let mut buf: Vec<u8> = Vec::new();
    buf.extend_from_slice(&0u32.to_be_bytes());
    buf.extend_from_slice(&[82, 117, 51, 116]); // "Ru3t"
    buf.extend_from_slice(&0u32.to_be_bytes());
    assert!(matches!(
        Chunk::try_from(buf.as_slice()),
        Err(ChunkError::InvalidChunkType)
    ));
}

#[test]
fn test_non_utf8_payload_is_encoding_error() {
    let chunk_type = ChunkType::from_str("RuSt").unwrap();
    let chunk = Chunk::new(chunk_type, vec![0xff, 0xfe, 0x41]);
    assert!(matches!(
        chunk.data_as_string(),
        Err(ChunkError::EncodingError)
    ));
}

#[test]
fn test_new_chunk_crc_matches_reference() {
    // CRC-32 of "RuSt" ++ payload, computed independently of the encoder.
    let payload = "This is where your secret message will be!".as_bytes();
    let mut crc_input: Vec<u8> = Vec::new();
    crc_input.extend_from_slice("RuSt".as_bytes());
    crc_input.extend_from_slice(payload);
    assert_eq!(crc32fast::hash(&crc_input), 2882656334);
    let chunk = Chunk::new(
        ChunkType::from_str("RuSt").unwrap(),
        payload.to_vec(),
    );
    assert_eq!(chunk.crc(), 2882656334);
    assert_eq!(chunk.length(), payload.len() as u32);
}
