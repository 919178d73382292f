use pingu::ChunkType;
use pingu::ChunkTypeErr;

#[test]
fn test_chunk_type_from_bytes_and_back() {
    let t = ChunkType::from_bytes([82, 117, 83, 116]); // "RuSt"
    assert_eq!(t.bytes(), [82, 117, 83, 116]);
    assert_eq!(t.to_text(), String::from("RuSt"));
}

#[test]
fn test_chunk_type_from_str_round_trip() {
    let t = ChunkType::from_str("RuSt").unwrap();
    assert_eq!(t.bytes(), [82, 117, 83, 116]);
    assert_eq!(ChunkType::from_str(t.to_text().as_str()).unwrap().bytes(), t.bytes());
}

#[test]
fn test_chunk_type_from_str_rejects_non_letters() {
    assert!(matches!(
        ChunkType::from_str("Ru1t"),
        Err(ChunkTypeErr::InvalidChunkType)
    ));
    assert!(matches!(
        ChunkType::from_str("Ru t"),
        Err(ChunkTypeErr::InvalidChunkType)
    ));
    assert!(matches!(
        ChunkType::from_str("RuSty"),
        Err(ChunkTypeErr::InvalidChunkType)
    ));
    assert!(matches!(
        ChunkType::from_str("RuS"),
        Err(ChunkTypeErr::InvalidChunkType)
    ));
}

#[test]
fn test_lowercase_reserved_bit_is_parseable_but_invalid() {
    // Byte at position 2 is lowercase: legal letters, structurally invalid.
    let t = ChunkType::from_bytes([82, 117, 115, 116]); // "Rust"
    assert!(!t.is_valid());
    assert!(!t.is_reserved_bit_valid());
    let u = ChunkType::from_str("Rust").unwrap();
    assert!(!u.is_valid());
    let v = ChunkType::from_str("RuSt").unwrap();
    assert!(v.is_valid());
}

#[test]
fn test_chunk_type_flags() {
    let t = ChunkType::from_str("RuSt").unwrap();
    assert!(t.is_critical()); // 'R' uppercase
    assert!(!t.is_public()); // 'u' lowercase
    assert!(t.is_reserved_bit_valid()); // 'S' uppercase
    assert!(t.is_safe_to_copy()); // 't' lowercase
    let u = ChunkType::from_str("rUsT").unwrap();
    assert!(!u.is_critical());
    assert!(u.is_public());
    assert!(!u.is_reserved_bit_valid());
    assert!(!u.is_safe_to_copy());
}

#[test]
fn test_non_letter_bytes_accepted_by_byte_constructor() {
    let t = ChunkType::from_bytes([0, 255, 65, 66]);
    assert_eq!(t.bytes(), [0, 255, 65, 66]);
    assert!(!t.is_valid());
}
