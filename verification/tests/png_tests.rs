use pingu::Chunk;
use pingu::ChunkError;
use pingu::ChunkType;
use pingu::Png;
use pingu::PngError;

const SIGNATURE: [u8; 8] = [137, 80, 78, 71, 13, 10, 26, 10];

fn chunk_of(type_text: &str, payload: &str) -> Chunk {
    Chunk::new(
        ChunkType::from_str(type_text).unwrap(),
        payload.as_bytes().to_vec(),
    )
}

fn testing_png() -> Png {
    let chunks = vec![
        chunk_of("FrSt", "I am the first chunk"),
        chunk_of("miDl", "I am another chunk"),
        chunk_of("LASt", "I am the last chunk"),
    ];
    Png::from_chunks(chunks)
}

#[test]
fn test_png_round_trip() {
    let png = testing_png();
    let encoded = png.as_bytes();
    let decoded = Png::try_from(encoded.as_slice()).unwrap();
    assert_eq!(decoded.chunks().len(), 3);
    assert_eq!(decoded.as_bytes(), encoded);
    for (a, b) in decoded.chunks().iter().zip(png.chunks().iter()) {
        assert_eq!(a.length(), b.length());
        assert_eq!(a.crc(), b.crc());
        assert_eq!(a.chunk_type().bytes(), b.chunk_type().bytes());
        assert_eq!(a.as_bytes(), b.as_bytes());
    }
}

#[test]
fn test_png_encode_layout() {
    let png = testing_png();
    let encoded = png.as_bytes();
    assert_eq!(&encoded[0..8], &SIGNATURE);
    let first = png.chunks()[0].as_bytes();
    assert_eq!(&encoded[8..8 + first.len()], first.as_slice());
}

#[test]
fn test_png_bad_signature() {
    let png = testing_png();
    let mut encoded = png.as_bytes();
    encoded[0] = 13;
    assert!(matches!(
        Png::try_from(encoded.as_slice()),
        Err(PngError::SignatureMismatch)
    ));
    let short: Vec<u8> = vec![137, 80];
    assert!(matches!(
        Png::try_from(short.as_slice()),
        Err(PngError::SignatureMismatch)
    ));
}

#[test]
fn test_png_propagates_chunk_errors() {
    let png = testing_png();
    let mut encoded = png.as_bytes();
    // Corrupt one payload byte of the first chunk: its CRC no longer matches.
    encoded[8 + 8] ^= 0x01;
    assert!(matches!(
        Png::try_from(encoded.as_slice()),
        Err(PngError::InvalidChunk(ChunkError::InvalidCrc))
    ));
    // Truncate the buffer inside the last chunk.
    let encoded = png.as_bytes();
    let truncated = &encoded[..encoded.len() - 2];
    assert!(matches!(
        Png::try_from(truncated),
        Err(PngError::InvalidChunk(ChunkError::InvalidLength))
    ));
}

#[test]
fn test_signature_alone_is_empty_png() {
    let decoded = Png::try_from(&SIGNATURE[..]).unwrap();
    assert_eq!(decoded.chunks().len(), 0);
    assert_eq!(decoded.as_bytes(), SIGNATURE.to_vec());
}

#[test]
fn test_append_lookup_and_remove() {
    let mut png = testing_png();
    png.append_chunk(chunk_of("teSt", "Message"));
    assert_eq!(png.chunks().len(), 4);

    let found = png.chunk_by_type("teSt").unwrap();
    assert_eq!(found.chunk_type().to_text(), String::from("teSt"));
    assert_eq!(
        found.data_as_string().unwrap(),
        String::from("Message")
    );

    let removed = png.remove_chunk("teSt").unwrap();
    assert_eq!(removed.data_as_string().unwrap(), String::from("Message"));
    assert_eq!(png.chunks().len(), 3);
    assert!(png.chunk_by_type("teSt").is_none());
    assert!(matches!(
        png.remove_chunk("teSt"),
        Err(PngError::ChunkNotFound)
    ));
}

#[test]
fn test_lookup_returns_first_of_duplicates() {
    let mut png = Png::from_chunks(vec![]);
    png.append_chunk(chunk_of("duPl", "one"));
    png.append_chunk(chunk_of("duPl", "two"));
    let found = png.chunk_by_type("duPl").unwrap();
    assert_eq!(found.data_as_string().unwrap(), String::from("one"));
    // Removal takes only the first; the second stays.
    let removed = png.remove_chunk("duPl").unwrap();
    assert_eq!(removed.data_as_string().unwrap(), String::from("one"));
    assert_eq!(png.chunks().len(), 1);
    let rest = png.chunk_by_type("duPl").unwrap();
    assert_eq!(rest.data_as_string().unwrap(), String::from("two"));
}

#[test]
fn test_lookup_miss_is_none_not_error() {
    let png = testing_png();
    assert!(png.chunk_by_type("noNe").is_none());
}
