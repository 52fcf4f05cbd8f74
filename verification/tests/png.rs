use pmi::formats::png::{crc32, is_metadata_chunk, parse_chunks, strip, Chunk};

const PNG_SIGNATURE: [u8; 8] = [0x89, 0x50, 0x4E, 0x47, 0x0D, 0x0A, 0x1A, 0x0A];

/// A minimal valid PNG: 1x1 pixel, 8-bit grayscale.
fn create_minimal_png() -> Vec<u8> {
    let mut data = Vec::new();
    data.extend_from_slice(&PNG_SIGNATURE);

    let ihdr_data = [
        0x00, 0x00, 0x00, 0x01, // Width: 1
        0x00, 0x00, 0x00, 0x01, // Height: 1
        0x08, // Bit depth: 8
        0x00, // Color type: grayscale
        0x00, // Compression: deflate
        0x00, // Filter: adaptive
        0x00, // Interlace: none
    ];
    let ihdr = Chunk { chunk_type: *b"IHDR", data: &ihdr_data };
    ihdr.write_to(&mut data);

    let idat_data = [
        0x78, 0x9C, // zlib header
        0x62, 0x60, 0x00, 0x00, // compressed data
        0x00, 0x02, 0x00, 0x01, // adler32
    ];
    let idat = Chunk { chunk_type: *b"IDAT", data: &idat_data };
    idat.write_to(&mut data);

    let iend = Chunk { chunk_type: *b"IEND", data: &[] };
    iend.write_to(&mut data);

    data
}

/// A PNG with a text chunk and a time chunk.
fn create_png_with_metadata() -> Vec<u8> {
    let mut data = Vec::new();
    data.extend_from_slice(&PNG_SIGNATURE);

    let ihdr_data = [
        0x00, 0x00, 0x00, 0x01, 0x00, 0x00, 0x00, 0x01, 0x08, 0x00, 0x00, 0x00, 0x00,
    ];
    let ihdr = Chunk { chunk_type: *b"IHDR", data: &ihdr_data };
    ihdr.write_to(&mut data);

    let text_data = b"Comment\x00This is a test comment";
    let text = Chunk { chunk_type: *b"tEXt", data: text_data };
    text.write_to(&mut data);

    let time_data = [
        0x07, 0xE8, // Year: 2024
        0x06, // Month: June
        0x15, // Day: 21
        0x0C, // Hour: 12
        0x00, // Minute: 0
        0x00, // Second: 0
    ];
    let time = Chunk { chunk_type: *b"tIME", data: &time_data };
    time.write_to(&mut data);

    let idat_data = [0x78, 0x9C, 0x62, 0x60, 0x00, 0x00, 0x00, 0x02, 0x00, 0x01];
    let idat = Chunk { chunk_type: *b"IDAT", data: &idat_data };
    idat.write_to(&mut data);

    let iend = Chunk { chunk_type: *b"IEND", data: &[] };
    iend.write_to(&mut data);

    data
}

#[test]
fn test_crc32() {
    let data = b"IEND";
    let crc = crc32(data);
    assert_eq!(crc, 0xAE426082);
}

#[test]
fn png_test_is_metadata_chunk() {
    assert!(is_metadata_chunk(b"tEXt"));
    assert!(is_metadata_chunk(b"zTXt"));
    assert!(is_metadata_chunk(b"iTXt"));
    assert!(is_metadata_chunk(b"eXIf"));
    assert!(is_metadata_chunk(b"tIME"));

    assert!(!is_metadata_chunk(b"IHDR"));
    assert!(!is_metadata_chunk(b"IDAT"));
    assert!(!is_metadata_chunk(b"IEND"));
    assert!(!is_metadata_chunk(b"PLTE"));
}

#[test]
fn test_strip_minimal_png() {
    let data = create_minimal_png();
    let result = strip(&data, "test.png").unwrap();

    assert!(result.starts_with(&PNG_SIGNATURE));

    let chunks = parse_chunks(&result, "test.png").unwrap();
    let types: Vec<_> = chunks.iter().map(|c| &c.chunk_type).collect();
    assert!(types.contains(&&*b"IHDR"));
    assert!(types.contains(&&*b"IDAT"));
    assert!(types.contains(&&*b"IEND"));
}

#[test]
fn test_strip_png_with_metadata() {
    let data = create_png_with_metadata();
    let result = strip(&data, "test.png").unwrap();

    assert!(result.len() < data.len());

    let chunks = parse_chunks(&result, "test.png").unwrap();
    let types: Vec<_> = chunks.iter().map(|c| &c.chunk_type).collect();
    assert!(!types.contains(&&*b"tEXt"));
    assert!(!types.contains(&&*b"tIME"));

    assert!(types.contains(&&*b"IHDR"));
    assert!(types.contains(&&*b"IDAT"));
    assert!(types.contains(&&*b"IEND"));
}

#[test]
fn png_test_invalid_too_small() {
    let data = [0x89, 0x50];
    let result = strip(&data, "test.png");
    assert!(result.is_err());
}

#[test]
fn test_invalid_signature() {
    let data = [0x00; 20];
    let result = strip(&data, "test.png");
    assert!(result.is_err());
}

#[test]
fn test_chunk_write() {
    let chunk = Chunk { chunk_type: *b"tEST", data: &[0x01, 0x02, 0x03] };
    let mut output = Vec::new();
    chunk.write_to(&mut output);

    // Should be: length (4) + type (4) + data (3) + crc (4) = 15 bytes.
    assert_eq!(output.len(), 15);

    let len = u32::from_be_bytes([output[0], output[1], output[2], output[3]]);
    assert_eq!(len, 3);

    assert_eq!(&output[4..8], b"tEST");
    assert_eq!(&output[8..11], &[0x01, 0x02, 0x03]);
}

#[test]
fn png_iend_chunk_has_the_standard_bytes() {
    let mut output = Vec::new();
    Chunk { chunk_type: *b"IEND", data: &[] }.write_to(&mut output);
    assert_eq!(output, vec![0, 0, 0, 0, b'I', b'E', b'N', b'D', 0xAE, 0x42, 0x60, 0x82]);
}

#[test]
fn png_chunk_checksum_covers_type_and_data() {
    let chunk = Chunk { chunk_type: *b"IDAT", data: &[1, 2, 3] };
    assert_eq!(chunk.calculate_crc(), crc32(&[b'I', b'D', b'A', b'T', 1, 2, 3]));
}

#[test]
fn png_minimal_sample_is_unchanged() {
    let data = create_minimal_png();
    assert_eq!(strip(&data, "a.png").unwrap(), data);
}

#[test]
fn png_metadata_sample_strips_to_minimal() {
    assert_eq!(strip(&create_png_with_metadata(), "a.png").unwrap(), create_minimal_png());
}

#[test]
fn png_strip_is_idempotent_on_samples() {
    let once = strip(&create_png_with_metadata(), "a.png").unwrap();
    let twice = strip(&once, "a.png").unwrap();
    assert_eq!(once, twice);
}

#[test]
fn png_wrong_checksum_is_replaced() {
    let mut data = create_minimal_png();
    let last = data.len() - 1;
    data[last] ^= 0xFF;
    assert_eq!(strip(&data, "a.png").unwrap(), create_minimal_png());
}

#[test]
fn png_other_ancillary_chunks_survive() {
    let mut data = Vec::new();
    data.extend_from_slice(&PNG_SIGNATURE);
    Chunk { chunk_type: *b"IHDR", data: &[0; 13] }.write_to(&mut data);
    Chunk { chunk_type: *b"pHYs", data: &[0, 0, 0, 1, 0, 0, 0, 1, 0] }.write_to(&mut data);
    Chunk { chunk_type: *b"PLTE", data: &[1, 2, 3] }.write_to(&mut data);
    Chunk { chunk_type: *b"sRGB", data: &[0] }.write_to(&mut data);
    Chunk { chunk_type: *b"IDAT", data: &[7, 7] }.write_to(&mut data);
    Chunk { chunk_type: *b"IEND", data: &[] }.write_to(&mut data);
    assert_eq!(strip(&data, "a.png").unwrap(), data);
}

#[test]
fn png_each_metadata_type_is_dropped() {
    for kind in [*b"tEXt", *b"zTXt", *b"iTXt", *b"eXIf", *b"tIME"] {
        let mut data = Vec::new();
        data.extend_from_slice(&PNG_SIGNATURE);
        Chunk { chunk_type: *b"IHDR", data: &[0; 13] }.write_to(&mut data);
        let mut expected = data.clone();
        Chunk { chunk_type: kind, data: &[1, 2, 3, 4] }.write_to(&mut data);
        Chunk { chunk_type: *b"IEND", data: &[] }.write_to(&mut data);
        Chunk { chunk_type: *b"IEND", data: &[] }.write_to(&mut expected);
        assert_eq!(strip(&data, "a.png").unwrap(), expected);
    }
}

#[test]
fn png_parsing_stops_at_iend() {
    let mut data = create_minimal_png();
    data.extend_from_slice(&[1, 2, 3]);
    assert_eq!(strip(&data, "a.png").unwrap(), create_minimal_png());
}

#[test]
fn png_without_ihdr_or_iend_is_rejected() {
    let mut no_ihdr = Vec::new();
    no_ihdr.extend_from_slice(&PNG_SIGNATURE);
    Chunk { chunk_type: *b"IEND", data: &[] }.write_to(&mut no_ihdr);
    assert!(strip(&no_ihdr, "a.png").is_err());

    let mut no_iend = Vec::new();
    no_iend.extend_from_slice(&PNG_SIGNATURE);
    Chunk { chunk_type: *b"IHDR", data: &[0; 13] }.write_to(&mut no_iend);
    assert!(strip(&no_iend, "a.png").is_err());
}

#[test]
fn png_truncated_chunk_is_rejected() {
    let data = create_minimal_png();
    for cut in [9, 13, 20, data.len() - 13, data.len() - 1] {
        assert!(strip(&data[..cut], "a.png").is_err(), "cut at {}", cut);
    }
}
