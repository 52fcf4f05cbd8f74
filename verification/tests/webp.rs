use pmi::formats::webp::{is_metadata_chunk, parse_chunks, strip, update_vp8x_flags, Chunk};

/// A minimal 1x1 lossy WebP.
fn create_minimal_webp() -> Vec<u8> {
    vec![
        // RIFF header.
        b'R', b'I', b'F', b'F', 0x1A, 0x00, 0x00, 0x00, // File size: 26 bytes.
        b'W', b'E', b'B', b'P', // VP8 chunk.
        b'V', b'P', b'8', b' ', 0x0E, 0x00, 0x00, 0x00, // Chunk size: 14 bytes.
        // Minimal VP8 bitstream (1x1 pixel).
        0x30, 0x01, 0x00, 0x9D, 0x01, 0x2A, 0x01, 0x00, 0x01, 0x00, 0x00, 0x34, 0x25, 0x9F,
    ]
}

/// A WebP with an EXIF chunk.
fn create_webp_with_exif() -> Vec<u8> {
    let mut data = Vec::new();

    data.extend_from_slice(b"RIFF");
    data.extend_from_slice(&[0, 0, 0, 0]);
    data.extend_from_slice(b"WEBP");

    data.extend_from_slice(b"VP8X");
    data.extend_from_slice(&10u32.to_le_bytes());
    data.push(0x28); // Flags: EXIF (0x20) + XMP (0x08) present.
    data.extend_from_slice(&[0, 0, 0]);
    data.extend_from_slice(&[0, 0, 0]);
    data.extend_from_slice(&[0, 0, 0]);

    data.extend_from_slice(b"VP8 ");
    let vp8_data = [
        0x30, 0x01, 0x00, 0x9D, 0x01, 0x2A, 0x01, 0x00, 0x01, 0x00, 0x00, 0x34, 0x25, 0x9F,
    ];
    data.extend_from_slice(&(vp8_data.len() as u32).to_le_bytes());
    data.extend_from_slice(&vp8_data);

    data.extend_from_slice(b"EXIF");
    let exif_data = b"Exif\x00\x00Test EXIF";
    data.extend_from_slice(&(exif_data.len() as u32).to_le_bytes());
    data.extend_from_slice(exif_data);
    if exif_data.len() % 2 != 0 {
        data.push(0);
    }

    let file_size = (data.len() - 8) as u32;
    data[4..8].copy_from_slice(&file_size.to_le_bytes());

    data
}

#[test]
fn test_strip_minimal_webp() {
    let data = create_minimal_webp();
    let result = strip(&data, "test.webp").unwrap();

    assert!(result.starts_with(b"RIFF"));
    assert_eq!(&result[8..12], b"WEBP");
}

#[test]
fn test_strip_webp_with_exif() {
    let data = create_webp_with_exif();
    let result = strip(&data, "test.webp").unwrap();

    assert!(result.len() < data.len());

    let chunks = parse_chunks(&result, "test.webp").unwrap();
    let has_exif = chunks.iter().any(|c| &c.fourcc == b"EXIF");
    assert!(!has_exif, "EXIF chunk should be removed");

    let vp8x = chunks.iter().find(|c| &c.fourcc == b"VP8X");
    if let Some(vp8x) = vp8x {
        let flags = vp8x.data[0];
        assert_eq!(flags & 0x28, 0, "EXIF and XMP flags should be cleared");
    }
}

#[test]
fn webp_test_invalid_too_small() {
    let data = b"RIFF";
    let result = strip(data, "test.webp");
    assert!(result.is_err());
}

#[test]
fn test_invalid_riff_header() {
    let data = [0x00; 20];
    let result = strip(&data, "test.webp");
    assert!(result.is_err());
}

#[test]
fn test_invalid_webp_identifier() {
    let mut data = create_minimal_webp();
    data[8..12].copy_from_slice(b"XXXX");
    let result = strip(&data, "test.webp");
    assert!(result.is_err());
}

#[test]
fn webp_test_is_metadata_chunk() {
    assert!(is_metadata_chunk(b"EXIF"));
    assert!(is_metadata_chunk(b"XMP "));

    assert!(!is_metadata_chunk(b"VP8 "));
    assert!(!is_metadata_chunk(b"VP8L"));
    assert!(!is_metadata_chunk(b"VP8X"));
    assert!(!is_metadata_chunk(b"ALPH"));
    assert!(!is_metadata_chunk(b"ICCP"));
}

#[test]
fn test_update_vp8x_flags() {
    let flags = [0x28, 0x00, 0x00, 0x00]; // EXIF + XMP flags.
    let updated = update_vp8x_flags(&flags);
    assert_eq!(updated[0] & 0x28, 0);
}

#[test]
fn test_chunk_padding() {
    let chunk = Chunk {
        fourcc: *b"TEST",
        data: &[0x01, 0x02, 0x03], // Odd length.
    };
    assert_eq!(chunk.padded_size(), 4); // Padded to even.

    let mut output = Vec::new();
    chunk.write_to(&mut output);
    // 4 (fourcc) + 4 (size) + 3 (data) + 1 (padding) = 12.
    assert_eq!(output.len(), 12);
}

#[test]
fn webp_minimal_sample_is_unchanged() {
    let data = create_minimal_webp();
    assert_eq!(strip(&data, "a.webp").unwrap(), data);
}

#[test]
fn webp_exif_sample_gives_the_exact_bytes() {
    let result = strip(&create_webp_with_exif(), "a.webp").unwrap();
    let mut expected = Vec::new();
    expected.extend_from_slice(b"RIFF");
    expected.extend_from_slice(&44u32.to_le_bytes());
    expected.extend_from_slice(b"WEBP");
    expected.extend_from_slice(b"VP8X");
    expected.extend_from_slice(&10u32.to_le_bytes());
    expected.extend_from_slice(&[0; 10]);
    expected.extend_from_slice(&create_minimal_webp()[12..]);
    assert_eq!(result, expected);
}

#[test]
fn webp_strip_is_idempotent_on_samples() {
    let once = strip(&create_webp_with_exif(), "a.webp").unwrap();
    let twice = strip(&once, "a.webp").unwrap();
    assert_eq!(once, twice);
}

#[test]
fn webp_other_flag_bits_and_dimensions_are_left() {
    let updated = update_vp8x_flags(&[0xFF, 1, 2, 3, 4, 5, 6, 7, 8, 9]);
    assert_eq!(updated, vec![0xD7, 1, 2, 3, 4, 5, 6, 7, 8, 9]);
    assert_eq!(update_vp8x_flags(&[0x28, 0, 0]), vec![0x00, 0, 0]);
    assert_eq!(update_vp8x_flags(&[0xFF]), vec![0xD7]);
    assert_eq!(update_vp8x_flags(&[]), Vec::<u8>::new());
}

#[test]
fn webp_size_field_is_patched() {
    let mut data = create_minimal_webp();
    data[4..8].copy_from_slice(&[0xFF, 0xFF, 0xFF, 0x7F]);
    assert_eq!(strip(&data, "a.webp").unwrap(), create_minimal_webp());
}

#[test]
fn webp_xmp_chunk_is_dropped_and_iccp_and_vp8l_survive() {
    let mut data = Vec::new();
    data.extend_from_slice(b"RIFF\0\0\0\0WEBP");
    Chunk { fourcc: *b"ICCP", data: &[1, 2, 3] }.write_to(&mut data);
    Chunk { fourcc: *b"VP8L", data: &[4, 5] }.write_to(&mut data);
    let kept = data.len();
    Chunk { fourcc: *b"XMP ", data: &[6, 7, 8, 9] }.write_to(&mut data);
    let result = strip(&data, "a.webp").unwrap();
    assert_eq!(&result[12..], &data[12..kept]);
    assert_eq!(&result[4..8], &((kept - 8) as u32).to_le_bytes());
}

#[test]
fn webp_odd_chunk_without_its_pad_byte_gets_one() {
    let mut data = Vec::new();
    data.extend_from_slice(b"RIFF\0\0\0\0WEBP");
    data.extend_from_slice(b"VP8 ");
    data.extend_from_slice(&3u32.to_le_bytes());
    data.extend_from_slice(&[1, 2, 3]);
    let result = strip(&data, "a.webp").unwrap();
    assert_eq!(result.len(), data.len() + 1);
    assert_eq!(result[result.len() - 1], 0);
}

#[test]
fn webp_without_image_chunk_is_rejected() {
    let mut data = Vec::new();
    data.extend_from_slice(b"RIFF\0\0\0\0WEBP");
    Chunk { fourcc: *b"ICCP", data: &[1, 2] }.write_to(&mut data);
    assert!(strip(&data, "a.webp").is_err());
    assert!(strip(b"RIFF\0\0\0\0WEBP", "a.webp").is_err());
}

#[test]
fn webp_truncated_chunk_is_rejected() {
    let data = create_minimal_webp();
    assert!(strip(&data[..18], "a.webp").is_err());
    assert!(strip(&data[..25], "a.webp").is_err());
}

#[test]
fn webp_fewer_than_four_trailing_bytes_are_ignored() {
    let mut data = create_minimal_webp();
    data.extend_from_slice(&[1, 2, 3]);
    assert_eq!(strip(&data, "a.webp").unwrap(), create_minimal_webp());
}

#[test]
fn webp_short_extended_header_has_its_flags_cleared() {
    let mut data = Vec::new();
    data.extend_from_slice(b"RIFF\0\0\0\0WEBP");
    data.extend_from_slice(b"VP8X");
    data.extend_from_slice(&1u32.to_le_bytes());
    data.extend_from_slice(&[0x28, 0]);
    let result = strip(&data, "a.webp").unwrap();
    assert_eq!(&result[12..], &[b'V', b'P', b'8', b'X', 1, 0, 0, 0, 0x00, 0]);
}
