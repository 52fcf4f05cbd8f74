use pmi::formats::strip_metadata;
use pmi::formats::tiff::{
    is_metadata_tag, read_offset_values, strip, type_size, ByteOrder, IfdEntry, COMPRESSION,
    EXIF_IFD, GPS_IFD, IMAGE_LENGTH, IMAGE_WIDTH, MAKE, MODEL, PHOTOMETRIC_INTERPRETATION,
    SOFTWARE, STRIP_BYTE_COUNTS, STRIP_OFFSETS,
};

const LITTLE_ENDIAN: [u8; 2] = [0x49, 0x49];
const BIG_ENDIAN: [u8; 2] = [0x4D, 0x4D];

fn entry(data: &mut Vec<u8>, tag: u16, field_type: u16, count: u32, value: [u8; 4]) {
    data.extend_from_slice(&tag.to_le_bytes());
    data.extend_from_slice(&field_type.to_le_bytes());
    data.extend_from_slice(&count.to_le_bytes());
    data.extend_from_slice(&value);
}

/// A minimal valid TIFF: one directory of six entries and one strip.
fn create_minimal_tiff() -> Vec<u8> {
    let mut data = Vec::new();

    data.extend_from_slice(&LITTLE_ENDIAN);
    data.extend_from_slice(&42u16.to_le_bytes());
    data.extend_from_slice(&8u32.to_le_bytes());

    data.extend_from_slice(&6u16.to_le_bytes());

    entry(&mut data, IMAGE_WIDTH, 3, 1, 1u32.to_le_bytes());
    entry(&mut data, IMAGE_LENGTH, 3, 1, 1u32.to_le_bytes());
    entry(&mut data, COMPRESSION, 3, 1, 1u32.to_le_bytes());
    entry(&mut data, PHOTOMETRIC_INTERPRETATION, 3, 1, 1u32.to_le_bytes());

    let strip_data_offset = data.len() + 12 + 12 + 4;
    entry(&mut data, STRIP_OFFSETS, 4, 1, (strip_data_offset as u32).to_le_bytes());
    entry(&mut data, STRIP_BYTE_COUNTS, 4, 1, 1u32.to_le_bytes());

    data.extend_from_slice(&0u32.to_le_bytes());
    data.push(0xFF);

    data
}

/// A TIFF with two metadata entries.
fn create_tiff_with_metadata() -> Vec<u8> {
    let mut data = Vec::new();

    data.extend_from_slice(&LITTLE_ENDIAN);
    data.extend_from_slice(&42u16.to_le_bytes());
    data.extend_from_slice(&8u32.to_le_bytes());

    data.extend_from_slice(&8u16.to_le_bytes());

    entry(&mut data, IMAGE_WIDTH, 3, 1, 1u32.to_le_bytes());
    entry(&mut data, IMAGE_LENGTH, 3, 1, 1u32.to_le_bytes());
    entry(&mut data, COMPRESSION, 3, 1, 1u32.to_le_bytes());
    entry(&mut data, PHOTOMETRIC_INTERPRETATION, 3, 1, 1u32.to_le_bytes());

    let strip_data_offset = data.len() + 12 * 4 + 4;
    entry(&mut data, STRIP_OFFSETS, 4, 1, (strip_data_offset as u32).to_le_bytes());
    entry(&mut data, STRIP_BYTE_COUNTS, 4, 1, 1u32.to_le_bytes());

    entry(&mut data, MAKE, 2, 5, *b"Test");
    entry(&mut data, SOFTWARE, 2, 4, *b"PMI\0");

    data.extend_from_slice(&0u32.to_le_bytes());
    data.push(0xFF);

    data
}

#[test]
fn test_byte_order_little() {
    let bo = ByteOrder::Little;
    assert_eq!(bo.read_u16(&[0x01, 0x02]), 0x0201);
    assert_eq!(bo.read_u32(&[0x01, 0x02, 0x03, 0x04]), 0x04030201);
    assert_eq!(bo.write_u16(0x0201), [0x01, 0x02]);
    assert_eq!(bo.write_u32(0x04030201), [0x01, 0x02, 0x03, 0x04]);
}

#[test]
fn test_byte_order_big() {
    let bo = ByteOrder::Big;
    assert_eq!(bo.read_u16(&[0x01, 0x02]), 0x0102);
    assert_eq!(bo.read_u32(&[0x01, 0x02, 0x03, 0x04]), 0x01020304);
    assert_eq!(bo.write_u16(0x0102), [0x01, 0x02]);
    assert_eq!(bo.write_u32(0x01020304), [0x01, 0x02, 0x03, 0x04]);
}

#[test]
fn test_is_metadata_tag() {
    assert!(is_metadata_tag(MAKE));
    assert!(is_metadata_tag(MODEL));
    assert!(is_metadata_tag(SOFTWARE));
    assert!(is_metadata_tag(EXIF_IFD));
    assert!(is_metadata_tag(GPS_IFD));

    assert!(!is_metadata_tag(IMAGE_WIDTH));
    assert!(!is_metadata_tag(IMAGE_LENGTH));
    assert!(!is_metadata_tag(COMPRESSION));
}

#[test]
fn test_strip_minimal_tiff() {
    let data = create_minimal_tiff();
    let result = strip(&data, "test.tiff").unwrap();

    assert!(result.starts_with(&LITTLE_ENDIAN) || result.starts_with(&BIG_ENDIAN));
}

#[test]
fn test_strip_tiff_with_metadata() {
    let data = create_tiff_with_metadata();
    let result = strip(&data, "test.tiff").unwrap();

    assert!(
        result.starts_with(&LITTLE_ENDIAN) || result.starts_with(&BIG_ENDIAN),
        "Result should be a valid TIFF"
    );
    assert!(!result.is_empty(), "Result should not be empty");
}

#[test]
fn tiff_test_invalid_too_small() {
    let data = [0x49, 0x49];
    let result = strip(&data, "test.tiff");
    assert!(result.is_err());
}

#[test]
fn test_invalid_byte_order() {
    let data = [0x00, 0x00, 0x2A, 0x00, 0x08, 0x00, 0x00, 0x00];
    let result = strip(&data, "test.tiff");
    assert!(result.is_err());
}

#[test]
fn test_invalid_magic() {
    let data = [0x49, 0x49, 0x00, 0x00, 0x08, 0x00, 0x00, 0x00];
    let result = strip(&data, "test.tiff");
    assert!(result.is_err());
}

#[test]
fn test_type_size() {
    assert_eq!(type_size(1), 1); // BYTE
    assert_eq!(type_size(2), 1); // ASCII
    assert_eq!(type_size(3), 2); // SHORT
    assert_eq!(type_size(4), 4); // LONG
    assert_eq!(type_size(5), 8); // RATIONAL
    assert_eq!(type_size(12), 8); // DOUBLE
}

#[test]
fn tiff_minimal_sample_is_unchanged() {
    let data = create_minimal_tiff();
    assert_eq!(data.len(), 87);
    assert_eq!(strip(&data, "a.tif").unwrap(), data);
}

#[test]
fn tiff_metadata_sample_strips_to_the_minimal_sample() {
    let data = create_tiff_with_metadata();
    assert_eq!(data.len(), 111);
    let result = strip(&data, "a.tif").unwrap();
    assert_eq!(result.len(), 87);
    assert_eq!(result, create_minimal_tiff());
    assert!(!result.windows(4).any(|w| w == b"Test"));
    assert!(!result.windows(4).any(|w| w == b"PMI\0"));
}

/// A sample with a strip of 64 bytes, with or without metadata entries.
fn large_tiff(with_metadata: bool) -> Vec<u8> {
    let entries: u16 = if with_metadata { 5 } else { 3 };
    let strip_at = 8 + 2 + 12 * (entries as u32) + 4;
    let mut data = Vec::new();
    data.extend_from_slice(&LITTLE_ENDIAN);
    data.extend_from_slice(&42u16.to_le_bytes());
    data.extend_from_slice(&8u32.to_le_bytes());
    data.extend_from_slice(&entries.to_le_bytes());
    entry(&mut data, IMAGE_WIDTH, 3, 1, 8u32.to_le_bytes());
    if with_metadata {
        entry(&mut data, MAKE, 2, 4, *b"Cam\0");
    }
    entry(&mut data, STRIP_OFFSETS, 4, 1, strip_at.to_le_bytes());
    entry(&mut data, STRIP_BYTE_COUNTS, 4, 1, 64u32.to_le_bytes());
    if with_metadata {
        entry(&mut data, SOFTWARE, 2, 4, *b"PMI\0");
    }
    data.extend_from_slice(&0u32.to_le_bytes());
    for i in 0..64u8 {
        data.push(i);
    }
    data
}

#[test]
fn tiff_metadata_entries_are_dropped_and_the_strip_is_moved() {
    let data = large_tiff(true);
    let result = strip(&data, "a.tif").unwrap();
    assert_eq!(result.len(), data.len() - 24);
    assert_eq!(&result[..8], &data[..8]);
    assert_eq!(&result[8..10], &3u16.to_le_bytes());
    assert_eq!(&result[10..22], &data[10..22]);
    assert_eq!(&result[22..30], &data[34..42]);
    assert_eq!(&result[30..34], &50u32.to_le_bytes());
    assert_eq!(&result[34..46], &data[46..58]);
    assert_eq!(&result[46..50], &[0, 0, 0, 0]);
    assert_eq!(&result[50..], &data[74..]);
    assert_eq!(result, large_tiff(false));
    assert!(!result.windows(4).any(|w| w == b"Cam\0"));
    assert!(!result.windows(4).any(|w| w == b"PMI\0"));
}

#[test]
fn tiff_without_metadata_is_unchanged() {
    let data = large_tiff(false);
    assert_eq!(strip(&data, "a.tif").unwrap(), data);
}

#[test]
fn tiff_big_endian_header_is_kept() {
    let mut data = Vec::new();
    data.extend_from_slice(&BIG_ENDIAN);
    data.extend_from_slice(&42u16.to_be_bytes());
    data.extend_from_slice(&8u32.to_be_bytes());
    data.extend_from_slice(&1u16.to_be_bytes());
    data.extend_from_slice(&IMAGE_WIDTH.to_be_bytes());
    data.extend_from_slice(&3u16.to_be_bytes());
    data.extend_from_slice(&1u32.to_be_bytes());
    data.extend_from_slice(&[0, 1, 0, 0]);
    data.extend_from_slice(&0u32.to_be_bytes());
    assert_eq!(strip(&data, "a.tif").unwrap(), data);
}

#[test]
fn tiff_truncated_directory_is_rejected() {
    let data = create_minimal_tiff();
    assert!(strip(&data[..9], "a.tif").is_err());
    assert!(strip(&data[..40], "a.tif").is_err());
    assert!(strip(&data[..84], "a.tif").is_err());
}

#[test]
fn tiff_first_directory_outside_the_file_is_rejected() {
    let data = [0x49, 0x49, 0x2A, 0x00, 0x08, 0x00, 0x00, 0x00];
    assert!(strip(&data, "a.tif").is_err());
}

#[test]
fn tiff_directory_chain_that_loops_is_rejected() {
    let mut data = Vec::new();
    data.extend_from_slice(&LITTLE_ENDIAN);
    data.extend_from_slice(&42u16.to_le_bytes());
    data.extend_from_slice(&8u32.to_le_bytes());
    data.extend_from_slice(&0u16.to_le_bytes());
    data.extend_from_slice(&8u32.to_le_bytes());
    assert!(strip(&data, "loop.tif").is_err());
}

#[test]
fn tiff_values_are_read_inline_and_by_offset() {
    let mut data = vec![0u8; 16];
    data[8..16].copy_from_slice(&[1, 0, 2, 0, 3, 0, 4, 0]);
    let inline_short = IfdEntry { tag: 273, field_type: 3, count: 2, value_offset: [5, 0, 6, 0] };
    assert_eq!(read_offset_values(&data, &inline_short, ByteOrder::Little), vec![5, 6]);
    let inline_long = IfdEntry { tag: 273, field_type: 4, count: 1, value_offset: [0, 0, 1, 0] };
    assert_eq!(read_offset_values(&data, &inline_long, ByteOrder::Big), vec![256]);
    let shorts = IfdEntry { tag: 273, field_type: 3, count: 4, value_offset: [8, 0, 0, 0] };
    assert_eq!(read_offset_values(&data, &shorts, ByteOrder::Little), vec![1, 2, 3, 4]);
    let longs = IfdEntry { tag: 273, field_type: 4, count: 3, value_offset: [8, 0, 0, 0] };
    assert_eq!(read_offset_values(&data, &longs, ByteOrder::Little), vec![0x20001, 0x40003]);
    let far = IfdEntry { tag: 273, field_type: 4, count: 2, value_offset: [200, 0, 0, 0] };
    assert_eq!(read_offset_values(&data, &far, ByteOrder::Little), Vec::<u32>::new());
    let other = IfdEntry { tag: 273, field_type: 5, count: 1, value_offset: [8, 0, 0, 0] };
    assert_eq!(read_offset_values(&data, &other, ByteOrder::Little), Vec::<u32>::new());
}

/// A sample with eight kept entries, two metadata entries and a strip of
/// 64 bytes behind the directory.
fn wide_tiff() -> Vec<u8> {
    let strip_at: u32 = 8 + 2 + 12 * 10 + 4;
    let mut data = Vec::new();
    data.extend_from_slice(&LITTLE_ENDIAN);
    data.extend_from_slice(&42u16.to_le_bytes());
    data.extend_from_slice(&8u32.to_le_bytes());
    data.extend_from_slice(&10u16.to_le_bytes());
    entry(&mut data, IMAGE_WIDTH, 3, 1, 8u32.to_le_bytes());
    entry(&mut data, IMAGE_LENGTH, 3, 1, 8u32.to_le_bytes());
    entry(&mut data, 258, 3, 1, 8u32.to_le_bytes());
    entry(&mut data, COMPRESSION, 3, 1, 1u32.to_le_bytes());
    entry(&mut data, PHOTOMETRIC_INTERPRETATION, 3, 1, 1u32.to_le_bytes());
    entry(&mut data, MAKE, 2, 4, *b"Cam\0");
    entry(&mut data, STRIP_OFFSETS, 4, 1, strip_at.to_le_bytes());
    entry(&mut data, 277, 3, 1, 1u32.to_le_bytes());
    entry(&mut data, STRIP_BYTE_COUNTS, 4, 1, 64u32.to_le_bytes());
    entry(&mut data, SOFTWARE, 2, 4, *b"PMI\0");
    data.extend_from_slice(&0u32.to_le_bytes());
    for i in 0..64u8 {
        data.push(i);
    }
    data
}

#[test]
fn tiff_strip_offsets_point_at_the_moved_strip() {
    let data = wide_tiff();
    assert_eq!(data.len(), 198);
    let once = strip(&data, "a.tif").unwrap();
    assert_eq!(once.len(), 174);
    assert_eq!(&once[70..78], &data[82..90]);
    assert_eq!(&once[78..82], &110u32.to_le_bytes());
    assert_eq!(&once[82..94], &data[94..106]);
    assert_eq!(&once[110..], &data[134..]);
    let twice = strip(&once, "a.tif").unwrap();
    assert_eq!(twice, once);
}

#[test]
fn tiff_directories_are_linked_in_order() {
    let mut data = Vec::new();
    data.extend_from_slice(&LITTLE_ENDIAN);
    data.extend_from_slice(&42u16.to_le_bytes());
    data.extend_from_slice(&8u32.to_le_bytes());
    data.extend_from_slice(&1u16.to_le_bytes());
    entry(&mut data, IMAGE_WIDTH, 3, 1, 5u32.to_le_bytes());
    data.extend_from_slice(&30u32.to_le_bytes());
    data.extend_from_slice(&[9, 9, 9, 9]);
    data.extend_from_slice(&2u16.to_le_bytes());
    entry(&mut data, MAKE, 2, 2, *b"x\0\0\0");
    entry(&mut data, IMAGE_LENGTH, 3, 1, 7u32.to_le_bytes());
    data.extend_from_slice(&0u32.to_le_bytes());

    let mut expected = Vec::new();
    expected.extend_from_slice(&data[..8]);
    expected.extend_from_slice(&1u16.to_le_bytes());
    entry(&mut expected, IMAGE_WIDTH, 3, 1, 5u32.to_le_bytes());
    expected.extend_from_slice(&26u32.to_le_bytes());
    expected.extend_from_slice(&1u16.to_le_bytes());
    entry(&mut expected, IMAGE_LENGTH, 3, 1, 7u32.to_le_bytes());
    expected.extend_from_slice(&0u32.to_le_bytes());

    let result = strip(&data, "a.tif").unwrap();
    assert_eq!(result, expected);
    assert_eq!(strip(&result, "a.tif").unwrap(), result);
}

#[test]
fn tiff_values_outside_their_entry_are_moved_and_pointed_at() {
    let mut data = Vec::new();
    data.extend_from_slice(&BIG_ENDIAN);
    data.extend_from_slice(&42u16.to_be_bytes());
    data.extend_from_slice(&8u32.to_be_bytes());
    data.extend_from_slice(&3u16.to_be_bytes());
    for (tag, field_type, count, value) in
        [(270u16, 2u16, 6u32, 60u32), (282, 5, 1, 52), (IMAGE_WIDTH, 4, 1, 9)]
    {
        data.extend_from_slice(&tag.to_be_bytes());
        data.extend_from_slice(&field_type.to_be_bytes());
        data.extend_from_slice(&count.to_be_bytes());
        data.extend_from_slice(&value.to_be_bytes());
    }
    data.extend_from_slice(&0u32.to_be_bytes());
    assert_eq!(data.len(), 50);
    data.extend_from_slice(&[0xEE, 0xEE]);
    data.extend_from_slice(&[0, 0, 0, 72, 0, 0, 0, 1]);
    data.extend_from_slice(b"secret");

    let mut expected = Vec::new();
    expected.extend_from_slice(&data[..8]);
    expected.extend_from_slice(&2u16.to_be_bytes());
    expected.extend_from_slice(&[1, 26, 0, 5, 0, 0, 0, 1, 0, 0, 0, 38]);
    expected.extend_from_slice(&data[34..46]);
    expected.extend_from_slice(&0u32.to_be_bytes());
    expected.extend_from_slice(&[0, 0, 0, 72, 0, 0, 0, 1]);

    let result = strip(&data, "a.tif").unwrap();
    assert_eq!(result, expected);
    assert!(!result.windows(6).any(|w| w == b"secret"));
    assert_eq!(strip(&result, "a.tif").unwrap(), result);
}

/// A file of two strips whose offsets and lengths stand outside their
/// entries; the strips stand in the file in the other order.
fn two_strips(offsets_type: u16) -> Vec<u8> {
    let wide = offsets_type == 4;
    let mut data = Vec::new();
    data.extend_from_slice(&LITTLE_ENDIAN);
    data.extend_from_slice(&42u16.to_le_bytes());
    data.extend_from_slice(&8u32.to_le_bytes());
    data.extend_from_slice(&2u16.to_le_bytes());
    if wide {
        entry(&mut data, STRIP_OFFSETS, 4, 2, 38u32.to_le_bytes());
    } else {
        entry(&mut data, STRIP_OFFSETS, 3, 2, [60, 0, 54, 0]);
    }
    entry(&mut data, STRIP_BYTE_COUNTS, 4, 2, 46u32.to_le_bytes());
    data.extend_from_slice(&0u32.to_le_bytes());
    data.extend_from_slice(&60u32.to_le_bytes());
    data.extend_from_slice(&54u32.to_le_bytes());
    data.extend_from_slice(&3u32.to_le_bytes());
    data.extend_from_slice(&2u32.to_le_bytes());
    data.extend_from_slice(&[0xD1, 0xD2, 7, 7, 7, 7, 0xA1, 0xA2, 0xA3]);
    data
}

#[test]
fn tiff_strips_are_copied_in_the_order_of_their_offsets() {
    let result = strip(&two_strips(4), "a.tif").unwrap();
    let mut expected = Vec::new();
    expected.extend_from_slice(&two_strips(4)[..10]);
    entry(&mut expected, STRIP_OFFSETS, 4, 2, 38u32.to_le_bytes());
    entry(&mut expected, STRIP_BYTE_COUNTS, 4, 2, 51u32.to_le_bytes());
    expected.extend_from_slice(&0u32.to_le_bytes());
    expected.extend_from_slice(&46u32.to_le_bytes());
    expected.extend_from_slice(&49u32.to_le_bytes());
    expected.extend_from_slice(&[0xA1, 0xA2, 0xA3, 0xD1, 0xD2]);
    expected.extend_from_slice(&3u32.to_le_bytes());
    expected.extend_from_slice(&2u32.to_le_bytes());
    assert_eq!(result, expected);
    assert_eq!(strip(&result, "a.tif").unwrap(), result);
}

#[test]
fn tiff_short_offsets_inside_their_entry_are_changed_in_place() {
    let result = strip(&two_strips(3), "a.tif").unwrap();
    let mut expected = Vec::new();
    expected.extend_from_slice(&two_strips(3)[..10]);
    entry(&mut expected, STRIP_OFFSETS, 3, 2, [38, 0, 41, 0]);
    entry(&mut expected, STRIP_BYTE_COUNTS, 4, 2, 43u32.to_le_bytes());
    expected.extend_from_slice(&0u32.to_le_bytes());
    expected.extend_from_slice(&[0xA1, 0xA2, 0xA3, 0xD1, 0xD2]);
    expected.extend_from_slice(&3u32.to_le_bytes());
    expected.extend_from_slice(&2u32.to_le_bytes());
    assert_eq!(result, expected);
    assert_eq!(strip(&result, "a.tif").unwrap(), result);
}

#[test]
fn tiff_entries_that_cannot_be_moved_are_rejected() {
    let mut no_counts = create_minimal_tiff();
    no_counts[70..72].copy_from_slice(&IMAGE_LENGTH.to_le_bytes());
    assert!(strip(&no_counts, "a.tif").is_err());

    let mut strip_outside = create_minimal_tiff();
    strip_outside[78..82].copy_from_slice(&2u32.to_le_bytes());
    assert!(strip(&strip_outside, "a.tif").is_err());

    let mut offsets_of_bytes = create_minimal_tiff();
    offsets_of_bytes[60..62].copy_from_slice(&1u16.to_le_bytes());
    assert!(strip(&offsets_of_bytes, "a.tif").is_err());

    let mut value_outside = create_minimal_tiff();
    value_outside[12..14].copy_from_slice(&5u16.to_le_bytes());
    value_outside[18..22].copy_from_slice(&80u32.to_le_bytes());
    assert!(strip(&value_outside, "a.tif").is_err());

    let mut too_few_counts = two_strips(4);
    too_few_counts[26..30].copy_from_slice(&1u32.to_le_bytes());
    assert!(strip(&too_few_counts, "a.tif").is_err());
}

#[test]
fn tiff_metadata_sample_loses_its_tags_and_their_bytes() {
    let data = create_tiff_with_metadata();
    let result = strip_metadata(&data, "test.tiff").unwrap();
    assert!(result.data.len() < data.len());
    assert_eq!(result.bytes_removed, 24);
    assert_eq!(&result.data[8..10], &6u16.to_le_bytes());
    let tags: Vec<u16> = (0..6)
        .map(|i| u16::from_le_bytes([result.data[10 + 12 * i], result.data[11 + 12 * i]]))
        .collect();
    assert_eq!(tags, vec![256, 257, 259, 262, 273, 279]);
    let strip_at = u32::from_le_bytes([
        result.data[66],
        result.data[67],
        result.data[68],
        result.data[69],
    ]) as usize;
    assert_eq!(result.data[strip_at], 0xFF);
    let again = strip_metadata(&result.data, "test.tiff").unwrap();
    assert_eq!(again.bytes_removed, 0);
    assert_eq!(again.data, result.data);
}
