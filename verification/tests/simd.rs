use pmi::simd::acceleration_report;
use pmi::simd::crc32::{
    compute, compute_software, generate_crc32_table, is_hardware_accelerated, update_with_table,
};
use pmi::simd::memops::{copy_range, fast_copy, fast_eq, find_pattern, pattern_at};

#[test]
fn test_crc32_empty() {
    assert_eq!(compute(&[]), 0);
}

#[test]
fn test_crc32_known_value() {
    // "IEND" should give 0xAE426082
    let data = b"IEND";
    let crc = compute(data);
    assert_eq!(crc, 0xAE426082);
}

#[test]
fn test_crc32_software_matches() {
    let data = b"Hello, World!";
    let sw = compute_software(data);
    let auto = compute(data);
    assert_eq!(sw, auto);
}

#[test]
fn test_crc32_various_lengths() {
    for len in [1, 2, 3, 4, 7, 8, 15, 16, 31, 32, 63, 64, 100, 1000] {
        let data: Vec<u8> = (0..len).map(|i| (i % 256) as u8).collect();
        let sw = compute_software(&data);
        let auto = compute(&data);
        assert_eq!(sw, auto, "Mismatch for length {}", len);
    }
}

#[test]
fn test_fast_eq() {
    assert!(fast_eq(b"hello", b"hello"));
    assert!(!fast_eq(b"hello", b"world"));
    assert!(!fast_eq(b"hello", b"hell"));
}

#[test]
fn test_fast_eq_large() {
    let a: Vec<u8> = (0..1000).map(|i| (i % 256) as u8).collect();
    let b = a.clone();
    let mut c = a.clone();
    c[500] = 255;

    assert!(fast_eq(&a, &b));
    assert!(!fast_eq(&a, &c));
}

#[test]
fn test_find_pattern() {
    let data = b"Hello, World!";
    assert_eq!(find_pattern(data, b"Wo"), Some(7));
    assert_eq!(find_pattern(data, b"xyz"), None);
    assert_eq!(find_pattern(data, b""), None);
}

#[test]
fn test_find_pattern_jpeg_marker() {
    let data = [0x00, 0xFF, 0xD8, 0xFF, 0xE0];
    assert_eq!(find_pattern(&data, &[0xFF, 0xD8]), Some(1));
}

#[test]
fn test_acceleration_report() {
    let report = acceleration_report();
    assert!(!report.is_empty());
    assert!(report.contains("acceleration") || report.contains("Hardware"));
}

#[test]
fn test_is_hardware_accelerated() {
    let _ = is_hardware_accelerated();
}

#[test]
fn crc32_check_value_of_the_standard() {
    assert_eq!(compute(b"123456789"), 0xCBF43926);
    assert_eq!(compute(b"a"), 0xE8B7BE43);
    assert_eq!(compute(&[0]), 0xD202EF8D);
}

#[test]
fn crc32_table_has_the_standard_entries() {
    let table = generate_crc32_table();
    assert_eq!(table.len(), 256);
    assert_eq!(table[0], 0);
    assert_eq!(table[1], 0x77073096);
    assert_eq!(table[128], 0xEDB88320);
    assert_eq!(table[255], 0x2D02EF8D);
}

#[test]
fn crc32_can_be_computed_in_pieces() {
    let table = generate_crc32_table();
    let first = update_with_table(&table, 0xFFFF_FFFF, b"12345");
    let second = update_with_table(&table, first, b"6789");
    assert_eq!(second ^ 0xFFFF_FFFF, 0xCBF43926);
}

#[test]
fn hardware_acceleration_is_never_used() {
    assert!(!is_hardware_accelerated());
    assert_eq!(acceleration_report(), "No hardware acceleration detected");
}

#[test]
fn find_pattern_gives_the_first_of_several() {
    assert_eq!(find_pattern(b"abcabc", b"bc"), Some(1));
    assert_eq!(find_pattern(b"abc", b"abc"), Some(0));
    assert_eq!(find_pattern(b"abc", b"abcd"), None);
    assert_eq!(find_pattern(b"aab", b"ab"), Some(1));
    assert_eq!(find_pattern(b"", b"a"), None);
    assert!(pattern_at(b"abcabc", b"ca", 2));
    assert!(!pattern_at(b"abcabc", b"ca", 1));
}

#[test]
fn copies_append() {
    let mut dest = vec![1, 2];
    fast_copy(&mut dest, &[3, 4]);
    assert_eq!(dest, vec![1, 2, 3, 4]);
    copy_range(&mut dest, &[9, 8, 7, 6], 1, 3);
    assert_eq!(dest, vec![1, 2, 3, 4, 8, 7]);
    copy_range(&mut dest, &[9, 8, 7, 6], 2, 2);
    assert_eq!(dest.len(), 6);
}

#[test]
fn fast_eq_of_empty_slices() {
    assert!(fast_eq(&[], &[]));
    assert!(!fast_eq(&[], &[0]));
}
