use pmi::error::Error;
use pmi::formats::{
    detect_format, detect_format_from_extension, format_for_extension, is_supported_format,
    strip_metadata, ImageFormat, StripResult,
};

#[test]
fn test_detect_jpeg() {
    let data = [0xFF, 0xD8, 0xFF, 0xE0, 0x00, 0x10, 0x4A, 0x46, 0x49, 0x46, 0x00, 0x01];
    assert_eq!(detect_format(&data), Some(ImageFormat::Jpeg));
}

#[test]
fn test_detect_png() {
    let data = [0x89, 0x50, 0x4E, 0x47, 0x0D, 0x0A, 0x1A, 0x0A, 0x00, 0x00, 0x00, 0x0D];
    assert_eq!(detect_format(&data), Some(ImageFormat::Png));
}

#[test]
fn test_detect_gif87a() {
    let data = b"GIF87atest12";
    assert_eq!(detect_format(data), Some(ImageFormat::Gif));
}

#[test]
fn test_detect_gif89a() {
    let data = b"GIF89atest12";
    assert_eq!(detect_format(data), Some(ImageFormat::Gif));
}

#[test]
fn test_detect_webp() {
    let mut data = vec![0u8; 12];
    data[..4].copy_from_slice(b"RIFF");
    data[8..12].copy_from_slice(b"WEBP");
    assert_eq!(detect_format(&data), Some(ImageFormat::WebP));
}

#[test]
fn test_detect_tiff_le() {
    let data = [0x49, 0x49, 0x2A, 0x00, 0x08, 0x00, 0x00, 0x00, 0x00, 0x00, 0x00, 0x00];
    assert_eq!(detect_format(&data), Some(ImageFormat::Tiff));
}

#[test]
fn test_detect_tiff_be() {
    let data = [0x4D, 0x4D, 0x00, 0x2A, 0x00, 0x00, 0x00, 0x08, 0x00, 0x00, 0x00, 0x00];
    assert_eq!(detect_format(&data), Some(ImageFormat::Tiff));
}

#[test]
fn test_detect_unknown() {
    let data = [0x00, 0x00, 0x00, 0x00, 0x00, 0x00, 0x00, 0x00, 0x00, 0x00, 0x00, 0x00];
    assert_eq!(detect_format(&data), None);
}

#[test]
fn test_detect_too_short() {
    let data = [0xFF, 0xD8];
    assert_eq!(detect_format(&data), None);
}

#[test]
fn test_detect_from_extension_jpeg() {
    assert_eq!(detect_format_from_extension("photo.jpg"), Some(ImageFormat::Jpeg));
    assert_eq!(detect_format_from_extension("photo.JPEG"), Some(ImageFormat::Jpeg));
}

#[test]
fn test_detect_from_extension_png() {
    assert_eq!(detect_format_from_extension("image.png"), Some(ImageFormat::Png));
}

#[test]
fn test_detect_from_extension_unknown() {
    assert_eq!(detect_format_from_extension("file.bmp"), None);
}

#[test]
fn test_format_name() {
    assert_eq!(ImageFormat::Jpeg.name(), "JPEG");
    assert_eq!(ImageFormat::Png.name(), "PNG");
    assert_eq!(ImageFormat::Gif.name(), "GIF");
    assert_eq!(ImageFormat::WebP.name(), "WebP");
    assert_eq!(ImageFormat::Tiff.name(), "TIFF");
}

#[test]
fn test_format_extensions() {
    assert!(ImageFormat::Jpeg.extensions().contains(&"jpg"));
    assert!(ImageFormat::Jpeg.extensions().contains(&"jpeg"));
    assert!(ImageFormat::Png.extensions().contains(&"png"));
}

#[test]
fn test_is_supported_format() {
    let jpeg = [0xFF, 0xD8, 0xFF, 0xE0, 0x00, 0x10, 0x4A, 0x46, 0x49, 0x46, 0x00, 0x01];
    assert!(is_supported_format(&jpeg));

    let unknown = [0x00; 12];
    assert!(!is_supported_format(&unknown));
}

#[test]
fn detect_needs_twelve_bytes() {
    let jpeg = [0xFF, 0xD8, 0xFF, 0xE0, 0x00, 0x10, 0x4A, 0x46, 0x49, 0x46, 0x00];
    assert_eq!(detect_format(&jpeg), None);
    assert_eq!(detect_format(b"GIF89a"), None);
    assert_eq!(detect_format(&[]), None);
}

#[test]
fn detect_ignores_the_riff_size_field() {
    assert_eq!(detect_format(b"RIFF\xFF\xFF\xFF\xFFWEBP"), Some(ImageFormat::WebP));
    assert_eq!(detect_format(b"RIFF\0\0\0\0WAVE"), None);
}

#[test]
fn extension_lists_are_complete() {
    assert_eq!(ImageFormat::Jpeg.extensions(), vec!["jpg", "jpeg", "jpe", "jfif"]);
    assert_eq!(ImageFormat::Png.extensions(), vec!["png"]);
    assert_eq!(ImageFormat::Gif.extensions(), vec!["gif"]);
    assert_eq!(ImageFormat::WebP.extensions(), vec!["webp"]);
    assert_eq!(ImageFormat::Tiff.extensions(), vec!["tif", "tiff"]);
    assert!(ImageFormat::Tiff.has_extension("tif"));
    assert!(!ImageFormat::Tiff.has_extension("TIF"));
}

#[test]
fn extension_is_matched_in_any_case() {
    assert_eq!(format_for_extension("JFIF"), Some(ImageFormat::Jpeg));
    assert_eq!(format_for_extension("Gif"), Some(ImageFormat::Gif));
    assert_eq!(format_for_extension("WEBP"), Some(ImageFormat::WebP));
    assert_eq!(format_for_extension("tif"), Some(ImageFormat::Tiff));
    assert_eq!(format_for_extension("TIFF"), Some(ImageFormat::Tiff));
    assert_eq!(format_for_extension(""), None);
    assert_eq!(format_for_extension("jpgx"), None);
}

#[test]
fn extension_is_taken_from_the_file_name() {
    assert_eq!(detect_format_from_extension("/a.png/photo.gif"), Some(ImageFormat::Gif));
    assert_eq!(detect_format_from_extension("/dir.png/photo"), None);
    assert_eq!(detect_format_from_extension(".png"), None);
    assert_eq!(detect_format_from_extension("archive.tar.webp"), Some(ImageFormat::WebP));
}

#[test]
fn strip_result_holds_what_it_is_given() {
    let result = StripResult::new(vec![1, 2, 3], 7);
    assert_eq!(result.data, vec![1, 2, 3]);
    assert_eq!(result.bytes_removed, 7);
}

#[test]
fn unsupported_format_carries_the_guess_from_the_extension() {
    let error = strip_metadata(&[0u8; 16], "scan.PNG").unwrap_err();
    match error {
        Error::UnsupportedFormat { path, detected } => {
            assert_eq!(path, "scan.PNG");
            assert_eq!(detected.as_deref(), Some("PNG"));
        },
        other => panic!("unexpected error: {:?}", other),
    }
    let error = strip_metadata(&[0u8; 16], "notes.txt").unwrap_err();
    assert!(matches!(error, Error::UnsupportedFormat { detected: None, .. }));
    let error = strip_metadata(&[0xFF, 0xD8, 0xFF], "short.jpg").unwrap_err();
    assert!(matches!(error, Error::UnsupportedFormat { .. }));
}

#[test]
fn detected_but_malformed_input_is_an_invalid_image() {
    let mut gif = b"GIF89a".to_vec();
    gif.extend_from_slice(&[1, 0, 1, 0, 0, 0, 0, 0x21, 0xFE, 0x09, 0x41, 0x42]);
    let error = strip_metadata(&gif, "cut.gif").unwrap_err();
    assert!(matches!(error, Error::InvalidImage { ref path, .. } if path == "cut.gif"));

    let png = [0x89, 0x50, 0x4E, 0x47, 0x0D, 0x0A, 0x1A, 0x0A, 0, 0, 0, 9, b'I'];
    assert!(matches!(strip_metadata(&png, "a.png"), Err(Error::InvalidImage { .. })));

    let jpeg = [0xFF, 0xD8, 0xFF, 0xE0, 0x00, 0x10, 0x4A, 0x46, 0x49, 0x46, 0x00, 0x01];
    assert!(matches!(strip_metadata(&jpeg, "a.jpg"), Err(Error::InvalidImage { .. })));

    let webp = b"RIFF\0\0\0\0WEBPVP8 \x10\0\0\0\x01";
    assert!(matches!(strip_metadata(webp, "a.webp"), Err(Error::InvalidImage { .. })));

    let tiff = [0x49, 0x49, 0x2A, 0x00, 0x08, 0x00, 0x00, 0x00, 0x02, 0x00, 0x00, 0x00];
    assert!(matches!(strip_metadata(&tiff, "a.tif"), Err(Error::InvalidImage { .. })));
}

#[test]
fn bytes_removed_is_the_difference_in_length() {
    let mut gif = b"GIF89a".to_vec();
    gif.extend_from_slice(&[1, 0, 1, 0, 0, 0, 0]);
    gif.extend_from_slice(&[0x21, 0xFE, 0x03, 0x41, 0x42, 0x43, 0x00]);
    gif.push(0x3B);
    let result = strip_metadata(&gif, "a.gif").unwrap();
    assert_eq!(result.bytes_removed, 7);
    assert_eq!(result.data.len(), gif.len() - 7);

    let again = strip_metadata(&result.data, "a.gif").unwrap();
    assert_eq!(again.bytes_removed, 0);
    assert_eq!(again.data, result.data);
}

#[test]
fn bytes_removed_is_zero_where_the_output_is_longer() {
    let mut gif = b"GIF89a".to_vec();
    gif.extend_from_slice(&[1, 0, 1, 0, 0, 0, 0]);
    let result = strip_metadata(&gif, "a.gif").unwrap();
    assert_eq!(result.data.len(), gif.len() + 1);
    assert_eq!(result.bytes_removed, 0);
}

#[test]
fn every_format_keeps_its_signature_and_its_terminal_marker() {
    let mut gif = b"GIF89a".to_vec();
    gif.extend_from_slice(&[1, 0, 1, 0, 0, 0, 0]);
    gif.extend_from_slice(&[0x21, 0xFE, 0x02, 0x41, 0x42, 0x00]);
    gif.extend_from_slice(&[0x2C, 0, 0, 0, 0, 1, 0, 1, 0, 0, 0x02, 0x02, 0x44, 0x01, 0x00, 0x3B]);
    let result = strip_metadata(&gif, "a.gif").unwrap();
    assert_eq!(detect_format(&result.data), Some(ImageFormat::Gif));
    assert_eq!(result.data.last(), Some(&0x3B));
    assert_eq!(result.bytes_removed, 6);

    let mut webp = b"RIFF\0\0\0\0WEBPVP8 ".to_vec();
    webp.extend_from_slice(&[4, 0, 0, 0, 1, 2, 3, 4]);
    webp.extend_from_slice(b"EXIF");
    webp.extend_from_slice(&[2, 0, 0, 0, 9, 9]);
    let result = strip_metadata(&webp, "a.webp").unwrap();
    assert_eq!(detect_format(&result.data), Some(ImageFormat::WebP));
    assert!(result.data.starts_with(b"RIFF"));
    assert_eq!(&result.data[8..12], b"WEBP");
    assert_eq!(result.bytes_removed, 10);
    assert!(!result.data.windows(4).any(|w| w == b"EXIF"));

    let mut tiff = vec![0x4D, 0x4D, 0x00, 0x2A, 0, 0, 0, 8, 0, 1];
    tiff.extend_from_slice(&[1, 0, 0, 3, 0, 0, 0, 1, 0, 7, 0, 0]);
    tiff.extend_from_slice(&[0, 0, 0, 0]);
    let result = strip_metadata(&tiff, "a.tif").unwrap();
    assert_eq!(detect_format(&result.data), Some(ImageFormat::Tiff));
    assert!(result.data.starts_with(&[0x4D, 0x4D, 0x00, 0x2A]));
    assert_eq!(result.data, tiff);

    let mut png = vec![0x89, 0x50, 0x4E, 0x47, 0x0D, 0x0A, 0x1A, 0x0A];
    png.extend_from_slice(&[0, 0, 0, 1, b'I', b'H', b'D', b'R', 5, 0, 0, 0, 0]);
    png.extend_from_slice(&[0, 0, 0, 2, b't', b'E', b'X', b't', 1, 2, 0, 0, 0, 0]);
    png.extend_from_slice(&[0, 0, 0, 0, b'I', b'E', b'N', b'D', 0, 0, 0, 0]);
    let result = strip_metadata(&png, "a.png").unwrap();
    assert_eq!(detect_format(&result.data), Some(ImageFormat::Png));
    assert!(result.data.starts_with(&png[..8]));
    assert!(result.data.ends_with(&[b'I', b'E', b'N', b'D', 0xAE, 0x42, 0x60, 0x82]));
    assert_eq!(result.bytes_removed, 14);
    assert!(!result.data.windows(4).any(|w| w == b"tEXt"));

    let jpeg = vec![0xFF, 0xD8, 0xFF, 0xFE, 0, 4, 0x41, 0x42, 0xFF, 0xDB, 0, 4, 1, 2, 0xFF, 0xD9];
    let result = strip_metadata(&jpeg, "a.jpg").unwrap();
    assert_eq!(result.data, vec![0xFF, 0xD8, 0xFF, 0xDB, 0, 4, 1, 2, 0xFF, 0xD9]);
    assert_eq!(result.bytes_removed, 6);
    assert_eq!(detect_format(&result.data), None);
}

#[test]
fn stripping_twice_changes_nothing() {
    let mut gif = b"GIF89a".to_vec();
    gif.extend_from_slice(&[1, 0, 1, 0, 0, 0, 0, 0x99, 0x21, 0x77, 0x00]);
    gif.extend_from_slice(&[0x21, 0xF9, 0x04, 0, 0, 0, 0, 0x00]);
    let mut webp = b"RIFF\0\0\0\0WEBPVP8X".to_vec();
    webp.extend_from_slice(&[10, 0, 0, 0, 0x3C, 0, 0, 0, 0, 0, 0, 0, 0, 0]);
    webp.extend_from_slice(b"XMP \x03\0\0\0abc\0ALPH\x01\0\0\0z");
    let mut png = vec![0x89, 0x50, 0x4E, 0x47, 0x0D, 0x0A, 0x1A, 0x0A];
    png.extend_from_slice(&[0, 0, 0, 0, b'I', b'H', b'D', b'R', 0, 0, 0, 0]);
    png.extend_from_slice(&[0, 0, 0, 1, b't', b'I', b'M', b'E', 1, 0, 0, 0, 0]);
    png.extend_from_slice(&[0, 0, 0, 0, b'I', b'E', b'N', b'D', 0, 0, 0, 0, 7, 7]);
    let jpeg = vec![
        0xFF, 0xD8, 0xFF, 0xFF, 0xE1, 0, 2, 0xFF, 0xE0, 0, 3, 9, 0xFF, 0xDA, 0, 2, 1, 0xFF, 0x00, 2,
        0xFF, 0xFF, 0xD9,
    ];
    let mut tiff = vec![0x49, 0x49, 0x2A, 0x00, 12, 0, 0, 0, 0xAB, 0xCD, 0xEF, 0x01, 3, 0];
    tiff.extend_from_slice(&[0x0F, 0x01, 2, 0, 9, 0, 0, 0, 90, 0, 0, 0]);
    tiff.extend_from_slice(&[0x11, 0x01, 4, 0, 1, 0, 0, 0, 8, 0, 0, 0]);
    tiff.extend_from_slice(&[0x17, 0x01, 4, 0, 1, 0, 0, 0, 4, 0, 0, 0]);
    tiff.extend_from_slice(&[0, 0, 0, 0]);
    for (data, path) in
        [(gif, "a.gif"), (webp, "a.webp"), (png, "a.png"), (jpeg, "a.jpg"), (tiff, "a.tif")]
    {
        let once = strip_metadata(&data, path).unwrap();
        assert!(once.data.len() >= 12, "{}", path);
        let twice = strip_metadata(&once.data, path).unwrap();
        assert_eq!(twice.data, once.data, "{}", path);
        assert_eq!(twice.bytes_removed, 0, "{}", path);
    }
}
