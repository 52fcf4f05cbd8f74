//! Format detection by magic bytes, and the dispatcher that routes a buffer
//! to its codec.

pub mod jpeg;
pub mod gif;
pub mod png;
pub mod tiff;
pub mod webp;

use crate::error::Error;
use vstd::prelude::*;
use vstd::string::*;

verus! {

/// Supported image formats.
#[derive(Debug, Clone, Copy, PartialEq, Eq, Structural)]
pub enum ImageFormat {
    Jpeg,
    Png,
    Gif,
    WebP,
    Tiff,
}

/// A chunk of a chunked container as the contracts see it: its four-byte
/// type and its data.
pub struct ChunkModel {
    pub kind: Seq<u8>,
    pub data: Seq<u8>,
}

/// A sequence of exactly the four bytes given.
pub open spec fn four(kind: Seq<u8>, a: u8, b: u8, c: u8, d: u8) -> bool {
    kind.len() == 4 && kind[0] == a && kind[1] == b && kind[2] == c && kind[3] == d
}

/// Whether one of the chunks has the type given.
pub open spec fn has_kind(chunks: Seq<ChunkModel>, a: u8, b: u8, c: u8, d: u8) -> bool {
    exists|i: int| 0 <= i < chunks.len() && four(#[trigger] chunks[i].kind, a, b, c, d)
}

/// `rest` with `prefix` in front of it, where there is a `rest`.
pub open spec fn prepend<T>(prefix: Seq<T>, rest: Option<Seq<T>>) -> Option<Seq<T>> {
    match rest {
        Some(tail) => Some(prefix + tail),
        None => None,
    }
}

/// Prepending twice is prepending the concatenation.
pub proof fn lemma_prepend_twice<T>(a: Seq<T>, b: Seq<T>, rest: Option<Seq<T>>)
    ensures
        prepend(a, prepend(b, rest)) == prepend(a + b, rest),
{
    if let Some(tail) = rest {
        assert(a + (b + tail) =~= (a + b) + tail);
    }
}

/// Prepending to an empty rest gives the prefix.
pub proof fn lemma_prepend_empty<T>(a: Seq<T>)
    ensures
        prepend(a, Some(Seq::<T>::empty())) == Some(a),
{
    assert(a + Seq::<T>::empty() =~= a);
}

/// JPEG: `FF D8 FF`.
pub open spec fn jpeg_magic(data: Seq<u8>) -> bool {
    data.len() >= 3 && data[0] == 0xFF && data[1] == 0xD8 && data[2] == 0xFF
}

/// PNG: `89 50 4E 47 0D 0A 1A 0A`.
pub open spec fn png_magic(data: Seq<u8>) -> bool {
    data.len() >= 8 && data[0] == 0x89 && data[1] == 0x50 && data[2] == 0x4E && data[3] == 0x47
        && data[4] == 0x0D && data[5] == 0x0A && data[6] == 0x1A && data[7] == 0x0A
}

/// GIF: `GIF87a` or `GIF89a`.
pub open spec fn gif_magic(data: Seq<u8>) -> bool {
    data.len() >= 6 && data[0] == 0x47 && data[1] == 0x49 && data[2] == 0x46 && data[3] == 0x38
        && (data[4] == 0x37 || data[4] == 0x39) && data[5] == 0x61
}

/// The four bytes `RIFF`.
pub open spec fn riff_magic(data: Seq<u8>) -> bool {
    data.len() >= 4 && data[0] == 0x52 && data[1] == 0x49 && data[2] == 0x46 && data[3] == 0x46
}

/// WebP: `RIFF`, four bytes of size, `WEBP`.
pub open spec fn webp_magic(data: Seq<u8>) -> bool {
    data.len() >= 12 && riff_magic(data) && data[8] == 0x57 && data[9] == 0x45 && data[10]
        == 0x42 && data[11] == 0x50
}

/// TIFF: `II*\0` or `MM\0*`.
pub open spec fn tiff_magic(data: Seq<u8>) -> bool {
    data.len() >= 4 && ((data[0] == 0x49 && data[1] == 0x49 && data[2] == 0x2A && data[3]
        == 0x00) || (data[0] == 0x4D && data[1] == 0x4D && data[2] == 0x00 && data[3] == 0x2A))
}

/// The format that the first twelve bytes announce.
pub open spec fn detected_format(data: Seq<u8>) -> Option<ImageFormat> {
    if data.len() < 12 {
        None
    } else if jpeg_magic(data) {
        Some(ImageFormat::Jpeg)
    } else if png_magic(data) {
        Some(ImageFormat::Png)
    } else if gif_magic(data) {
        Some(ImageFormat::Gif)
    } else if webp_magic(data) {
        Some(ImageFormat::WebP)
    } else if tiff_magic(data) {
        Some(ImageFormat::Tiff)
    } else {
        None
    }
}

/// The signatures are disjoint: a buffer announces at most one format, so
/// the order in which they are tested does not matter.
pub proof fn lemma_signatures_disjoint(data: Seq<u8>)
    ensures
        jpeg_magic(data) ==> !png_magic(data) && !gif_magic(data) && !webp_magic(data)
            && !tiff_magic(data),
        png_magic(data) ==> !gif_magic(data) && !webp_magic(data) && !tiff_magic(data),
        gif_magic(data) ==> !webp_magic(data) && !tiff_magic(data),
        webp_magic(data) ==> !tiff_magic(data),
{
}

/// The format that an extension, already in lower case, stands for.
pub open spec fn extension_format(ext: Seq<char>) -> Option<ImageFormat> {
    if ImageFormat::Jpeg.extension_list().contains(ext) {
        Some(ImageFormat::Jpeg)
    } else if ImageFormat::Png.extension_list().contains(ext) {
        Some(ImageFormat::Png)
    } else if ImageFormat::Gif.extension_list().contains(ext) {
        Some(ImageFormat::Gif)
    } else if ImageFormat::WebP.extension_list().contains(ext) {
        Some(ImageFormat::WebP)
    } else if ImageFormat::Tiff.extension_list().contains(ext) {
        Some(ImageFormat::Tiff)
    } else {
        None
    }
}

impl ImageFormat {
    /// The canonical name of the format.
    pub open spec fn name_of(self) -> Seq<char> {
        match self {
            ImageFormat::Jpeg => "JPEG"@,
            ImageFormat::Png => "PNG"@,
            ImageFormat::Gif => "GIF"@,
            ImageFormat::WebP => "WebP"@,
            ImageFormat::Tiff => "TIFF"@,
        }
    }

    /// The file extensions under which the format is commonly stored.
    pub open spec fn extension_list(self) -> Seq<Seq<char>> {
        match self {
            ImageFormat::Jpeg => seq!["jpg"@, "jpeg"@, "jpe"@, "jfif"@],
            ImageFormat::Png => seq!["png"@],
            ImageFormat::Gif => seq!["gif"@],
            ImageFormat::WebP => seq!["webp"@],
            ImageFormat::Tiff => seq!["tif"@, "tiff"@],
        }
    }

    /// Get the format name as a string.
    pub fn name(&self) -> (name: &'static str)
        ensures
            name@ == self.name_of(),
    {
        match self {
            ImageFormat::Jpeg => "JPEG",
            ImageFormat::Png => "PNG",
            ImageFormat::Gif => "GIF",
            ImageFormat::WebP => "WebP",
            ImageFormat::Tiff => "TIFF",
        }
    }

    /// Get common file extensions for this format.
    pub fn extensions(&self) -> (list: Vec<&'static str>)
        ensures
            list@.len() == self.extension_list().len(),
            forall|i: int| 0 <= i < list@.len() ==> (#[trigger] list@[i])@ == self.extension_list()[i],
    {
        let mut list: Vec<&'static str> = Vec::new();
        match self {
            ImageFormat::Jpeg => {
                list.push("jpg");
                list.push("jpeg");
                list.push("jpe");
                list.push("jfif");
            },
            ImageFormat::Png => {
                list.push("png");
            },
            ImageFormat::Gif => {
                list.push("gif");
            },
            ImageFormat::WebP => {
                list.push("webp");
            },
            ImageFormat::Tiff => {
                list.push("tif");
                list.push("tiff");
            },
        }
        list
    }

    /// Whether `ext` is one of the format's extensions, letter for letter.
    pub fn has_extension(&self, ext: &str) -> (found: bool)
        ensures
            found == self.extension_list().contains(ext@),
    {
        let list = self.extensions();
        let mut i: usize = 0;
        while i < list.len()
            invariant
                i <= list@.len(),
                list@.len() == self.extension_list().len(),
                forall|k: int|
                    0 <= k < list@.len() ==> (#[trigger] list@[k])@ == self.extension_list()[k],
                forall|k: int| 0 <= k < i ==> self.extension_list()[k] != ext@,
            decreases list@.len() - i,
        {
            if same_text(list[i], ext) {
                assert(self.extension_list()[i as int] == ext@);
                return true;
            }
            i += 1;
        }
        false
    }
}

/// Compares two strings character by character.
pub fn same_text(a: &str, b: &str) -> (same: bool)
    ensures
        same == (a@ == b@),
{
    let n = a.unicode_len();
    if n != b.unicode_len() {
        return false;
    }
    let mut i: usize = 0;
    while i < n
        invariant
            n == a@.len(),
            n == b@.len(),
            i <= n,
            forall|k: int| 0 <= k < i ==> a@[k] == b@[k],
        decreases n - i,
    {
        if a.get_char(i) != b.get_char(i) {
            return false;
        }
        i += 1;
    }
    assert(a@ =~= b@);
    true
}

/// Detect image format from magic bytes.
pub fn detect_format(data: &[u8]) -> (format: Option<ImageFormat>)
    ensures
        format == detected_format(data@),
{
    if data.len() < 12 {
        return None;
    }
    if data[0] == 0xFF && data[1] == 0xD8 && data[2] == 0xFF {
        return Some(ImageFormat::Jpeg);
    }
    if data[0] == 0x89 && data[1] == 0x50 && data[2] == 0x4E && data[3] == 0x47 && data[4] == 0x0D
        && data[5] == 0x0A && data[6] == 0x1A && data[7] == 0x0A {
        return Some(ImageFormat::Png);
    }
    if data[0] == 0x47 && data[1] == 0x49 && data[2] == 0x46 && data[3] == 0x38 && (data[4] == 0x37
        || data[4] == 0x39) && data[5] == 0x61 {
        return Some(ImageFormat::Gif);
    }
    if data[0] == 0x52 && data[1] == 0x49 && data[2] == 0x46 && data[3] == 0x46 && data[8] == 0x57
        && data[9] == 0x45 && data[10] == 0x42 && data[11] == 0x50 {
        return Some(ImageFormat::WebP);
    }
    if (data[0] == 0x49 && data[1] == 0x49 && data[2] == 0x2A && data[3] == 0x00) || (data[0]
        == 0x4D && data[1] == 0x4D && data[2] == 0x00 && data[3] == 0x2A) {
        return Some(ImageFormat::Tiff);
    }
    None
}

/// Check if a buffer appears to be a supported image format.
pub fn is_supported_format(data: &[u8]) -> (supported: bool)
    ensures
        supported == detected_format(data@).is_some(),
{
    detect_format(data).is_some()
}

/// The text in lower case, as `str::to_lowercase` gives it.
pub uninterp spec fn lowercase_of(text: Seq<char>) -> Seq<char>;

/// Lower-cases a string with `str::to_lowercase`. The result is a function
/// of the text alone and is known to the contracts only by its name.
#[verifier::external_body]
fn to_lowercase(text: &str) -> (lower: String)
    ensures
        lower@ == lowercase_of(text@),
{
    text.to_lowercase()
}

/// The extension of a path, by `std::path::Path::extension`, where it is
/// valid Unicode. Nothing is claimed of it: which part of a path is its
/// file name depends on the platform.
#[verifier::external_body]
pub(crate) fn path_extension(path: &str) -> (extension: Option<String>) {
    match std::path::Path::new(path).extension() {
        Some(extension) => match extension.to_str() {
            Some(text) => Some(text.to_string()),
            None => None,
        },
        None => None,
    }
}

/// The format that an extension stands for, in whatever case it is
/// written.
pub fn format_for_extension(extension: &str) -> (format: Option<ImageFormat>)
    ensures
        format == extension_format(lowercase_of(extension@)),
{
    let lower = to_lowercase(extension);
    let ext = lower.as_str();
    if ImageFormat::Jpeg.has_extension(ext) {
        Some(ImageFormat::Jpeg)
    } else if ImageFormat::Png.has_extension(ext) {
        Some(ImageFormat::Png)
    } else if ImageFormat::Gif.has_extension(ext) {
        Some(ImageFormat::Gif)
    } else if ImageFormat::WebP.has_extension(ext) {
        Some(ImageFormat::WebP)
    } else if ImageFormat::Tiff.has_extension(ext) {
        Some(ImageFormat::Tiff)
    } else {
        None
    }
}

/// Detect format from file extension.
///
/// A format is only ever named on the strength of one of its extensions.
pub fn detect_format_from_extension(path: &str) -> (format: Option<ImageFormat>)
    ensures
        format matches Some(f) ==> exists|extension: Seq<char>|
            f.extension_list().contains(#[trigger] lowercase_of(extension)),
{
    match path_extension(path) {
        Some(extension) => {
            let format = format_for_extension(extension.as_str());
            proof {
                if let Some(f) = format {
                    assert(f.extension_list().contains(lowercase_of(extension@)));
                }
            }
            format
        },
        None => None,
    }
}

/// Result of stripping metadata from an image.
#[derive(Debug)]
pub struct StripResult {
    /// The cleaned image data.
    pub data: Vec<u8>,
    /// Number of bytes of metadata removed.
    pub bytes_removed: u64,
}

impl StripResult {
    /// Create a new strip result.
    pub fn new(data: Vec<u8>, bytes_removed: u64) -> (result: StripResult)
        ensures
            result.data == data,
            result.bytes_removed == bytes_removed,
    {
        StripResult { data, bytes_removed }
    }
}

/// What the codec of `format` writes for `data`, or `None` where the
/// codec rejects it.
pub open spec fn codec_output(format: ImageFormat, data: Seq<u8>) -> Option<Seq<u8>> {
    match format {
        ImageFormat::Jpeg => jpeg::stripped(data),
        ImageFormat::Png => png::stripped(data),
        ImageFormat::Gif => gif::stripped(data),
        ImageFormat::WebP => webp::stripped(data),
        ImageFormat::Tiff => tiff::stripped(data),
    }
}

/// The stripped file, or `None` where no format is detected or the
/// format's codec rejects the input.
pub open spec fn stripped(data: Seq<u8>) -> Option<Seq<u8>> {
    match detected_format(data) {
        Some(format) => codec_output(format, data),
        None => None,
    }
}

/// The number of bytes by which `output` is shorter than `input`, and zero
/// where it is not shorter.
pub open spec fn removed(input: Seq<u8>, output: Seq<u8>) -> int {
    if output.len() <= input.len() {
        input.len() - output.len()
    } else {
        0
    }
}

/// Whether `error` reports `path` as being of no supported format, with
/// no guess or with the name of a format as its guess.
pub open spec fn is_unsupported(error: Error, path: Seq<char>) -> bool {
    match error {
        Error::UnsupportedFormat { path: p, detected } => p@ == path && (match detected {
            Some(name) => exists|f: ImageFormat| name@ == #[trigger] f.name_of(),
            None => true,
        }),
        _ => false,
    }
}

/// Strip metadata from image data.
///
/// Detects the format by its magic bytes and hands the buffer to that
/// format's codec. Fails with `UnsupportedFormat` exactly when no format is
/// detected, and with `InvalidImage` exactly when the codec rejects the
/// buffer; otherwise returns the codec's output and the number of bytes by
/// which it is shorter than the input.
pub fn strip_metadata(data: &[u8], path: &str) -> (result: Result<StripResult, Error>)
    ensures
        match result {
            Ok(done) => stripped(data@) == Some(done.data@) && done.bytes_removed == removed(
                data@,
                done.data@,
            ),
            Err(error) => stripped(data@).is_none() && (match detected_format(data@) {
                Some(format) => error.is_invalid_image(path@),
                None => is_unsupported(error, path@),
            }),
        },
{
    let format = match detect_format(data) {
        Some(format) => format,
        None => {
            let guess = match detect_format_from_extension(path) {
                Some(f) => {
                    let name = f.name();
                    Some(name)
                },
                None => None,
            };
            let error = Error::unsupported_format(path, guess);
            return Err(error);
        },
    };
    let input_size: u64 = data.len() as u64;
    let outcome = match format {
        ImageFormat::Jpeg => jpeg::strip(data, path),
        ImageFormat::Png => png::strip(data, path),
        ImageFormat::Gif => gif::strip(data, path),
        ImageFormat::WebP => webp::strip(data, path),
        ImageFormat::Tiff => tiff::strip(data, path),
    };
    match outcome {
        Ok(output) => {
            let written: u64 = output.len() as u64;
            let bytes_removed: u64 = if written <= input_size {
                input_size - written
            } else {
                0
            };
            Ok(StripResult::new(output, bytes_removed))
        },
        Err(error) => Err(error),
    }
}

} // verus!
