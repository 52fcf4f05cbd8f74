//! Laws that relate detection, the codecs and the dispatcher.

use crate::formats::gif;
use crate::formats::jpeg;
use crate::formats::png;
use crate::formats::tiff;
use crate::formats::webp;
use crate::formats::{
    codec_output, detected_format, four, gif_magic, jpeg_magic, png_magic, prepend, stripped,
    tiff_magic, webp_magic, ImageFormat,
};
use vstd::prelude::*;

verus! {

/// Whether `data` starts with the signature of `format`.
pub open spec fn has_magic(format: ImageFormat, data: Seq<u8>) -> bool {
    match format {
        ImageFormat::Jpeg => jpeg_magic(data),
        ImageFormat::Png => png_magic(data),
        ImageFormat::Gif => gif_magic(data),
        ImageFormat::WebP => webp_magic(data),
        ImageFormat::Tiff => tiff_magic(data),
    }
}

/// Everything that the JPEG codec writes behind the start-of-image marker
/// begins with a marker prefix.
pub proof fn lemma_jpeg_segments_start_with_prefix(data: Seq<u8>, pos: int)
    requires
        0 <= pos <= data.len(),
    ensures
        jpeg::segments_from(data, pos) matches Some(tail) ==> tail.len() == 0 || tail[0]
            == jpeg::MARKER_PREFIX,
    decreases data.len() - pos,
{
    if pos < data.len() && data[pos] == jpeg::MARKER_PREFIX {
        jpeg::lemma_fill_end_bounds(data, pos);
        let at = jpeg::fill_end(data, pos);
        if at < data.len() {
            let marker = data[at];
            let body = at + 1;
            if marker == jpeg::EOI {
            } else if marker == jpeg::SOS {
            } else if jpeg::standalone_marker(marker) {
                lemma_jpeg_segments_start_with_prefix(data, body);
            } else if body + 2 <= data.len() {
                let length = jpeg::be16(data[body], data[body + 1]);
                if length >= 2 && body + length <= data.len() && jpeg::metadata_marker(marker) {
                    lemma_jpeg_segments_start_with_prefix(data, body + length);
                }
            }
        }
    }
}

/// Everything that the GIF codec writes for the blocks ends in a trailer.
pub proof fn lemma_gif_blocks_end_in_trailer(data: Seq<u8>, pos: int)
    requires
        0 <= pos <= data.len(),
    ensures
        gif::blocks_from(data, pos) matches Some(tail) ==> tail.len() > 0 && tail.last()
            == gif::TRAILER,
    decreases data.len() - pos,
{
    if pos < data.len() && data[pos] != gif::TRAILER {
        if data[pos] == gif::EXTENSION {
            if pos + 2 <= data.len() {
                gif::lemma_sub_blocks_end_bounds(data, pos + 2);
                if let Some(end) = gif::sub_blocks_end(data, pos + 2) {
                    lemma_gif_blocks_end_in_trailer(data, end);
                }
            }
        } else if data[pos] == gif::IMAGE {
            if pos + 10 <= data.len() {
                let code = pos + 10 + gif::table_size(data[pos + 9]);
                gif::lemma_sub_blocks_end_bounds(data, code + 1);
                if code < data.len() {
                    if let Some(end) = gif::sub_blocks_end(data, code + 1) {
                        lemma_gif_blocks_end_in_trailer(data, end);
                    }
                }
            }
        } else {
            lemma_gif_blocks_end_in_trailer(data, pos + 1);
        }
    }
}

/// A stripped GIF ends with the trailer byte, whether or not the input
/// had one.
pub proof fn lemma_gif_output_ends_with_trailer(data: Seq<u8>)
    ensures
        gif::stripped(data) matches Some(output) ==> output.len() > 0 && output.last()
            == gif::TRAILER,
{
    if data.len() >= 13 && gif_magic(data) {
        let start = 13 + gif::table_size(data[10]);
        if start <= data.len() {
            lemma_gif_blocks_end_in_trailer(data, start);
        }
    }
}

/// What a codec writes starts with the signature of its format: `FF D8`
/// and, where more follows, `FF`; the PNG signature; the GIF header of
/// the input; `RIFF`, a size and `WEBP`; the TIFF byte-order mark and 42.
pub proof fn lemma_output_keeps_signature(format: ImageFormat, data: Seq<u8>)
    ensures
        codec_output(format, data) matches Some(output) ==> match format {
            ImageFormat::Jpeg => output.len() >= 2 && output[0] == 0xFF && output[1] == 0xD8 && (
            output.len() >= 3 ==> jpeg_magic(output)),
            _ => has_magic(format, output),
        },
{
    match format {
        ImageFormat::Jpeg => {
            if data.len() >= 4 {
                lemma_jpeg_segments_start_with_prefix(data, 2);
            }
        },
        ImageFormat::Png => {
            if let Some(output) = png::stripped(data) {
                assert(output.subrange(0, 8) =~= png::signature());
            }
        },
        ImageFormat::Gif => {},
        ImageFormat::WebP => {},
        ImageFormat::Tiff => {},
    }
}

/// Stripping keeps the format: an output of at least twelve bytes, which
/// is what detection asks for, is detected as the format of the input.
pub proof fn lemma_output_is_detected_as_input(data: Seq<u8>)
    ensures
        stripped(data) matches Some(output) ==> (output.len() >= 12 ==> detected_format(output)
            == detected_format(data)),
{
    if let Some(format) = detected_format(data) {
        lemma_output_keeps_signature(format, data);
    }
}

/// A buffer without the signature of a format is rejected by that
/// format's codec.
pub proof fn lemma_signature_mismatch_is_rejected(format: ImageFormat, data: Seq<u8>)
    requires
        !has_magic(format, data),
    ensures
        codec_output(format, data).is_none(),
{
    match format {
        ImageFormat::Png => {
            if data.len() >= 8 {
                let head = data.subrange(0, 8);
                assert(head[0] == data[0] && head[1] == data[1] && head[2] == data[2] && head[3]
                    == data[3] && head[4] == data[4] && head[5] == data[5] && head[6] == data[6]
                    && head[7] == data[7]);
            }
        },
        _ => {},
    }
}

/// Input shorter than twelve bytes, or without the signature of any
/// format, has no stripped form: the dispatcher fails on it, and so it
/// does where the signature is there and the format's codec rejects the
/// rest.
pub proof fn lemma_corrupt_input_is_rejected(data: Seq<u8>)
    ensures
        data.len() < 12 ==> stripped(data).is_none(),
        (forall|format: ImageFormat| !has_magic(format, data)) ==> stripped(data).is_none(),
        forall|format: ImageFormat|
            detected_format(data) == Some(format) && codec_output(format, data).is_none()
                ==> stripped(data).is_none(),
{
    if let Some(found) = detected_format(data) {
        assert(has_magic(found, data));
    }
}

/// The units that an image cannot do without are never classified as
/// metadata: JPEG APP0, APP14 and the table, frame and scan markers; PNG
/// `IHDR`, `PLTE`, `IDAT` and `IEND`; WebP `VP8 `, `VP8L`, `VP8X` and
/// `ICCP`; the TIFF tags of geometry and pixel data. The codecs copy
/// every unit that is not metadata.
pub proof fn lemma_structural_units_are_kept()
    ensures
        !jpeg::metadata_marker(jpeg::APP0),
        !jpeg::metadata_marker(jpeg::APP14),
        !jpeg::metadata_marker(jpeg::DQT),
        !jpeg::metadata_marker(jpeg::DHT),
        !jpeg::metadata_marker(jpeg::DRI),
        !jpeg::metadata_marker(jpeg::SOS),
        forall|marker: u8| 0xC0 <= marker <= 0xCF ==> !jpeg::metadata_marker(marker),
        forall|kind: Seq<u8>|
            four(kind, 0x49, 0x48, 0x44, 0x52) || four(kind, 0x50, 0x4C, 0x54, 0x45) || four(
                kind,
                0x49,
                0x44,
                0x41,
                0x54,
            ) || four(kind, 0x49, 0x45, 0x4E, 0x44) ==> !png::metadata_kind(kind),
        forall|kind: Seq<u8>|
            four(kind, 0x56, 0x50, 0x38, 0x20) || four(kind, 0x56, 0x50, 0x38, 0x4C) || four(
                kind,
                0x56,
                0x50,
                0x38,
                0x58,
            ) || four(kind, 0x49, 0x43, 0x43, 0x50) ==> !webp::metadata_kind(kind),
        forall|tag: u16|
            256 <= tag <= 262 || tag == 273 || 277 <= tag <= 284 || tag == 296 || 322 <= tag
                <= 325 || tag == 339 ==> !tiff::metadata_tag(tag),
{
}

/// A GIF extension with the label of graphics control or plain text is
/// kept, whatever it holds.
pub proof fn lemma_gif_control_and_text_are_kept(data: Seq<u8>, pos: int)
    requires
        0 <= pos,
        pos + 2 <= data.len(),
        data[pos + 1] == gif::GRAPHICS_CONTROL || data[pos + 1] == gif::PLAIN_TEXT,
    ensures
        gif::keeps_extension(data, pos),
{
}

/// The length that the dispatcher reports as removed is never negative,
/// and with the length of the output it makes up the length of the input
/// wherever the output is no longer than the input.
pub proof fn lemma_removed_accounts_for_the_difference(input: Seq<u8>, output: Seq<u8>)
    ensures
        crate::formats::removed(input, output) >= 0,
        output.len() <= input.len() ==> crate::formats::removed(input, output) + output.len()
            == input.len(),
        output.len() >= input.len() ==> crate::formats::removed(input, output) == 0,
{
}

/// The entries that a rewritten TIFF directory holds: none has a metadata
/// tag, each is an entry of the input's directory with its type, count
/// and value as they were, and every entry of the input that is no
/// metadata is among them.
pub proof fn lemma_tiff_kept_entries(entries: Seq<tiff::EntryModel>)
    ensures
        forall|i: int|
            0 <= i < tiff::kept(entries).len() ==> !tiff::metadata_tag(
                (#[trigger] tiff::kept(entries)[i]).tag,
            ) && entries.contains(tiff::kept(entries)[i]),
        forall|j: int|
            0 <= j < entries.len() && !tiff::metadata_tag((#[trigger] entries[j]).tag)
                ==> tiff::kept(entries).contains(entries[j]),
        tiff::kept(entries).len() <= entries.len(),
    decreases entries.len(),
{
    if entries.len() > 0 {
        let shorter = entries.drop_last();
        let last = entries.last();
        lemma_tiff_kept_entries(shorter);
        let kept = tiff::kept(entries);
        assert forall|i: int| 0 <= i < kept.len() implies !tiff::metadata_tag(
            (#[trigger] kept[i]).tag,
        ) && entries.contains(kept[i]) by {
            if i < tiff::kept(shorter).len() {
                assert(kept[i] == tiff::kept(shorter)[i]);
                let j = choose|j: int| 0 <= j < shorter.len() && shorter[j] == kept[i];
                assert(entries[j] == kept[i]);
            } else {
                assert(entries[entries.len() - 1] == kept[i]);
            }
        }
        assert forall|j: int|
            0 <= j < entries.len() && !tiff::metadata_tag(
                (#[trigger] entries[j]).tag,
            ) implies kept.contains(entries[j]) by {
            if j < shorter.len() {
                assert(shorter[j] == entries[j]);
                let i = choose|i: int|
                    0 <= i < tiff::kept(shorter).len() && tiff::kept(shorter)[i] == shorter[j];
                assert(kept[i] == entries[j]);
            } else {
                assert(kept[kept.len() - 1] == entries[j]);
            }
        }
    }
}

/// The entries of a rewritten TIFF directory are the kept entries in
/// their order, each with its tag, type and count; an entry that holds
/// its values itself and names no strips or tiles keeps its value field
/// too.
pub proof fn lemma_tiff_moved_entries(
    order: tiff::ByteOrder,
    data: Seq<u8>,
    entries: Seq<tiff::EntryModel>,
    j: int,
    at: int,
)
    requires
        0 <= j <= entries.len(),
    ensures
        tiff::placed_from(order, data, entries, j, at) matches Some((payload, moved))
            ==> moved.len() == entries.len() - j && forall|k: int|
            0 <= k < moved.len() ==> (#[trigger] moved[k]).tag == entries[j + k].tag
                && moved[k].field_type == entries[j + k].field_type && moved[k].count
                == entries[j + k].count && (tiff::inline(entries[j + k]) && !tiff::offsets_tag(
                entries[j + k].tag,
            ) ==> moved[k].value == entries[j + k].value),
    decreases entries.len() - j,
{
    if j < entries.len() {
        if let Some((payload, value)) = tiff::placed_entry(order, data, entries, entries[j], at) {
            lemma_tiff_moved_entries(order, data, entries, j + 1, at + payload.len());
            if let Some((more, rest)) = tiff::placed_from(
                order,
                data,
                entries,
                j + 1,
                at + payload.len(),
            ) {
                let first = tiff::with_value(entries[j], value);
                let moved = seq![first] + rest;
                assert forall|k: int| 0 <= k < moved.len() implies (#[trigger] moved[k]).tag
                    == entries[j + k].tag && moved[k].field_type == entries[j + k].field_type
                    && moved[k].count == entries[j + k].count && (tiff::inline(entries[j + k])
                    && !tiff::offsets_tag(entries[j + k].tag) ==> moved[k].value == entries[j
                    + k].value) by {
                    if k > 0 {
                        assert(moved[k] == rest[k - 1]);
                    }
                }
            }
        }
    }
}

} // verus!
