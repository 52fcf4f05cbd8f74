//! JPEG metadata stripping.
//!
//! A JPEG file is a stream of segments, each introduced by `FF` and a
//! marker byte. Application segments other than APP0 and APP14, and
//! comments, are metadata; everything else is kept byte for byte.

use crate::error::{decimal, Error};
use crate::formats::{lemma_prepend_empty, lemma_prepend_twice, prepend};
use crate::simd::memops::copy_range;
use vstd::prelude::*;
use vstd::string::*;

verus! {

pub const MARKER_PREFIX: u8 = 0xFF;

/// Start of image.
pub const SOI: u8 = 0xD8;

/// End of image.
pub const EOI: u8 = 0xD9;

/// Baseline frame header.
pub const SOF0: u8 = 0xC0;

/// Huffman table.
pub const DHT: u8 = 0xC4;

/// First restart marker.
pub const RST0: u8 = 0xD0;

/// Last restart marker.
pub const RST7: u8 = 0xD7;

/// Quantization table.
pub const DQT: u8 = 0xDB;

/// Restart interval.
pub const DRI: u8 = 0xDD;

/// Start of scan.
pub const SOS: u8 = 0xDA;

/// JFIF header.
pub const APP0: u8 = 0xE0;

/// EXIF and XMP.
pub const APP1: u8 = 0xE1;

/// ICC profile, FlashPix.
pub const APP2: u8 = 0xE2;

/// IPTC and Photoshop.
pub const APP13: u8 = 0xED;

/// Adobe colour transform.
pub const APP14: u8 = 0xEE;

pub const APP15: u8 = 0xEF;

/// Comment.
pub const COM: u8 = 0xFE;

/// The markers whose segments are dropped: APP1 to APP13, APP15 and COM.
pub open spec fn metadata_marker(marker: u8) -> bool {
    (APP1 <= marker <= APP13) || marker == APP15 || marker == COM
}

/// The markers that carry no length field.
pub open spec fn standalone_marker(marker: u8) -> bool {
    marker == SOI || marker == EOI || (RST0 <= marker <= RST7) || marker == 0x00 || marker
        == 0xFF
}

/// A restart marker, which may stand inside entropy-coded data.
pub open spec fn restart_marker(marker: u8) -> bool {
    RST0 <= marker <= RST7
}

/// A big-endian 16-bit number.
pub open spec fn be16(high: u8, low: u8) -> int {
    high * 256 + low
}

/// The first index from `pos` on that does not hold `FF`, or the length.
pub open spec fn fill_end(data: Seq<u8>, pos: int) -> int
    decreases data.len() - pos,
{
    if 0 <= pos < data.len() && data[pos] == MARKER_PREFIX {
        fill_end(data, pos + 1)
    } else {
        pos
    }
}

/// The index at which entropy-coded data that starts at `pos` ends: behind
/// an end-of-image marker, in front of any marker other than a stuffed
/// `FF 00` or a restart marker, or at the end of the buffer.
pub open spec fn scan_end(data: Seq<u8>, pos: int) -> int
    decreases data.len() - pos,
{
    if pos < 0 || pos >= data.len() {
        pos
    } else if data[pos] == MARKER_PREFIX && pos + 1 < data.len() {
        let next = data[pos + 1];
        if next == 0x00 || restart_marker(next) {
            scan_end(data, pos + 2)
        } else if next == EOI {
            pos + 2
        } else {
            pos
        }
    } else {
        scan_end(data, pos + 1)
    }
}

/// Whether the entropy-coded data that starts at `pos` ends with an
/// end-of-image marker of its own.
pub open spec fn scan_closed(data: Seq<u8>, pos: int) -> bool
    decreases data.len() - pos,
{
    if pos < 0 || pos >= data.len() {
        false
    } else if data[pos] == MARKER_PREFIX && pos + 1 < data.len() {
        let next = data[pos + 1];
        if next == 0x00 || restart_marker(next) {
            scan_closed(data, pos + 2)
        } else {
            next == EOI
        }
    } else {
        scan_closed(data, pos + 1)
    }
}

pub proof fn lemma_fill_end_bounds(data: Seq<u8>, pos: int)
    requires
        0 <= pos <= data.len(),
    ensures
        pos <= fill_end(data, pos) <= data.len(),
        pos < data.len() && data[pos] == MARKER_PREFIX ==> pos < fill_end(data, pos),
        fill_end(data, pos) < data.len() ==> data[fill_end(data, pos)] != MARKER_PREFIX,
    decreases data.len() - pos,
{
    if pos < data.len() && data[pos] == MARKER_PREFIX {
        lemma_fill_end_bounds(data, pos + 1);
    }
}

pub proof fn lemma_scan_end_bounds(data: Seq<u8>, pos: int)
    requires
        0 <= pos <= data.len(),
    ensures
        pos <= scan_end(data, pos) <= data.len(),
    decreases data.len() - pos,
{
    if pos < data.len() {
        if data[pos] == MARKER_PREFIX && pos + 1 < data.len() {
            let next = data[pos + 1];
            if next == 0x00 || restart_marker(next) {
                lemma_scan_end_bounds(data, pos + 2);
            }
        } else {
            lemma_scan_end_bounds(data, pos + 1);
        }
    }
}

/// What stripping writes for the segments from `pos` on, or `None` where
/// the stream is malformed. Nothing is read behind an end-of-image
/// marker, whether it stands between segments or ends a scan.
pub open spec fn segments_from(data: Seq<u8>, pos: int) -> Option<Seq<u8>>
    decreases data.len() - pos,
{
    if pos < 0 || pos >= data.len() {
        Some(Seq::empty())
    } else if data[pos] != MARKER_PREFIX {
        None
    } else {
        let at = fill_end(data, pos);
        proof {
            lemma_fill_end_bounds(data, pos);
        }
        if at >= data.len() {
            Some(Seq::empty())
        } else {
            let marker = data[at];
            let body = at + 1;
            if marker == EOI {
                Some(seq![MARKER_PREFIX, EOI])
            } else if marker == SOS {
                if body + 2 > data.len() {
                    None
                } else if body + be16(data[body], data[body + 1]) > data.len() {
                    None
                } else {
                    let scan = body + be16(data[body], data[body + 1]);
                    let end = scan_end(data, scan);
                    proof {
                        lemma_scan_end_bounds(data, scan);
                    }
                    if scan_closed(data, scan) {
                        Some(seq![MARKER_PREFIX, SOS] + data.subrange(body, end))
                    } else {
                        prepend(
                            seq![MARKER_PREFIX, SOS] + data.subrange(body, end),
                            segments_from(data, end),
                        )
                    }
                }
            } else if standalone_marker(marker) {
                segments_from(data, body)
            } else if body + 2 > data.len() {
                None
            } else {
                let length = be16(data[body], data[body + 1]);
                if length < 2 || body + length > data.len() {
                    None
                } else if metadata_marker(marker) {
                    segments_from(data, body + length)
                } else {
                    prepend(
                        seq![MARKER_PREFIX, marker] + data.subrange(body, body + length),
                        segments_from(data, body + length),
                    )
                }
            }
        }
    }
}

/// The stripped file, or `None` where the input is not a well-formed JPEG
/// stream: shorter than four bytes, without the start-of-image marker, or
/// with a segment that runs past the end.
pub open spec fn stripped(data: Seq<u8>) -> Option<Seq<u8>> {
    if data.len() < 4 || data[0] != MARKER_PREFIX || data[1] != SOI {
        None
    } else {
        prepend(seq![MARKER_PREFIX, SOI], segments_from(data, 2))
    }
}

/// Check if a marker is a metadata marker that should be stripped.
pub fn is_metadata_marker(marker: u8) -> (metadata: bool)
    ensures
        metadata == metadata_marker(marker),
{
    (APP1 <= marker && marker <= APP13) || marker == APP15 || marker == COM
}

/// Check if a marker is a standalone marker (no length field).
pub fn is_standalone_marker(marker: u8) -> (standalone: bool)
    ensures
        standalone == standalone_marker(marker),
{
    marker == SOI || marker == EOI || (RST0 <= marker && marker <= RST7) || marker == 0x00
        || marker == 0xFF
}

/// Skips the run of `FF` bytes that starts at `pos`.
fn skip_fill(data: &[u8], pos: usize) -> (at: usize)
    requires
        pos <= data@.len(),
    ensures
        at == fill_end(data@, pos as int),
        pos <= at <= data@.len(),
{
    let mut at: usize = pos;
    while at < data.len() && data[at] == MARKER_PREFIX
        invariant
            pos <= at <= data@.len(),
            fill_end(data@, pos as int) == fill_end(data@, at as int),
        decreases data@.len() - at,
    {
        at += 1;
    }
    at
}

/// Finds where the entropy-coded data that starts at `pos` ends, and
/// whether an end-of-image marker ends it.
fn find_scan_end(data: &[u8], pos: usize) -> (found: (usize, bool))
    requires
        pos <= data@.len(),
    ensures
        found.0 == scan_end(data@, pos as int),
        found.1 == scan_closed(data@, pos as int),
        pos <= found.0 <= data@.len(),
{
    let mut at: usize = pos;
    let mut closed: bool = false;
    loop
        invariant_except_break
            pos <= at <= data@.len(),
            !closed,
            scan_end(data@, pos as int) == scan_end(data@, at as int),
            scan_closed(data@, pos as int) == scan_closed(data@, at as int),
        ensures
            pos <= at <= data@.len(),
            at == scan_end(data@, pos as int),
            closed == scan_closed(data@, pos as int),
        decreases data@.len() - at,
    {
        if at >= data.len() {
            break ;
        }
        if data[at] == MARKER_PREFIX && at + 1 < data.len() {
            let next: u8 = data[at + 1];
            if next == 0x00 || (RST0 <= next && next <= RST7) {
                at += 2;
            } else if next == EOI {
                at += 2;
                closed = true;
                break ;
            } else {
                break ;
            }
        } else {
            at += 1;
        }
    }
    (at, closed)
}

/// Strip metadata from JPEG data.
///
/// Succeeds exactly on the inputs for which `stripped` is defined, and then
/// returns those bytes. `path` only labels the error.
pub fn strip(data: &[u8], path: &str) -> (result: Result<Vec<u8>, Error>)
    ensures
        match result {
            Ok(output) => stripped(data@) == Some(output@),
            Err(error) => stripped(data@).is_none() && error.is_invalid_image(path@),
        },
{
    let len: usize = data.len();
    if len < 4 {
        return Err(Error::invalid_image(path, "File too small to be a valid JPEG"));
    }
    if data[0] != MARKER_PREFIX || data[1] != SOI {
        return Err(Error::invalid_image(path, "Missing JPEG SOI marker"));
    }
    let mut output: Vec<u8> = Vec::with_capacity(len);
    output.push(MARKER_PREFIX);
    output.push(SOI);
    assert(output@ =~= seq![MARKER_PREFIX, SOI]);
    let mut pos: usize = 2;

    loop
        invariant_except_break
            len == data@.len(),
            2 <= pos <= len,
            stripped(data@) == prepend(output@, segments_from(data@, pos as int)),
        ensures
            stripped(data@) == Some(output@),
        decreases len - pos,
    {
        if pos >= len {
            proof {
                lemma_prepend_empty(output@);
            }
            break ;
        }
        if data[pos] != MARKER_PREFIX {
            let reason = String::from_str("Expected marker at position ").concat(
                decimal(pos as u64).as_str(),
            );
            return Err(Error::invalid_image(path, reason.as_str()));
        }
        let at: usize = skip_fill(data, pos);
        proof {
            lemma_fill_end_bounds(data@, pos as int);
        }
        if at >= len {
            proof {
                lemma_prepend_empty(output@);
            }
            break ;
        }
        let marker: u8 = data[at];
        let body: usize = at + 1;
        let ghost before = output@;

        if marker == EOI {
            output.push(MARKER_PREFIX);
            output.push(EOI);
            proof {
                assert(output@ =~= before + seq![MARKER_PREFIX, EOI]);
            }
            break ;
        }
        if marker == SOS {
            if len - body < 2 {
                return Err(Error::invalid_image(path, "Truncated SOS segment"));
            }
            let length: usize = (data[body] as usize) * 256 + (data[body + 1] as usize);
            if length > len - body {
                return Err(Error::invalid_image(path, "SOS segment extends beyond file"));
            }
            let scan: usize = body + length;
            let (end, closed) = find_scan_end(data, scan);
            output.push(MARKER_PREFIX);
            output.push(SOS);
            copy_range(&mut output, data, body, end);
            proof {
                let piece = seq![MARKER_PREFIX, SOS] + data@.subrange(body as int, end as int);
                assert(output@ =~= before + piece);
                lemma_prepend_twice(before, piece, segments_from(data@, end as int));
            }
            if closed {
                break ;
            }
            pos = end;
            continue ;
        }
        if is_standalone_marker(marker) {
            pos = body;
            continue ;
        }
        if len - body < 2 {
            return Err(Error::invalid_image(path, "Truncated segment header"));
        }
        let length: usize = (data[body] as usize) * 256 + (data[body + 1] as usize);
        if length < 2 {
            return Err(Error::invalid_image(path, "Invalid segment length"));
        }
        if length > len - body {
            return Err(Error::invalid_image(path, "Segment extends beyond file"));
        }
        if is_metadata_marker(marker) {
            pos = body + length;
        } else {
            output.push(MARKER_PREFIX);
            output.push(marker);
            copy_range(&mut output, data, body, body + length);
            proof {
                let piece = seq![MARKER_PREFIX, marker] + data@.subrange(
                    body as int,
                    body + length,
                );
                assert(output@ =~= before + piece);
                lemma_prepend_twice(before, piece, segments_from(data@, body + length));
            }
            pos = body + length;
        }
    }
    Ok(output)
}

} // verus!
