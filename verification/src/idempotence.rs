//! Stripping twice: what a codec has written, it writes again unchanged.

use crate::formats::gif;
use crate::formats::jpeg;
use crate::formats::png;
use crate::formats::webp;
use crate::formats::{
    detected_format, four, gif_magic, has_kind, lemma_prepend_twice, prepend, removed, stripped,
    webp_magic, ChunkModel, ImageFormat,
};
use crate::laws::lemma_output_is_detected_as_input;
use crate::tiff_twice::lemma_tiff_strip_twice;
use vstd::prelude::*;

verus! {

/// Whether `other` holds at `to + i` what `data` holds at `from + i`.
pub open spec fn agrees(data: Seq<u8>, from: int, other: Seq<u8>, to: int, i: int) -> bool {
    other[to + i] == data[from + i]
}

/// Where `other` holds from `to` on what `data` holds from `from` up to
/// the end of a chain of sub-blocks, the chain ends in `other` at the
/// matching index.
pub proof fn lemma_sub_blocks_elsewhere(data: Seq<u8>, from: int, other: Seq<u8>, to: int)
    requires
        gif::sub_blocks_end(data, from).is_some(),
        0 <= to,
        to + (gif::sub_blocks_end(data, from).unwrap() - from) <= other.len(),
        forall|i: int|
            0 <= i < gif::sub_blocks_end(data, from).unwrap() - from ==> #[trigger] agrees(
                data,
                from,
                other,
                to,
                i,
            ),
    ensures
        gif::sub_blocks_end(other, to) == Some(
            to + (gif::sub_blocks_end(data, from).unwrap() - from),
        ),
    decreases data.len() - from,
{
    gif::lemma_sub_blocks_end_bounds(data, from);
    let end = gif::sub_blocks_end(data, from).unwrap();
    assert(agrees(data, from, other, to, 0));
    if data[from] != 0 {
        let size = data[from] as int;
        gif::lemma_sub_blocks_end_bounds(data, from + 1 + size);
        assert forall|i: int| 0 <= i < end - (from + 1 + size) implies #[trigger] agrees(
            data,
            from + 1 + size,
            other,
            to + 1 + size,
            i,
        ) by {
            assert(agrees(data, from, other, to, 1 + size + i));
        }
        lemma_sub_blocks_elsewhere(data, from + 1 + size, other, to + 1 + size);
    }
}

/// A kept extension that stands in `output` at `start` as it stands in
/// `data` at `pos` is kept again.
pub proof fn lemma_gif_extension_again(data: Seq<u8>, pos: int, output: Seq<u8>, start: int)
    requires
        0 <= pos,
        pos + 2 <= data.len(),
        data[pos] == gif::EXTENSION,
        gif::sub_blocks_end(data, pos + 2).is_some(),
        gif::keeps_extension(data, pos),
        0 <= start,
        start + (gif::sub_blocks_end(data, pos + 2).unwrap() - pos) <= output.len(),
        forall|i: int|
            0 <= i < gif::sub_blocks_end(data, pos + 2).unwrap() - pos ==> #[trigger] agrees(
                data,
                pos,
                output,
                start,
                i,
            ),
    ensures
        gif::blocks_from(output, start) == prepend(
            data.subrange(pos, gif::sub_blocks_end(data, pos + 2).unwrap()),
            gif::blocks_from(output, start + (gif::sub_blocks_end(data, pos + 2).unwrap() - pos)),
        ),
{
    let end = gif::sub_blocks_end(data, pos + 2).unwrap();
    gif::lemma_sub_blocks_end_bounds(data, pos + 2);
    assert(agrees(data, pos, output, start, 0));
    assert(agrees(data, pos, output, start, 1));
    assert forall|i: int| 0 <= i < end - (pos + 2) implies #[trigger] agrees(
        data,
        pos + 2,
        output,
        start + 2,
        i,
    ) by {
        assert(agrees(data, pos, output, start, 2 + i));
    }
    lemma_sub_blocks_elsewhere(data, pos + 2, output, start + 2);
    if data[pos + 1] == gif::APPLICATION && gif::netscape_at(data, pos + 2) {
        gif::lemma_sub_blocks_end_bounds(data, pos + 2 + 12);
        assert(agrees(data, pos, output, start, 2));
        assert(agrees(data, pos, output, start, 3));
        assert(agrees(data, pos, output, start, 4));
        assert(agrees(data, pos, output, start, 5));
        assert(agrees(data, pos, output, start, 6));
        assert(agrees(data, pos, output, start, 7));
        assert(agrees(data, pos, output, start, 8));
        assert(agrees(data, pos, output, start, 9));
        assert(agrees(data, pos, output, start, 10));
        assert(agrees(data, pos, output, start, 11));
        assert(agrees(data, pos, output, start, 12));
        assert(agrees(data, pos, output, start, 13));
        assert(gif::netscape_at(output, start + 2));
    }
    assert(gif::keeps_extension(output, start));
    assert forall|i: int| 0 <= i < end - pos implies output.subrange(start, start + (end - pos))[i]
        == data.subrange(pos, end)[i] by {
        assert(agrees(data, pos, output, start, i));
    }
    assert(output.subrange(start, start + (end - pos)) =~= data.subrange(pos, end));
}

/// The index behind the image that starts at `pos`, where it is whole.
pub open spec fn image_end(data: Seq<u8>, pos: int) -> Option<int> {
    if pos < 0 || pos + 10 > data.len() || pos + 10 + gif::table_size(data[pos + 9])
        >= data.len() {
        None
    } else {
        gif::sub_blocks_end(data, pos + 10 + gif::table_size(data[pos + 9]) + 1)
    }
}

/// An image that stands in `output` at `start` as it stands in `data` at
/// `pos` is copied again.
pub proof fn lemma_gif_image_again(data: Seq<u8>, pos: int, output: Seq<u8>, start: int)
    requires
        0 <= pos < data.len(),
        data[pos] == gif::IMAGE,
        image_end(data, pos).is_some(),
        0 <= start,
        start + (image_end(data, pos).unwrap() - pos) <= output.len(),
        forall|i: int|
            0 <= i < image_end(data, pos).unwrap() - pos ==> #[trigger] agrees(
                data,
                pos,
                output,
                start,
                i,
            ),
    ensures
        gif::blocks_from(output, start) == prepend(
            data.subrange(pos, image_end(data, pos).unwrap()),
            gif::blocks_from(output, start + (image_end(data, pos).unwrap() - pos)),
        ),
{
    let end = image_end(data, pos).unwrap();
    let code = pos + 10 + gif::table_size(data[pos + 9]);
    let shift = code + 1 - pos;
    gif::lemma_sub_blocks_end_bounds(data, code + 1);
    assert(agrees(data, pos, output, start, 0));
    assert(agrees(data, pos, output, start, 9));
    assert forall|i: int| 0 <= i < end - (code + 1) implies #[trigger] agrees(
        data,
        code + 1,
        output,
        start + shift,
        i,
    ) by {
        assert(agrees(data, pos, output, start, shift + i));
    }
    lemma_sub_blocks_elsewhere(data, code + 1, output, start + shift);
    assert forall|i: int| 0 <= i < end - pos implies output.subrange(start, start + (end - pos))[i]
        == data.subrange(pos, end)[i] by {
        assert(agrees(data, pos, output, start, i));
    }
    assert(output.subrange(start, start + (end - pos)) =~= data.subrange(pos, end));
}

/// A piece of `data` stands behind `prefix` in what is written of it.
pub proof fn lemma_piece_agrees(
    data: Seq<u8>,
    pos: int,
    end: int,
    prefix: Seq<u8>,
    rest: Seq<u8>,
)
    requires
        0 <= pos <= end <= data.len(),
    ensures
        prefix + (data.subrange(pos, end) + rest) == (prefix + data.subrange(pos, end)) + rest,
        forall|i: int|
            0 <= i < end - pos ==> #[trigger] agrees(
                data,
                pos,
                prefix + (data.subrange(pos, end) + rest),
                prefix.len() as int,
                i,
            ),
{
    let piece = data.subrange(pos, end);
    assert(prefix + (piece + rest) =~= (prefix + piece) + rest);
    assert forall|i: int| 0 <= i < end - pos implies #[trigger] agrees(
        data,
        pos,
        prefix + (piece + rest),
        prefix.len() as int,
        i,
    ) by {
        assert(piece[i] == data[pos + i]);
    }
}

/// What the codec writes for the blocks from `pos` on, it writes again
/// when it reads that output behind any prefix.
pub proof fn lemma_gif_blocks_again(data: Seq<u8>, pos: int, prefix: Seq<u8>)
    requires
        0 <= pos <= data.len(),
    ensures
        gif::blocks_from(data, pos) matches Some(tail) ==> gif::blocks_from(
            prefix + tail,
            prefix.len() as int,
        ) == Some(tail),
    decreases data.len() - pos,
{
    let start = prefix.len() as int;
    if pos >= data.len() || data[pos] == gif::TRAILER {
        let output = prefix + seq![gif::TRAILER];
        assert(output[start] == gif::TRAILER);
    } else if data[pos] == gif::EXTENSION {
        if pos + 2 <= data.len() {
            gif::lemma_sub_blocks_end_bounds(data, pos + 2);
            if let Some(end) = gif::sub_blocks_end(data, pos + 2) {
                if gif::keeps_extension(data, pos) {
                    if let Some(rest) = gif::blocks_from(data, end) {
                        let piece = data.subrange(pos, end);
                        lemma_gif_blocks_again(data, end, prefix + piece);
                        lemma_piece_agrees(data, pos, end, prefix, rest);
                        lemma_gif_extension_again(data, pos, prefix + (piece + rest), start);
                    }
                } else {
                    lemma_gif_blocks_again(data, end, prefix);
                }
            }
        }
    } else if data[pos] == gif::IMAGE {
        if let Some(end) = image_end(data, pos) {
            let code = pos + 10 + gif::table_size(data[pos + 9]);
            gif::lemma_sub_blocks_end_bounds(data, code + 1);
            if let Some(rest) = gif::blocks_from(data, end) {
                let piece = data.subrange(pos, end);
                lemma_gif_blocks_again(data, end, prefix + piece);
                lemma_piece_agrees(data, pos, end, prefix, rest);
                lemma_gif_image_again(data, pos, prefix + (piece + rest), start);
            }
        }
    } else {
        lemma_gif_blocks_again(data, pos + 1, prefix);
    }
}

/// Stripping a stripped GIF changes nothing: the codec accepts its own
/// output and writes it again byte for byte.
pub proof fn lemma_gif_strip_twice(data: Seq<u8>)
    ensures
        gif::stripped(data) matches Some(output) ==> gif::stripped(output) == Some(output),
{
    if data.len() >= 13 && gif_magic(data) {
        let start = 13 + gif::table_size(data[10]);
        if start <= data.len() {
            if let Some(tail) = gif::blocks_from(data, start) {
                let head = data.subrange(0, start);
                let output = head + tail;
                lemma_gif_blocks_again(data, start, head);
                assert(output[0] == head[0] && output[1] == head[1] && output[2] == head[2]
                    && output[3] == head[3] && output[4] == head[4] && output[5] == head[5]
                    && output[10] == head[10]);
                assert(output.subrange(0, start) =~= head);
            }
        }
    }
}

/// A chunk as parsing gives it: a type of four bytes and data whose
/// length fits the length field.
pub open spec fn well_formed(chunk: ChunkModel) -> bool {
    chunk.kind.len() == 4 && chunk.data.len() <= u32::MAX
}

/// The chunks that are not PNG metadata, in order.
pub open spec fn png_kept(chunks: Seq<ChunkModel>) -> Seq<ChunkModel>
    decreases chunks.len(),
{
    if chunks.len() == 0 {
        Seq::empty()
    } else if png::metadata_kind(chunks.last().kind) {
        png_kept(chunks.drop_last())
    } else {
        png_kept(chunks.drop_last()).push(chunks.last())
    }
}

/// The four bytes of a number denote that number.
pub proof fn lemma_be32_round_trip(value: u32)
    ensures
        png::be32(
            png::be32_bytes(value)[0],
            png::be32_bytes(value)[1],
            png::be32_bytes(value)[2],
            png::be32_bytes(value)[3],
        ) == value,
{
}

/// Every parsed chunk is well formed, and only the last can be `IEND`.
pub proof fn lemma_png_parsed_shape(data: Seq<u8>, pos: int)
    requires
        0 <= pos,
    ensures
        png::chunks_from(data, pos) matches Some(chunks) ==> forall|i: int|
            0 <= i < chunks.len() ==> well_formed(#[trigger] chunks[i]) && (png::is_iend(
                chunks[i].kind,
            ) ==> i == chunks.len() - 1),
    decreases data.len() - pos,
{
    if pos < data.len() && pos + 8 <= data.len() {
        let length = png::be32(data[pos], data[pos + 1], data[pos + 2], data[pos + 3]);
        let body = pos + 8;
        if body + length + 4 <= data.len() {
            let chunk = ChunkModel {
                kind: data.subrange(pos + 4, pos + 8),
                data: data.subrange(body, body + length),
            };
            if !png::is_iend(chunk.kind) {
                lemma_png_parsed_shape(data, body + length + 4);
                if let Some(rest) = png::chunks_from(data, body + length + 4) {
                    let chunks = seq![chunk] + rest;
                    assert forall|i: int| 0 <= i < chunks.len() implies well_formed(
                        #[trigger] chunks[i],
                    ) && (png::is_iend(chunks[i].kind) ==> i == chunks.len() - 1) by {
                        if i > 0 {
                            assert(chunks[i] == rest[i - 1]);
                        }
                    }
                }
            }
        }
    }
}

/// The kept chunks are encoded as the chunks they are kept from; they
/// are well formed where those are, none is metadata, and none is `IEND`
/// where none of those is.
pub proof fn lemma_png_kept_shape(chunks: Seq<ChunkModel>)
    requires
        forall|i: int| 0 <= i < chunks.len() ==> well_formed(#[trigger] chunks[i]),
    ensures
        png::encode_kept(png_kept(chunks)) == png::encode_kept(chunks),
        forall|i: int|
            0 <= i < png_kept(chunks).len() ==> well_formed(#[trigger] png_kept(chunks)[i])
                && !png::metadata_kind(png_kept(chunks)[i].kind),
        (forall|i: int| 0 <= i < chunks.len() ==> !png::is_iend((#[trigger] chunks[i]).kind))
            ==> forall|i: int|
            0 <= i < png_kept(chunks).len() ==> !png::is_iend(
                (#[trigger] png_kept(chunks)[i]).kind,
            ),
    decreases chunks.len(),
{
    if chunks.len() > 0 {
        let shorter = chunks.drop_last();
        assert forall|i: int| 0 <= i < shorter.len() implies well_formed(
            #[trigger] shorter[i],
        ) by {
            assert(shorter[i] == chunks[i]);
        }
        lemma_png_kept_shape(shorter);
        if !png::metadata_kind(chunks.last().kind) {
            let kept = png_kept(shorter).push(chunks.last());
            assert(kept.drop_last() =~= png_kept(shorter));
            assert(kept.last() == chunks.last());
        }
        if forall|i: int| 0 <= i < chunks.len() ==> !png::is_iend((#[trigger] chunks[i]).kind) {
            assert forall|i: int| 0 <= i < shorter.len() implies !png::is_iend(
                (#[trigger] shorter[i]).kind,
            ) by {
                assert(shorter[i] == chunks[i]);
            }
        }
    }
}

/// A chunk of a type that is no metadata is among the kept chunks where
/// it is among the chunks.
pub proof fn lemma_png_kept_has_kind(chunks: Seq<ChunkModel>, a: u8, b: u8, c: u8, d: u8)
    requires
        has_kind(chunks, a, b, c, d),
        forall|kind: Seq<u8>| four(kind, a, b, c, d) ==> !png::metadata_kind(kind),
    ensures
        has_kind(png_kept(chunks), a, b, c, d),
    decreases chunks.len(),
{
    let at = choose|i: int| 0 <= i < chunks.len() && four(#[trigger] chunks[i].kind, a, b, c, d);
    let shorter = chunks.drop_last();
    if at == chunks.len() - 1 {
        let kept = png_kept(shorter).push(chunks.last());
        assert(four(kept[kept.len() - 1].kind, a, b, c, d));
    } else {
        assert(four(shorter[at].kind, a, b, c, d));
        lemma_png_kept_has_kind(shorter, a, b, c, d);
        let found = choose|i: int|
            0 <= i < png_kept(shorter).len() && four(
                #[trigger] png_kept(shorter)[i].kind,
                a,
                b,
                c,
                d,
            );
        if !png::metadata_kind(chunks.last().kind) {
            let kept = png_kept(shorter).push(chunks.last());
            assert(four(kept[found].kind, a, b, c, d));
        }
    }
}

/// A well-formed chunk whose encoding stands in `output` at `at` is
/// parsed there as itself.
pub proof fn lemma_png_chunk_again(chunk: ChunkModel, output: Seq<u8>, at: int)
    requires
        well_formed(chunk),
        0 <= at,
        at + png::encoded(chunk).len() <= output.len(),
        output.subrange(at, at + png::encoded(chunk).len()) == png::encoded(chunk),
    ensures
        png::chunks_from(output, at) == if png::is_iend(chunk.kind) {
            Some(seq![chunk])
        } else {
            prepend(seq![chunk], png::chunks_from(output, at + png::encoded(chunk).len()))
        },
{
    let bytes = png::encoded(chunk);
    let size = chunk.data.len() as int;
    let window = output.subrange(at, at + bytes.len());
    let head = png::be32_bytes(size as u32);
    assert(bytes.len() == 12 + size);
    assert forall|i: int| 0 <= i < bytes.len() implies output[at + i] == #[trigger] bytes[i] by {
        assert(window[i] == output[at + i]);
    }
    assert(bytes[0] == head[0] && bytes[1] == head[1] && bytes[2] == head[2] && bytes[3]
        == head[3]);
    lemma_be32_round_trip(size as u32);
    assert(output[at + 0] == bytes[0] && output[at + 1] == bytes[1] && output[at + 2] == bytes[2]
        && output[at + 3] == bytes[3]);
    assert(png::be32(output[at], output[at + 1], output[at + 2], output[at + 3]) == size);
    assert forall|i: int| 0 <= i < 4 implies output.subrange(at + 4, at + 8)[i]
        == chunk.kind[i] by {
        assert(bytes[4 + i] == chunk.kind[i]);
    }
    assert(output.subrange(at + 4, at + 8) =~= chunk.kind);
    assert forall|i: int| 0 <= i < size implies output.subrange(at + 8, at + 8 + size)[i]
        == chunk.data[i] by {
        assert(bytes[8 + i] == chunk.data[i]);
    }
    assert(output.subrange(at + 8, at + 8 + size) =~= chunk.data);
}

/// Chunks without metadata and without `IEND` whose encodings stand in a
/// row are parsed as themselves, and parsing goes on behind them.
pub proof fn lemma_png_chunks_again(list: Seq<ChunkModel>, prefix: Seq<u8>, suffix: Seq<u8>)
    requires
        forall|i: int|
            0 <= i < list.len() ==> well_formed(#[trigger] list[i]) && !png::metadata_kind(
                list[i].kind,
            ) && !png::is_iend(list[i].kind),
    ensures
        png::chunks_from(prefix + png::encode_kept(list) + suffix, prefix.len() as int) == prepend(
            list,
            png::chunks_from(
                prefix + png::encode_kept(list) + suffix,
                (prefix.len() + png::encode_kept(list).len()) as int,
            ),
        ),
    decreases list.len(),
{
    let output = prefix + png::encode_kept(list) + suffix;
    if list.len() == 0 {
        if let Some(tail) = png::chunks_from(output, prefix.len() as int) {
            assert(list + tail =~= tail);
        }
    } else {
        let shorter = list.drop_last();
        let chunk = list.last();
        let before = png::encode_kept(shorter);
        let bytes = png::encoded(chunk);
        assert forall|i: int| 0 <= i < shorter.len() implies well_formed(#[trigger] shorter[i])
            && !png::metadata_kind(shorter[i].kind) && !png::is_iend(shorter[i].kind) by {
            assert(shorter[i] == list[i]);
        }
        lemma_png_chunks_again(shorter, prefix, bytes + suffix);
        assert(output =~= prefix + before + (bytes + suffix));
        let at = (prefix.len() + before.len()) as int;
        assert(output.subrange(at, at + bytes.len()) =~= bytes);
        lemma_png_chunk_again(chunk, output, at);
        lemma_prepend_twice(shorter, seq![chunk], png::chunks_from(output, at + bytes.len()));
        assert(shorter + seq![chunk] =~= list);
    }
}

/// What the PNG codec writes parses as the chunks of the input that are
/// no metadata, each with the type and data it had: no metadata chunk is
/// left, and no other chunk is changed.
pub proof fn lemma_png_output_chunks(data: Seq<u8>)
    ensures
        png::stripped(data) matches Some(output) ==> png::chunks_from(output, 8) == Some(
            png_kept(png::chunks_from(data, 8).unwrap()),
        ) && (forall|i: int|
            0 <= i < png_kept(png::chunks_from(data, 8).unwrap()).len() ==> !png::metadata_kind(
                (#[trigger] png_kept(png::chunks_from(data, 8).unwrap())[i]).kind,
            )) && has_kind(png_kept(png::chunks_from(data, 8).unwrap()), 0x49, 0x48, 0x44, 0x52)
            && has_kind(png_kept(png::chunks_from(data, 8).unwrap()), 0x49, 0x45, 0x4E, 0x44),
{
    if let Some(output) = png::stripped(data) {
        let chunks = png::chunks_from(data, 8).unwrap();
        lemma_png_parsed_shape(data, 8);
        let end = choose|i: int|
            0 <= i < chunks.len() && four(#[trigger] chunks[i].kind, 0x49, 0x45, 0x4E, 0x44);
        assert(png::is_iend(chunks[end].kind));
        let last = chunks.last();
        let shorter = chunks.drop_last();
        assert forall|i: int| 0 <= i < shorter.len() implies well_formed(#[trigger] shorter[i])
            && !png::is_iend(shorter[i].kind) by {
            assert(shorter[i] == chunks[i]);
        }
        lemma_png_kept_shape(shorter);
        let middle = png_kept(shorter);
        let bytes = png::encoded(last);
        assert(output =~= png::signature() + png::encode_kept(middle) + bytes);
        lemma_png_chunks_again(middle, png::signature(), bytes);
        let at = (png::signature().len() + png::encode_kept(middle).len()) as int;
        assert(output.subrange(at, at + bytes.len()) =~= bytes);
        lemma_png_chunk_again(last, output, at);
        let again = middle + seq![last];
        assert(again =~= png_kept(chunks));
        assert(png::chunks_from(output, 8) == Some(again));
        assert forall|i: int| 0 <= i < again.len() implies !png::metadata_kind(
            (#[trigger] again[i]).kind,
        ) by {
            if i < middle.len() {
                assert(again[i] == middle[i]);
            }
        }
        lemma_png_kept_has_kind(chunks, 0x49, 0x48, 0x44, 0x52);
        lemma_png_kept_has_kind(chunks, 0x49, 0x45, 0x4E, 0x44);
    }
}

/// Stripping a stripped PNG changes nothing: the codec accepts its own
/// output and writes it again byte for byte.
pub proof fn lemma_png_strip_twice(data: Seq<u8>)
    ensures
        png::stripped(data) matches Some(output) ==> png::stripped(output) == Some(output),
{
    if let Some(output) = png::stripped(data) {
        let chunks = png::chunks_from(data, 8).unwrap();
        lemma_png_output_chunks(data);
        lemma_png_parsed_shape(data, 8);
        lemma_png_kept_shape(chunks);
        let kept = png_kept(chunks);
        lemma_png_kept_shape(kept);
        lemma_png_kept_fixed(kept);
        assert(output.subrange(0, 8) =~= png::signature());
    }
}

/// Chunks without metadata are all kept.
pub proof fn lemma_png_kept_fixed(chunks: Seq<ChunkModel>)
    requires
        forall|i: int| 0 <= i < chunks.len() ==> !png::metadata_kind((#[trigger] chunks[i]).kind),
    ensures
        png_kept(chunks) == chunks,
    decreases chunks.len(),
{
    if chunks.len() > 0 {
        let shorter = chunks.drop_last();
        assert forall|i: int| 0 <= i < shorter.len() implies !png::metadata_kind(
            (#[trigger] shorter[i]).kind,
        ) by {
            assert(shorter[i] == chunks[i]);
        }
        lemma_png_kept_fixed(shorter);
        assert(!png::metadata_kind(chunks[chunks.len() - 1].kind));
        assert(shorter.push(chunks.last()) =~= chunks);
    } else {
        assert(png_kept(chunks) =~= chunks);
    }
}

/// The chunks that the WebP codec writes: those that are no metadata, an
/// extended header with its flags cleared.
pub open spec fn webp_written(chunks: Seq<ChunkModel>) -> Seq<ChunkModel>
    decreases chunks.len(),
{
    if chunks.len() == 0 {
        Seq::empty()
    } else if webp::metadata_kind(chunks.last().kind) {
        webp_written(chunks.drop_last())
    } else {
        webp_written(chunks.drop_last()).push(webp::rewritten(chunks.last()))
    }
}

/// The encodings of all the chunks, one behind the other.
pub open spec fn webp_encoded_all(chunks: Seq<ChunkModel>) -> Seq<u8>
    decreases chunks.len(),
{
    if chunks.len() == 0 {
        Seq::empty()
    } else {
        webp_encoded_all(chunks.drop_last()) + webp::encoded(chunks.last())
    }
}

/// A chunk that is written as it is: no metadata, and no flag left to
/// clear.
pub open spec fn settled(chunk: ChunkModel) -> bool {
    well_formed(chunk) && !webp::metadata_kind(chunk.kind) && webp::rewritten(chunk) == chunk
}

/// The four bytes of a number denote that number.
pub proof fn lemma_le32_round_trip(value: u32)
    ensures
        webp::le32(
            webp::le32_bytes(value)[0],
            webp::le32_bytes(value)[1],
            webp::le32_bytes(value)[2],
            webp::le32_bytes(value)[3],
        ) == value,
{
}

/// Clearing the flags twice is clearing them once.
pub proof fn lemma_rewritten_once(chunk: ChunkModel)
    ensures
        webp::rewritten(webp::rewritten(chunk)) == webp::rewritten(chunk),
        webp::rewritten(chunk).kind == chunk.kind,
        webp::rewritten(chunk).data.len() == chunk.data.len(),
{
    if webp::is_vp8x(chunk.kind) && chunk.data.len() > 0 {
        let flags = chunk.data[0];
        assert((flags & 0xD7) & 0xD7 == flags & 0xD7) by (bit_vector);
        let once = webp::cleared_flags(chunk.data);
        assert(webp::cleared_flags(once) =~= once);
    }
}

/// Every parsed chunk is well formed.
pub proof fn lemma_webp_parsed_shape(data: Seq<u8>, pos: int)
    requires
        0 <= pos,
    ensures
        webp::chunks_from(data, pos) matches Some(chunks) ==> forall|i: int|
            0 <= i < chunks.len() ==> well_formed(#[trigger] chunks[i]),
    decreases data.len() - pos,
{
    if pos + 8 <= data.len() {
        let size = webp::le32(data[pos + 4], data[pos + 5], data[pos + 6], data[pos + 7]);
        let body = pos + 8;
        if body + size <= data.len() {
            let chunk = ChunkModel {
                kind: data.subrange(pos, pos + 4),
                data: data.subrange(body, body + size),
            };
            let next = body + webp::padded(size);
            if next <= data.len() {
                lemma_webp_parsed_shape(data, next);
                if let Some(rest) = webp::chunks_from(data, next) {
                    let chunks = seq![chunk] + rest;
                    assert forall|i: int| 0 <= i < chunks.len() implies well_formed(
                        #[trigger] chunks[i],
                    ) by {
                        if i > 0 {
                            assert(chunks[i] == rest[i - 1]);
                        }
                    }
                }
            }
        }
    }
}

/// What is written of well-formed chunks is settled, and its encodings
/// are what the codec writes.
pub proof fn lemma_webp_written_shape(chunks: Seq<ChunkModel>)
    requires
        forall|i: int| 0 <= i < chunks.len() ==> well_formed(#[trigger] chunks[i]),
    ensures
        webp::encode_kept(chunks) == webp_encoded_all(webp_written(chunks)),
        forall|i: int|
            0 <= i < webp_written(chunks).len() ==> settled(#[trigger] webp_written(chunks)[i]),
    decreases chunks.len(),
{
    if chunks.len() > 0 {
        let shorter = chunks.drop_last();
        assert forall|i: int| 0 <= i < shorter.len() implies well_formed(
            #[trigger] shorter[i],
        ) by {
            assert(shorter[i] == chunks[i]);
        }
        lemma_webp_written_shape(shorter);
        if !webp::metadata_kind(chunks.last().kind) {
            lemma_rewritten_once(chunks.last());
            let written = webp_written(shorter).push(webp::rewritten(chunks.last()));
            assert(written.drop_last() =~= webp_written(shorter));
            assert(written.last() == webp::rewritten(chunks.last()));
        }
    }
}

/// Settled chunks are written as they are.
pub proof fn lemma_webp_written_settled(chunks: Seq<ChunkModel>)
    requires
        forall|i: int| 0 <= i < chunks.len() ==> settled(#[trigger] chunks[i]),
    ensures
        webp_written(chunks) == chunks,
    decreases chunks.len(),
{
    if chunks.len() > 0 {
        let shorter = chunks.drop_last();
        assert forall|i: int| 0 <= i < shorter.len() implies settled(#[trigger] shorter[i]) by {
            assert(shorter[i] == chunks[i]);
        }
        lemma_webp_written_settled(shorter);
        assert(settled(chunks[chunks.len() - 1]));
        assert(shorter.push(chunks.last()) =~= chunks);
    } else {
        assert(webp_written(chunks) =~= chunks);
    }
}

/// A chunk of a type that is no metadata is among the written chunks
/// where it is among the chunks.
pub proof fn lemma_webp_written_has_kind(chunks: Seq<ChunkModel>, a: u8, b: u8, c: u8, d: u8)
    requires
        has_kind(chunks, a, b, c, d),
        forall|kind: Seq<u8>| four(kind, a, b, c, d) ==> !webp::metadata_kind(kind),
    ensures
        has_kind(webp_written(chunks), a, b, c, d),
    decreases chunks.len(),
{
    let at = choose|i: int| 0 <= i < chunks.len() && four(#[trigger] chunks[i].kind, a, b, c, d);
    let shorter = chunks.drop_last();
    if at == chunks.len() - 1 {
        lemma_rewritten_once(chunks.last());
        let written = webp_written(shorter).push(webp::rewritten(chunks.last()));
        assert(four(written[written.len() - 1].kind, a, b, c, d));
    } else {
        assert(four(shorter[at].kind, a, b, c, d));
        lemma_webp_written_has_kind(shorter, a, b, c, d);
        let found = choose|i: int|
            0 <= i < webp_written(shorter).len() && four(
                #[trigger] webp_written(shorter)[i].kind,
                a,
                b,
                c,
                d,
            );
        if !webp::metadata_kind(chunks.last().kind) {
            let written = webp_written(shorter).push(webp::rewritten(chunks.last()));
            assert(four(written[found].kind, a, b, c, d));
        }
    }
}

/// A well-formed chunk whose encoding stands in `output` at `at` is
/// parsed there as itself, and parsing goes on behind its padding.
pub proof fn lemma_webp_chunk_again(chunk: ChunkModel, output: Seq<u8>, at: int)
    requires
        well_formed(chunk),
        0 <= at,
        at + webp::encoded(chunk).len() <= output.len(),
        output.subrange(at, at + webp::encoded(chunk).len()) == webp::encoded(chunk),
    ensures
        webp::chunks_from(output, at) == prepend(
            seq![chunk],
            webp::chunks_from(output, at + webp::encoded(chunk).len()),
        ),
{
    let bytes = webp::encoded(chunk);
    let size = chunk.data.len() as int;
    let window = output.subrange(at, at + bytes.len());
    let field = webp::le32_bytes(size as u32);
    assert(bytes.len() == 8 + webp::padded(size));
    assert forall|i: int| 0 <= i < bytes.len() implies output[at + i] == #[trigger] bytes[i] by {
        assert(window[i] == output[at + i]);
    }
    assert(bytes[4] == field[0] && bytes[5] == field[1] && bytes[6] == field[2] && bytes[7]
        == field[3]);
    lemma_le32_round_trip(size as u32);
    assert(output[at + 4] == bytes[4] && output[at + 5] == bytes[5] && output[at + 6] == bytes[6]
        && output[at + 7] == bytes[7]);
    assert(webp::le32(output[at + 4], output[at + 5], output[at + 6], output[at + 7]) == size);
    assert forall|i: int| 0 <= i < 4 implies output.subrange(at, at + 4)[i] == chunk.kind[i] by {
        assert(bytes[i] == chunk.kind[i]);
    }
    assert(output.subrange(at, at + 4) =~= chunk.kind);
    assert forall|i: int| 0 <= i < size implies output.subrange(at + 8, at + 8 + size)[i]
        == chunk.data[i] by {
        assert(bytes[8 + i] == chunk.data[i]);
    }
    assert(output.subrange(at + 8, at + 8 + size) =~= chunk.data);
}

/// Well-formed chunks whose encodings stand in a row are parsed as
/// themselves, and parsing goes on behind them.
pub proof fn lemma_webp_chunks_again(list: Seq<ChunkModel>, prefix: Seq<u8>, suffix: Seq<u8>)
    requires
        forall|i: int| 0 <= i < list.len() ==> well_formed(#[trigger] list[i]),
    ensures
        webp::chunks_from(prefix + webp_encoded_all(list) + suffix, prefix.len() as int)
            == prepend(
            list,
            webp::chunks_from(
                prefix + webp_encoded_all(list) + suffix,
                (prefix.len() + webp_encoded_all(list).len()) as int,
            ),
        ),
    decreases list.len(),
{
    let output = prefix + webp_encoded_all(list) + suffix;
    if list.len() == 0 {
        if let Some(tail) = webp::chunks_from(output, prefix.len() as int) {
            assert(list + tail =~= tail);
        }
    } else {
        let shorter = list.drop_last();
        let chunk = list.last();
        let before = webp_encoded_all(shorter);
        let bytes = webp::encoded(chunk);
        assert forall|i: int| 0 <= i < shorter.len() implies well_formed(
            #[trigger] shorter[i],
        ) by {
            assert(shorter[i] == list[i]);
        }
        lemma_webp_chunks_again(shorter, prefix, bytes + suffix);
        assert(output =~= prefix + before + (bytes + suffix));
        let at = (prefix.len() + before.len()) as int;
        assert(output.subrange(at, at + bytes.len()) =~= bytes);
        lemma_webp_chunk_again(chunk, output, at);
        lemma_prepend_twice(shorter, seq![chunk], webp::chunks_from(output, at + bytes.len()));
        assert(shorter + seq![chunk] =~= list);
    }
}

/// What the WebP codec writes parses as the chunks of the input that are
/// no metadata, an extended header with its metadata flags cleared and
/// every other chunk with the tag and data it had.
pub proof fn lemma_webp_output_chunks(data: Seq<u8>)
    ensures
        webp::stripped(data) matches Some(output) ==> webp_magic(output) && webp::chunks_from(
            output,
            12,
        ) == Some(webp_written(webp::chunks_from(data, 12).unwrap())) && (forall|i: int|
            0 <= i < webp_written(webp::chunks_from(data, 12).unwrap()).len() ==> settled(
                #[trigger] webp_written(webp::chunks_from(data, 12).unwrap())[i],
            )),
{
    if let Some(output) = webp::stripped(data) {
        let chunks = webp::chunks_from(data, 12).unwrap();
        lemma_webp_parsed_shape(data, 12);
        lemma_webp_written_shape(chunks);
        let written = webp_written(chunks);
        let body = webp::encode_kept(chunks);
        let head = webp::header(body.len() as int);
        assert(head.len() == 12);
        assert(output == head + body);
        assert forall|i: int| 0 <= i < written.len() implies well_formed(
            #[trigger] written[i],
        ) by {
            assert(settled(written[i]));
        }
        lemma_webp_chunks_again(written, head, Seq::empty());
        assert(output =~= head + webp_encoded_all(written) + Seq::<u8>::empty());
        assert(webp::chunks_from(output, output.len() as int) == Some(
            Seq::<ChunkModel>::empty(),
        ));
        assert(written + Seq::<ChunkModel>::empty() =~= written);
        assert(output[0] == head[0] && output[1] == head[1] && output[2] == head[2] && output[3]
            == head[3] && output[8] == head[8] && output[9] == head[9] && output[10] == head[10]
            && output[11] == head[11]);
    }
}

/// Stripping a stripped WebP changes nothing: the codec accepts its own
/// output and writes it again byte for byte.
pub proof fn lemma_webp_strip_twice(data: Seq<u8>)
    ensures
        webp::stripped(data) matches Some(output) ==> webp::stripped(output) == Some(output),
{
    if let Some(output) = webp::stripped(data) {
        let chunks = webp::chunks_from(data, 12).unwrap();
        lemma_webp_output_chunks(data);
        let written = webp_written(chunks);
        if has_kind(chunks, 0x56, 0x50, 0x38, 0x20) {
            lemma_webp_written_has_kind(chunks, 0x56, 0x50, 0x38, 0x20);
        } else if has_kind(chunks, 0x56, 0x50, 0x38, 0x4C) {
            lemma_webp_written_has_kind(chunks, 0x56, 0x50, 0x38, 0x4C);
        } else {
            lemma_webp_written_has_kind(chunks, 0x56, 0x50, 0x38, 0x58);
        }
        assert forall|i: int| 0 <= i < written.len() implies well_formed(
            #[trigger] written[i],
        ) by {
            assert(settled(written[i]));
        }
        lemma_webp_written_shape(written);
        lemma_webp_written_settled(written);
        lemma_webp_parsed_shape(data, 12);
        lemma_webp_written_shape(chunks);
    }
}

/// What the JPEG codec writes for segments is nothing, or starts with a
/// marker that is neither stuffing nor a restart marker; and an
/// end-of-image marker is the last thing written.
pub proof fn lemma_jpeg_tail_shape(data: Seq<u8>, pos: int)
    requires
        0 <= pos <= data.len(),
    ensures
        jpeg::segments_from(data, pos) matches Some(tail) ==> tail.len() == 0 || (tail.len() >= 2
            && tail[0] == jpeg::MARKER_PREFIX && tail[1] != jpeg::MARKER_PREFIX && tail[1] != 0x00
            && !jpeg::restart_marker(tail[1]) && (tail[1] == jpeg::EOI ==> tail.len() == 2)),
    decreases data.len() - pos,
{
    if pos < data.len() && data[pos] == jpeg::MARKER_PREFIX {
        jpeg::lemma_fill_end_bounds(data, pos);
        let at = jpeg::fill_end(data, pos);
        if at < data.len() {
            let marker = data[at];
            let body = at + 1;
            if marker == jpeg::EOI {
            } else if marker == jpeg::SOS {
            } else if jpeg::standalone_marker(marker) {
                lemma_jpeg_tail_shape(data, body);
            } else if body + 2 <= data.len() {
                let length = jpeg::be16(data[body], data[body + 1]);
                if length >= 2 && body + length <= data.len() && jpeg::metadata_marker(marker) {
                    lemma_jpeg_tail_shape(data, body + length);
                }
            }
        }
    }
}

/// Entropy-coded data that stands in `output` at `to` as it stands in
/// `data` at `from` ends at the matching index where it is closed by its
/// own end-of-image marker, and else where the scan of what follows it in
/// `output` ends.
pub proof fn lemma_scan_elsewhere(data: Seq<u8>, from: int, output: Seq<u8>, to: int)
    requires
        0 <= from <= data.len(),
        0 <= to,
        to + (jpeg::scan_end(data, from) - from) <= output.len(),
        jpeg::scan_end(data, from) == data.len() ==> to + (jpeg::scan_end(data, from) - from)
            == output.len(),
        forall|i: int|
            0 <= i < jpeg::scan_end(data, from) - from ==> #[trigger] agrees(
                data,
                from,
                output,
                to,
                i,
            ),
    ensures
        jpeg::scan_end(output, to) == if jpeg::scan_closed(data, from) {
            to + (jpeg::scan_end(data, from) - from)
        } else {
            jpeg::scan_end(output, to + (jpeg::scan_end(data, from) - from))
        },
        jpeg::scan_closed(output, to) == (jpeg::scan_closed(data, from) || jpeg::scan_closed(
            output,
            to + (jpeg::scan_end(data, from) - from),
        )),
    decreases data.len() - from,
{
    jpeg::lemma_scan_end_bounds(data, from);
    let end = jpeg::scan_end(data, from);
    if from < data.len() {
        if data[from] == jpeg::MARKER_PREFIX && from + 1 < data.len() {
            let next = data[from + 1];
            if next == 0x00 || jpeg::restart_marker(next) {
                jpeg::lemma_scan_end_bounds(data, from + 2);
                assert(agrees(data, from, output, to, 0));
                assert(agrees(data, from, output, to, 1));
                assert forall|i: int| 0 <= i < end - (from + 2) implies #[trigger] agrees(
                    data,
                    from + 2,
                    output,
                    to + 2,
                    i,
                ) by {
                    assert(agrees(data, from, output, to, 2 + i));
                }
                lemma_scan_elsewhere(data, from + 2, output, to + 2);
            } else if next == jpeg::EOI {
                assert(agrees(data, from, output, to, 0));
                assert(agrees(data, from, output, to, 1));
            }
        } else {
            jpeg::lemma_scan_end_bounds(data, from + 1);
            assert(agrees(data, from, output, to, 0));
            assert forall|i: int| 0 <= i < end - (from + 1) implies #[trigger] agrees(
                data,
                from + 1,
                output,
                to + 1,
                i,
            ) by {
                assert(agrees(data, from, output, to, 1 + i));
            }
            lemma_scan_elsewhere(data, from + 1, output, to + 1);
        }
    }
}

/// The scan behind a scan header covers at least the two bytes of the
/// header's length field.
pub proof fn lemma_scan_covers_length(data: Seq<u8>, body: int)
    requires
        0 <= body,
        body + 2 <= data.len(),
        body + jpeg::be16(data[body], data[body + 1]) <= data.len(),
    ensures
        jpeg::scan_end(data, body + jpeg::be16(data[body], data[body + 1])) >= body + 2,
{
    let length = jpeg::be16(data[body], data[body + 1]);
    jpeg::lemma_scan_end_bounds(data, body + length);
    if length == 0 {
        jpeg::lemma_scan_end_bounds(data, body + 1);
        jpeg::lemma_scan_end_bounds(data, body + 2);
        assert(jpeg::scan_end(data, body) == jpeg::scan_end(data, body + 1));
        assert(jpeg::scan_end(data, body + 1) == jpeg::scan_end(data, body + 2));
    } else if length == 1 {
        jpeg::lemma_scan_end_bounds(data, body + 2);
        assert(jpeg::scan_end(data, body + 1) == jpeg::scan_end(data, body + 2));
    }
}

/// A marker prefix in front of a marker is a fill of one byte.
pub proof fn lemma_fill_of_one(output: Seq<u8>, start: int)
    requires
        0 <= start,
        start + 1 < output.len(),
        output[start] == jpeg::MARKER_PREFIX,
        output[start + 1] != jpeg::MARKER_PREFIX,
    ensures
        jpeg::fill_end(output, start) == start + 1,
{
    assert(jpeg::fill_end(output, start + 1) == start + 1);
}

/// A kept segment that stands in `output` at `start` as it stands in
/// `data` behind the marker at `at` is kept again.
pub proof fn lemma_jpeg_segment_again(data: Seq<u8>, at: int, output: Seq<u8>, start: int)
    requires
        0 <= at,
        at + 3 <= data.len(),
        data[at] != jpeg::MARKER_PREFIX,
        data[at] != jpeg::EOI,
        data[at] != jpeg::SOS,
        !jpeg::standalone_marker(data[at]),
        !jpeg::metadata_marker(data[at]),
        jpeg::be16(data[at + 1], data[at + 2]) >= 2,
        at + 1 + jpeg::be16(data[at + 1], data[at + 2]) <= data.len(),
        0 <= start,
        start + 2 + jpeg::be16(data[at + 1], data[at + 2]) <= output.len(),
        output[start] == jpeg::MARKER_PREFIX,
        output[start + 1] == data[at],
        forall|i: int|
            0 <= i < jpeg::be16(data[at + 1], data[at + 2]) ==> #[trigger] agrees(
                data,
                at + 1,
                output,
                start + 2,
                i,
            ),
    ensures
        jpeg::segments_from(output, start) == prepend(
            seq![jpeg::MARKER_PREFIX, data[at]] + data.subrange(
                at + 1,
                at + 1 + jpeg::be16(data[at + 1], data[at + 2]),
            ),
            jpeg::segments_from(output, start + 2 + jpeg::be16(data[at + 1], data[at + 2])),
        ),
{
    let length = jpeg::be16(data[at + 1], data[at + 2]);
    lemma_fill_of_one(output, start);
    assert(agrees(data, at + 1, output, start + 2, 0));
    assert(agrees(data, at + 1, output, start + 2, 1));
    let written = output.subrange(start + 2, start + 2 + length);
    let read = data.subrange(at + 1, at + 1 + length);
    assert forall|i: int| 0 <= i < length implies #[trigger] written[i] == read[i] by {
        assert(agrees(data, at + 1, output, start + 2, i));
    }
    assert(written =~= read);
}

/// The index at which the scan behind the scan header at `body` ends.
pub open spec fn scan_end_behind(data: Seq<u8>, body: int) -> int {
    jpeg::scan_end(data, body + jpeg::be16(data[body], data[body + 1]))
}

/// Whether the scan behind the scan header at `body` ends with an
/// end-of-image marker of its own.
pub open spec fn scan_closed_behind(data: Seq<u8>, body: int) -> bool {
    jpeg::scan_closed(data, body + jpeg::be16(data[body], data[body + 1]))
}

/// A scan that stands in `output` at `start` as it stands in `data`
/// behind the marker in front of `body` is copied again, up to where the
/// scan ends in `output`.
pub proof fn lemma_jpeg_scan_again(data: Seq<u8>, body: int, output: Seq<u8>, start: int)
    requires
        0 <= body,
        body + 2 <= data.len(),
        body + jpeg::be16(data[body], data[body + 1]) <= data.len(),
        0 <= start,
        start + 2 + (scan_end_behind(data, body) - body) <= output.len(),
        scan_end_behind(data, body) == data.len() ==> start + 2 + (scan_end_behind(data, body)
            - body) == output.len(),
        output[start] == jpeg::MARKER_PREFIX,
        output[start + 1] == jpeg::SOS,
        forall|i: int|
            0 <= i < scan_end_behind(data, body) - body ==> #[trigger] agrees(
                data,
                body,
                output,
                start + 2,
                i,
            ),
    ensures
        scan_end_behind(data, body) >= body + 2,
        jpeg::segments_from(output, start) == if scan_closed_behind(output, start + 2) {
            Some(
                seq![jpeg::MARKER_PREFIX, jpeg::SOS] + output.subrange(
                    start + 2,
                    scan_end_behind(output, start + 2),
                ),
            )
        } else {
            prepend(
                seq![jpeg::MARKER_PREFIX, jpeg::SOS] + output.subrange(
                    start + 2,
                    scan_end_behind(output, start + 2),
                ),
                jpeg::segments_from(output, scan_end_behind(output, start + 2)),
            )
        },
        scan_closed_behind(output, start + 2) == (scan_closed_behind(data, body)
            || jpeg::scan_closed(output, start + 2 + (scan_end_behind(data, body) - body))),
        scan_end_behind(output, start + 2) == if jpeg::scan_closed(
            data,
            body + jpeg::be16(data[body], data[body + 1]),
        ) {
            start + 2 + (scan_end_behind(data, body) - body)
        } else {
            jpeg::scan_end(output, start + 2 + (scan_end_behind(data, body) - body))
        },
{
    let length = jpeg::be16(data[body], data[body + 1]);
    let scan = body + length;
    let end = scan_end_behind(data, body);
    lemma_scan_covers_length(data, body);
    jpeg::lemma_scan_end_bounds(data, scan);
    lemma_fill_of_one(output, start);
    assert(agrees(data, body, output, start + 2, 0));
    assert(agrees(data, body, output, start + 2, 1));
    assert forall|i: int| 0 <= i < end - scan implies #[trigger] agrees(
        data,
        scan,
        output,
        start + 2 + length,
        i,
    ) by {
        assert(agrees(data, body, output, start + 2, length + i));
    }
    lemma_scan_elsewhere(data, scan, output, start + 2 + length);
    jpeg::lemma_scan_end_bounds(output, start + 2 + length);
}

/// What the codec writes for the segments from `pos` on, it writes again
/// when it reads that output behind any prefix.
pub proof fn lemma_jpeg_segments_again(data: Seq<u8>, pos: int, prefix: Seq<u8>)
    requires
        0 <= pos <= data.len(),
    ensures
        jpeg::segments_from(data, pos) matches Some(tail) ==> jpeg::segments_from(
            prefix + tail,
            prefix.len() as int,
        ) == Some(tail),
    decreases data.len() - pos,
{
    let start = prefix.len() as int;
    if pos >= data.len() {
        assert(prefix + Seq::<u8>::empty() =~= prefix);
    } else if data[pos] == jpeg::MARKER_PREFIX {
        jpeg::lemma_fill_end_bounds(data, pos);
        let at = jpeg::fill_end(data, pos);
        if at >= data.len() {
            assert(prefix + Seq::<u8>::empty() =~= prefix);
        } else {
            let marker = data[at];
            let body = at + 1;
            if marker == jpeg::EOI {
                let output = prefix + seq![jpeg::MARKER_PREFIX, jpeg::EOI];
                assert(output[start] == jpeg::MARKER_PREFIX);
                assert(output[start + 1] == jpeg::EOI);
                lemma_fill_of_one(output, start);
            } else if marker == jpeg::SOS {
                if body + 2 <= data.len() && body + jpeg::be16(data[body], data[body + 1])
                    <= data.len() {
                    let end = scan_end_behind(data, body);
                    jpeg::lemma_scan_end_bounds(
                        data,
                        body + jpeg::be16(data[body], data[body + 1]),
                    );
                    lemma_scan_covers_length(data, body);
                    if scan_closed_behind(data, body) {
                        lemma_jpeg_scan_piece(data, body, prefix, Seq::empty());
                        assert(seq![jpeg::MARKER_PREFIX, jpeg::SOS] + data.subrange(body, end)
                            + Seq::<u8>::empty() =~= seq![jpeg::MARKER_PREFIX, jpeg::SOS]
                            + data.subrange(body, end));
                    } else if let Some(rest) = jpeg::segments_from(data, end) {
                        lemma_jpeg_scan_piece(data, body, prefix, rest);
                    }
                }
            } else if jpeg::standalone_marker(marker) {
                lemma_jpeg_segments_again(data, body, prefix);
            } else if body + 2 <= data.len() {
                let length = jpeg::be16(data[body], data[body + 1]);
                if length >= 2 && body + length <= data.len() {
                    if jpeg::metadata_marker(marker) {
                        lemma_jpeg_segments_again(data, body + length, prefix);
                    } else if let Some(rest) = jpeg::segments_from(data, body + length) {
                        let mark = seq![jpeg::MARKER_PREFIX, marker];
                        let piece = mark + data.subrange(body, body + length);
                        let output = prefix + (piece + rest);
                        lemma_jpeg_segments_again(data, body + length, prefix + piece);
                        assert(output =~= (prefix + piece) + rest);
                        assert(output[start] == mark[0]);
                        assert(output[start + 1] == mark[1]);
                        assert forall|i: int| 0 <= i < length implies #[trigger] agrees(
                            data,
                            body,
                            output,
                            start + 2,
                            i,
                        ) by {
                            assert(output[start + 2 + i] == piece[2 + i]);
                            assert(piece[2 + i] == data.subrange(body, body + length)[i]);
                        }
                        lemma_jpeg_segment_again(data, at, output, start);
                    }
                }
            }
        }
    }
}

/// The scan case of `lemma_jpeg_segments_again`: a scan and what the
/// codec writes behind it (nothing, where the scan ends with its own
/// end-of-image marker) are written again behind any prefix.
pub proof fn lemma_jpeg_scan_piece(data: Seq<u8>, body: int, prefix: Seq<u8>, rest: Seq<u8>)
    requires
        0 <= body,
        body + 2 <= data.len(),
        body + jpeg::be16(data[body], data[body + 1]) <= data.len(),
        body + 2 <= scan_end_behind(data, body) <= data.len(),
        if scan_closed_behind(data, body) {
            rest.len() == 0
        } else {
            jpeg::segments_from(data, scan_end_behind(data, body)) == Some(rest)
        },
    ensures
        jpeg::segments_from(
            prefix + (seq![jpeg::MARKER_PREFIX, jpeg::SOS] + data.subrange(
                body,
                scan_end_behind(data, body),
            ) + rest),
            prefix.len() as int,
        ) == Some(
            seq![jpeg::MARKER_PREFIX, jpeg::SOS] + data.subrange(body, scan_end_behind(data, body))
                + rest,
        ),
    decreases data.len() - body,
{
    let start = prefix.len() as int;
    let end = scan_end_behind(data, body);
    let closed = scan_closed_behind(data, body);
    let mark = seq![jpeg::MARKER_PREFIX, jpeg::SOS];
    let piece = mark + data.subrange(body, end);
    let output = prefix + (piece + rest);
    let stop = start + 2 + (end - body);
    if !closed {
        lemma_jpeg_segments_again(data, end, prefix + piece);
        lemma_jpeg_tail_shape(data, end);
    }
    assert(output =~= (prefix + piece) + rest);
    assert(output[start] == mark[0]);
    assert(output[start + 1] == mark[1]);
    assert forall|i: int| 0 <= i < end - body implies #[trigger] agrees(
        data,
        body,
        output,
        start + 2,
        i,
    ) by {
        assert(output[start + 2 + i] == piece[2 + i]);
        assert(piece[2 + i] == data.subrange(body, end)[i]);
    }
    if end == data.len() {
        assert(rest.len() == 0);
    }
    lemma_jpeg_scan_again(data, body, output, start);
    let found = scan_end_behind(output, start + 2);
    if rest.len() > 0 {
        assert(output[stop] == rest[0]);
        assert(output[stop + 1] == rest[1]);
    }
    if closed || rest.len() == 0 || rest[1] != jpeg::EOI {
        assert(found == stop);
        assert(scan_closed_behind(output, start + 2) == closed);
        assert(output.subrange(start + 2, stop) =~= data.subrange(body, end));
        if closed {
            assert(piece + rest =~= piece);
        }
    } else {
        assert(found == stop + 2);
        assert(stop + 2 == output.len());
        assert(scan_closed_behind(output, start + 2));
        assert(output.subrange(start + 2, stop + 2) =~= data.subrange(body, end) + rest);
        assert(mark + (data.subrange(body, end) + rest) =~= piece + rest);
    }
}

/// Stripping a stripped JPEG changes nothing, where what was written is
/// long enough to be read as a JPEG: the codec accepts its own output and
/// writes it again byte for byte.
pub proof fn lemma_jpeg_strip_twice(data: Seq<u8>)
    ensures
        jpeg::stripped(data) matches Some(output) ==> (output.len() >= 4 ==> jpeg::stripped(output)
            == Some(output)),
{
    if let Some(output) = jpeg::stripped(data) {
        let mark = seq![jpeg::MARKER_PREFIX, jpeg::SOI];
        let tail = jpeg::segments_from(data, 2).unwrap();
        lemma_jpeg_segments_again(data, 2, mark);
        assert(output == mark + tail);
        assert(output[0] == mark[0] && output[1] == mark[1]);
    }
}

/// Stripping a stripped file removes nothing more: a stripped file that
/// is long enough to be detected is accepted again, and comes back byte
/// for byte.
pub proof fn lemma_strip_twice(data: Seq<u8>)
    ensures
        stripped(data) matches Some(output) ==> (output.len() >= 12 ==> stripped(output) == Some(
            output,
        ) && removed(output, output) == 0),
{
    if let Some(output) = stripped(data) {
        if output.len() >= 12 {
            lemma_output_is_detected_as_input(data);
            match detected_format(data) {
                Some(ImageFormat::Jpeg) => {
                    lemma_jpeg_strip_twice(data);
                },
                Some(ImageFormat::Png) => {
                    lemma_png_strip_twice(data);
                },
                Some(ImageFormat::Gif) => {
                    lemma_gif_strip_twice(data);
                },
                Some(ImageFormat::WebP) => {
                    lemma_webp_strip_twice(data);
                },
                Some(ImageFormat::Tiff) => {
                    lemma_tiff_strip_twice(data);
                },
                None => {},
            }
        }
    }
}

} // verus!
