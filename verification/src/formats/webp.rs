//! WebP metadata stripping.
//!
//! A WebP file is a RIFF container: `RIFF`, a little-endian size, `WEBP`,
//! then chunks of a four-byte tag, a little-endian size and data padded to
//! an even length. `EXIF` and `XMP ` chunks are metadata; the flags of a
//! `VP8X` header that announce them are cleared.

use crate::error::Error;
use crate::formats::{
    four, has_kind, lemma_prepend_empty, lemma_prepend_twice, prepend, webp_magic, ChunkModel,
};
use crate::simd::memops::fast_copy;
use vstd::prelude::*;
use vstd::slice::*;

verus! {

/// A WebP chunk that borrows its data from the parsed buffer.
#[derive(Debug)]
pub struct Chunk<'a> {
    pub fourcc: [u8; 4],
    pub data: &'a [u8],
}

/// The tags that are dropped: `EXIF` and `XMP `.
pub open spec fn metadata_kind(kind: Seq<u8>) -> bool {
    four(kind, 0x45, 0x58, 0x49, 0x46) || four(kind, 0x58, 0x4D, 0x50, 0x20)
}

/// The tag `VP8X` of the extended header.
pub open spec fn is_vp8x(kind: Seq<u8>) -> bool {
    four(kind, 0x56, 0x50, 0x38, 0x58)
}

/// A little-endian 32-bit number.
pub open spec fn le32(b0: u8, b1: u8, b2: u8, b3: u8) -> int {
    b0 + b1 * 256 + b2 * 65536 + b3 * 16777216
}

/// The four bytes of a 32-bit number, least significant first.
pub open spec fn le32_bytes(value: u32) -> Seq<u8> {
    seq![
        (value % 256) as u8,
        (value / 256 % 256) as u8,
        (value / 65536 % 256) as u8,
        (value / 16777216) as u8,
    ]
}

/// A size rounded up to the next even number.
pub open spec fn padded(size: int) -> int {
    size + size % 2
}

/// The chunks that start at `pos`; fewer than four trailing bytes are
/// ignored. `None` where a chunk is cut short.
pub open spec fn chunks_from(data: Seq<u8>, pos: int) -> Option<Seq<ChunkModel>>
    decreases data.len() - pos,
{
    if pos < 0 || pos + 4 > data.len() {
        Some(Seq::empty())
    } else if pos + 8 > data.len() {
        None
    } else {
        let size = le32(data[pos + 4], data[pos + 5], data[pos + 6], data[pos + 7]);
        let body = pos + 8;
        if body + size > data.len() {
            None
        } else {
            let chunk = ChunkModel {
                kind: data.subrange(pos, pos + 4),
                data: data.subrange(body, body + size),
            };
            let next = body + padded(size);
            if next > data.len() {
                Some(seq![chunk])
            } else {
                prepend(seq![chunk], chunks_from(data, next))
            }
        }
    }
}

/// The data of an extended header with the XMP bit (3) and the EXIF bit
/// (5) of its first byte cleared; empty data has no flags to clear.
pub open spec fn cleared_flags(data: Seq<u8>) -> Seq<u8> {
    if data.len() == 0 {
        data
    } else {
        data.update(0, data[0] & 0xD7)
    }
}

/// The chunk as it is written: an extended header with its flags cleared,
/// any other chunk unchanged.
pub open spec fn rewritten(chunk: ChunkModel) -> ChunkModel {
    if is_vp8x(chunk.kind) {
        ChunkModel { kind: chunk.kind, data: cleared_flags(chunk.data) }
    } else {
        chunk
    }
}

/// The bytes of one chunk: tag, size, data, and a zero byte where the
/// size is odd.
pub open spec fn encoded(chunk: ChunkModel) -> Seq<u8> {
    chunk.kind + le32_bytes(chunk.data.len() as u32) + chunk.data + (if chunk.data.len() % 2
        != 0 {
        seq![0u8]
    } else {
        Seq::empty()
    })
}

/// The encodings of the chunks that are not metadata, in order.
pub open spec fn encode_kept(chunks: Seq<ChunkModel>) -> Seq<u8>
    decreases chunks.len(),
{
    if chunks.len() == 0 {
        Seq::empty()
    } else if metadata_kind(chunks.last().kind) {
        encode_kept(chunks.drop_last())
    } else {
        encode_kept(chunks.drop_last()) + encoded(rewritten(chunks.last()))
    }
}

/// The twelve header bytes of a file whose chunks take `body` bytes: the
/// size field counts everything behind itself, modulo 2^32.
pub open spec fn header(body: int) -> Seq<u8> {
    seq![0x52u8, 0x49u8, 0x46u8, 0x46u8] + le32_bytes(((body + 4) % 0x1_0000_0000) as u32)
        + seq![0x57u8, 0x45u8, 0x42u8, 0x50u8]
}

/// Whether the chunks hold image data (`VP8 ` or `VP8L`) or an extended
/// header (`VP8X`).
pub open spec fn has_image(chunks: Seq<ChunkModel>) -> bool {
    has_kind(chunks, 0x56, 0x50, 0x38, 0x20) || has_kind(chunks, 0x56, 0x50, 0x38, 0x4C)
        || has_kind(chunks, 0x56, 0x50, 0x38, 0x58)
}

/// The stripped file, or `None` where the input is not a well-formed
/// WebP: a wrong header, a chunk cut short, or no image chunk.
pub open spec fn stripped(data: Seq<u8>) -> Option<Seq<u8>> {
    if !webp_magic(data) {
        None
    } else {
        match chunks_from(data, 12) {
            None => None,
            Some(chunks) => if has_image(chunks) {
                let body = encode_kept(chunks);
                Some(header(body.len() as int) + body)
            } else {
                None
            },
        }
    }
}

/// The models of a list of chunks.
pub open spec fn models(chunks: Seq<Chunk>) -> Seq<ChunkModel> {
    chunks.map_values(|c: Chunk| c.model())
}

/// Compares a tag with four given bytes.
pub fn is_kind(fourcc: &[u8; 4], a: u8, b: u8, c: u8, d: u8) -> (same: bool)
    ensures
        same == four(fourcc@, a, b, c, d),
{
    fourcc[0] == a && fourcc[1] == b && fourcc[2] == c && fourcc[3] == d
}

/// Check if a chunk is a metadata chunk that should be stripped.
pub fn is_metadata_chunk(fourcc: &[u8; 4]) -> (metadata: bool)
    ensures
        metadata == metadata_kind(fourcc@),
{
    is_kind(fourcc, 0x45, 0x58, 0x49, 0x46) || is_kind(fourcc, 0x58, 0x4D, 0x50, 0x20)
}

/// Appends the four bytes of `value`, least significant first.
pub fn push_le32(output: &mut Vec<u8>, value: u32)
    ensures
        final(output)@ == old(output)@ + le32_bytes(value),
{
    output.push((value % 256) as u8);
    output.push((value / 256 % 256) as u8);
    output.push((value / 65536 % 256) as u8);
    output.push((value / 16777216) as u8);
    assert(output@ =~= old(output)@ + le32_bytes(value));
}

impl<'a> Chunk<'a> {
    /// The chunk's tag and data as sequences.
    pub open spec fn model(self) -> ChunkModel {
        ChunkModel { kind: self.fourcc@, data: self.data@ }
    }

    /// Get the padded size (chunks are padded to even length).
    pub fn padded_size(&self) -> (size: usize)
        requires
            self.data@.len() < usize::MAX,
        ensures
            size == padded(self.data@.len() as int),
    {
        let len: usize = self.data.len();
        len + len % 2
    }

    /// Write the chunk to output.
    pub fn write_to(&self, output: &mut Vec<u8>)
        requires
            self.data@.len() <= u32::MAX,
        ensures
            final(output)@ == old(output)@ + encoded(self.model()),
    {
        output.push(self.fourcc[0]);
        output.push(self.fourcc[1]);
        output.push(self.fourcc[2]);
        output.push(self.fourcc[3]);
        push_le32(output, self.data.len() as u32);
        fast_copy(output, self.data);
        if self.data.len() % 2 != 0 {
            output.push(0);
        }
        assert(output@ =~= old(output)@ + encoded(self.model()));
    }
}

/// Parse chunks from WebP data, starting behind the twelve header bytes.
pub fn parse_chunks<'a>(data: &'a [u8], path: &str) -> (result: Result<Vec<Chunk<'a>>, Error>)
    ensures
        match result {
            Ok(chunks) => chunks_from(data@, 12) == Some(models(chunks@)) && forall|i: int|
                0 <= i < chunks@.len() ==> (#[trigger] chunks@[i]).data@.len() <= u32::MAX,
            Err(error) => chunks_from(data@, 12).is_none() && error.is_invalid_image(path@),
        },
{
    let len: usize = data.len();
    let mut chunks: Vec<Chunk<'a>> = Vec::new();
    let mut pos: usize = 12;
    proof {
        assert(models(chunks@) =~= Seq::<ChunkModel>::empty());
        assert(prepend(models(chunks@), chunks_from(data@, 12)) == chunks_from(data@, 12)) by {
            if let Some(tail) = chunks_from(data@, 12) {
                assert(models(chunks@) + tail =~= tail);
            }
        }
    }

    loop
        invariant_except_break
            len == data@.len(),
            12 <= pos,
            chunks_from(data@, 12) == prepend(models(chunks@), chunks_from(data@, pos as int)),
            forall|i: int|
                0 <= i < chunks@.len() ==> (#[trigger] chunks@[i]).data@.len() <= u32::MAX,
        ensures
            chunks_from(data@, 12) == Some(models(chunks@)),
            forall|i: int|
                0 <= i < chunks@.len() ==> (#[trigger] chunks@[i]).data@.len() <= u32::MAX,
        decreases len - pos,
    {
        if pos >= len || len - pos < 4 {
            proof {
                lemma_prepend_empty(models(chunks@));
            }
            break ;
        }
        let fourcc: [u8; 4] = [data[pos], data[pos + 1], data[pos + 2], data[pos + 3]];
        if len - pos < 8 {
            return Err(Error::invalid_image(path, "Truncated chunk size"));
        }
        let size: u32 = (data[pos + 4] as u32) + (data[pos + 5] as u32) * 256 + (data[pos
            + 6] as u32) * 65536 + (data[pos + 7] as u32) * 16777216;
        let body: usize = pos + 8;
        if len - body < size as usize {
            return Err(Error::invalid_image(path, "Truncated chunk data"));
        }
        let end: usize = body + size as usize;
        let chunk_data = slice_subrange(data, body, end);
        let chunk = Chunk { fourcc, data: chunk_data };
        let ghost before = chunks@;
        proof {
            assert(chunk.model().kind =~= data@.subrange(pos as int, pos + 4));
        }
        chunks.push(chunk);
        proof {
            assert(models(chunks@) =~= models(before) + seq![chunk.model()]);
            lemma_prepend_twice(
                models(before),
                seq![chunk.model()],
                chunks_from(data@, end + (size as int) % 2),
            );
        }
        if size % 2 != 0 && end == len {
            break ;
        }
        pos = end + (size % 2) as usize;
    }
    Ok(chunks)
}

/// Update VP8X flags to remove EXIF and XMP flags.
pub fn update_vp8x_flags(vp8x_data: &[u8]) -> (updated: Vec<u8>)
    ensures
        updated@ == cleared_flags(vp8x_data@),
{
    let mut updated: Vec<u8> = Vec::new();
    fast_copy(&mut updated, vp8x_data);
    assert(updated@ =~= vp8x_data@);
    if vp8x_data.len() == 0 {
        return updated;
    }
    let flags: u8 = vp8x_data[0] & 0xD7;
    updated.set(0, flags);
    assert(updated@ =~= cleared_flags(vp8x_data@));
    updated
}

/// Whether one of the chunks has the tag given.
pub fn has_chunk(chunks: &Vec<Chunk>, a: u8, b: u8, c: u8, d: u8) -> (found: bool)
    ensures
        found == has_kind(models(chunks@), a, b, c, d),
{
    let mut i: usize = 0;
    while i < chunks.len()
        invariant
            i <= chunks@.len(),
            forall|k: int| 0 <= k < i ==> !four(#[trigger] models(chunks@)[k].kind, a, b, c, d),
        decreases chunks@.len() - i,
    {
        if is_kind(&chunks[i].fourcc, a, b, c, d) {
            assert(four(models(chunks@)[i as int].kind, a, b, c, d));
            return true;
        }
        i += 1;
    }
    false
}

/// Strip metadata from WebP data.
///
/// Succeeds exactly on the inputs for which `stripped` is defined, and then
/// returns those bytes. `path` only labels the error.
pub fn strip(data: &[u8], path: &str) -> (result: Result<Vec<u8>, Error>)
    ensures
        match result {
            Ok(output) => stripped(data@) == Some(output@),
            Err(error) => stripped(data@).is_none() && error.is_invalid_image(path@),
        },
{
    if data.len() < 12 {
        return Err(Error::invalid_image(path, "File too small to be a valid WebP"));
    }
    if !(data[0] == 0x52 && data[1] == 0x49 && data[2] == 0x46 && data[3] == 0x46) {
        return Err(Error::invalid_image(path, "Invalid RIFF header"));
    }
    if !(data[8] == 0x57 && data[9] == 0x45 && data[10] == 0x42 && data[11] == 0x50) {
        return Err(Error::invalid_image(path, "Invalid WebP identifier"));
    }
    let chunks = match parse_chunks(data, path) {
        Ok(chunks) => chunks,
        Err(error) => {
            return Err(error);
        },
    };
    let image: bool = has_chunk(&chunks, 0x56, 0x50, 0x38, 0x20) || has_chunk(
        &chunks,
        0x56,
        0x50,
        0x38,
        0x4C,
    );
    if !image && !has_chunk(&chunks, 0x56, 0x50, 0x38, 0x58) {
        return Err(Error::invalid_image(path, "Missing image data chunk"));
    }
    let mut output: Vec<u8> = Vec::with_capacity(data.len());
    output.push(0x52);
    output.push(0x49);
    output.push(0x46);
    output.push(0x46);
    push_le32(&mut output, 0);
    output.push(0x57);
    output.push(0x45);
    output.push(0x42);
    output.push(0x50);
    let ghost blank = output@;
    let mut i: usize = 0;
    proof {
        assert(models(chunks@).subrange(0, 0) =~= Seq::<ChunkModel>::empty());
        assert(output@ =~= blank + encode_kept(models(chunks@).subrange(0, 0)));
    }
    while i < chunks.len()
        invariant
            i <= chunks@.len(),
            blank.len() == 12,
            forall|k: int|
                0 <= k < chunks@.len() ==> (#[trigger] chunks@[k]).data@.len() <= u32::MAX,
            output@ == blank + encode_kept(models(chunks@).subrange(0, i as int)),
        decreases chunks@.len() - i,
    {
        let ghost shorter = models(chunks@).subrange(0, i as int);
        let ghost longer = models(chunks@).subrange(0, i + 1);
        proof {
            assert(longer.drop_last() =~= shorter);
            assert(longer.last() == chunks@[i as int].model());
        }
        if !is_metadata_chunk(&chunks[i].fourcc) {
            if is_kind(&chunks[i].fourcc, 0x56, 0x50, 0x38, 0x58) {
                let updated_data = update_vp8x_flags(chunks[i].data);
                let updated_chunk = Chunk {
                    fourcc: chunks[i].fourcc,
                    data: updated_data.as_slice(),
                };
                assert(updated_chunk.model() == rewritten(chunks@[i as int].model()));
                updated_chunk.write_to(&mut output);
            } else {
                chunks[i].write_to(&mut output);
            }
            assert(output@ =~= blank + encode_kept(longer));
        }
        i += 1;
    }
    proof {
        assert(models(chunks@).subrange(0, chunks@.len() as int) =~= models(chunks@));
    }
    let ghost body = encode_kept(models(chunks@));
    let file_size: u32 = ((output.len() - 8) as u64 % 0x1_0000_0000u64) as u32;
    output.set(4, (file_size % 256) as u8);
    output.set(5, (file_size / 256 % 256) as u8);
    output.set(6, (file_size / 65536 % 256) as u8);
    output.set(7, (file_size / 16777216) as u8);
    proof {
        assert(output@.len() == 12 + body.len());
        assert(output@ =~= header(body.len() as int) + body);
    }
    Ok(output)
}

} // verus!
