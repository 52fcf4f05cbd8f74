//! PNG metadata stripping.
//!
//! A PNG file is an eight-byte signature followed by chunks: a big-endian
//! length, a four-byte type, the data, and a CRC-32 over type and data.
//! Text, EXIF and time chunks are metadata; every other chunk is written
//! again with a freshly computed checksum.

use crate::error::Error;
use crate::formats::{
    four, has_kind, lemma_prepend_empty, lemma_prepend_twice, prepend, ChunkModel,
};
use crate::simd::crc32::{compute, crc32_of};
use crate::simd::memops::fast_copy;
use vstd::prelude::*;
use vstd::slice::*;

verus! {

/// A PNG chunk that borrows its data from the parsed buffer.
#[derive(Debug)]
pub struct Chunk<'a> {
    pub chunk_type: [u8; 4],
    pub data: &'a [u8],
}

/// The type `IEND`.
pub open spec fn is_iend(kind: Seq<u8>) -> bool {
    four(kind, 0x49, 0x45, 0x4E, 0x44)
}

/// The types that are dropped: `tEXt`, `zTXt`, `iTXt`, `eXIf`, `tIME`.
pub open spec fn metadata_kind(kind: Seq<u8>) -> bool {
    four(kind, 0x74, 0x45, 0x58, 0x74) || four(kind, 0x7A, 0x54, 0x58, 0x74) || four(
        kind,
        0x69,
        0x54,
        0x58,
        0x74,
    ) || four(kind, 0x65, 0x58, 0x49, 0x66) || four(kind, 0x74, 0x49, 0x4D, 0x45)
}

/// The eight signature bytes.
pub open spec fn signature() -> Seq<u8> {
    seq![0x89u8, 0x50u8, 0x4Eu8, 0x47u8, 0x0Du8, 0x0Au8, 0x1Au8, 0x0Au8]
}

/// A big-endian 32-bit number.
pub open spec fn be32(b0: u8, b1: u8, b2: u8, b3: u8) -> int {
    b0 * 16777216 + b1 * 65536 + b2 * 256 + b3
}

/// The four bytes of a 32-bit number, most significant first.
pub open spec fn be32_bytes(value: u32) -> Seq<u8> {
    seq![
        (value / 16777216) as u8,
        (value / 65536 % 256) as u8,
        (value / 256 % 256) as u8,
        (value % 256) as u8,
    ]
}

/// The bytes of one chunk: length, type, data, checksum of type and data.
pub open spec fn encoded(chunk: ChunkModel) -> Seq<u8> {
    be32_bytes(chunk.data.len() as u32) + chunk.kind + chunk.data + be32_bytes(
        crc32_of(chunk.kind + chunk.data),
    )
}

/// The chunks that start at `pos`, up to and including `IEND` or to the
/// end of the buffer; `None` where a chunk is cut short.
pub open spec fn chunks_from(data: Seq<u8>, pos: int) -> Option<Seq<ChunkModel>>
    decreases data.len() - pos,
{
    if pos < 0 || pos >= data.len() {
        Some(Seq::empty())
    } else if pos + 8 > data.len() {
        None
    } else {
        let length = be32(data[pos], data[pos + 1], data[pos + 2], data[pos + 3]);
        let body = pos + 8;
        if body + length + 4 > data.len() {
            None
        } else {
            let chunk = ChunkModel {
                kind: data.subrange(pos + 4, pos + 8),
                data: data.subrange(body, body + length),
            };
            if is_iend(chunk.kind) {
                Some(seq![chunk])
            } else {
                prepend(seq![chunk], chunks_from(data, body + length + 4))
            }
        }
    }
}

/// The encodings of the chunks that are not metadata, in order.
pub open spec fn encode_kept(chunks: Seq<ChunkModel>) -> Seq<u8>
    decreases chunks.len(),
{
    if chunks.len() == 0 {
        Seq::empty()
    } else if metadata_kind(chunks.last().kind) {
        encode_kept(chunks.drop_last())
    } else {
        encode_kept(chunks.drop_last()) + encoded(chunks.last())
    }
}

/// The stripped file, or `None` where the input is not a well-formed PNG:
/// a wrong signature, a chunk cut short, or no `IHDR` or no `IEND`.
pub open spec fn stripped(data: Seq<u8>) -> Option<Seq<u8>> {
    if data.len() < 8 || data.subrange(0, 8) != signature() {
        None
    } else {
        match chunks_from(data, 8) {
            None => None,
            Some(chunks) => if has_kind(chunks, 0x49, 0x48, 0x44, 0x52) && has_kind(
                chunks,
                0x49,
                0x45,
                0x4E,
                0x44,
            ) {
                Some(signature() + encode_kept(chunks))
            } else {
                None
            },
        }
    }
}

/// The models of a list of chunks.
pub open spec fn models(chunks: Seq<Chunk>) -> Seq<ChunkModel> {
    chunks.map_values(|c: Chunk| c.model())
}

/// Check if a chunk type is a metadata chunk that should be stripped.
pub fn is_metadata_chunk(chunk_type: &[u8; 4]) -> (metadata: bool)
    ensures
        metadata == metadata_kind(chunk_type@),
{
    is_kind(chunk_type, 0x74, 0x45, 0x58, 0x74) || is_kind(chunk_type, 0x7A, 0x54, 0x58, 0x74)
        || is_kind(chunk_type, 0x69, 0x54, 0x58, 0x74) || is_kind(
        chunk_type,
        0x65,
        0x58,
        0x49,
        0x66,
    ) || is_kind(chunk_type, 0x74, 0x49, 0x4D, 0x45)
}

/// Compares a chunk type with four given bytes.
pub fn is_kind(chunk_type: &[u8; 4], a: u8, b: u8, c: u8, d: u8) -> (same: bool)
    ensures
        same == four(chunk_type@, a, b, c, d),
{
    chunk_type[0] == a && chunk_type[1] == b && chunk_type[2] == c && chunk_type[3] == d
}

/// Calculate the CRC-32 that PNG signs its chunks with.
pub fn crc32(data: &[u8]) -> (crc: u32)
    ensures
        crc == crc32_of(data@),
{
    compute(data)
}

/// Appends the four bytes of `value`, most significant first.
pub fn push_be32(output: &mut Vec<u8>, value: u32)
    ensures
        final(output)@ == old(output)@ + be32_bytes(value),
{
    output.push((value / 16777216) as u8);
    output.push((value / 65536 % 256) as u8);
    output.push((value / 256 % 256) as u8);
    output.push((value % 256) as u8);
    assert(output@ =~= old(output)@ + be32_bytes(value));
}

impl<'a> Chunk<'a> {
    /// The chunk's type and data as sequences.
    pub open spec fn model(self) -> ChunkModel {
        ChunkModel { kind: self.chunk_type@, data: self.data@ }
    }

    /// Calculate the CRC for this chunk: over its type, then its data.
    pub fn calculate_crc(&self) -> (crc: u32)
        ensures
            crc == crc32_of(self.chunk_type@ + self.data@),
    {
        let mut signed: Vec<u8> = Vec::new();
        signed.push(self.chunk_type[0]);
        signed.push(self.chunk_type[1]);
        signed.push(self.chunk_type[2]);
        signed.push(self.chunk_type[3]);
        assert(signed@ =~= self.chunk_type@);
        fast_copy(&mut signed, self.data);
        crc32(signed.as_slice())
    }

    /// Write the chunk to a buffer, with a freshly computed checksum.
    pub fn write_to(&self, output: &mut Vec<u8>)
        requires
            self.data@.len() <= u32::MAX,
        ensures
            final(output)@ == old(output)@ + encoded(self.model()),
    {
        push_be32(output, self.data.len() as u32);
        output.push(self.chunk_type[0]);
        output.push(self.chunk_type[1]);
        output.push(self.chunk_type[2]);
        output.push(self.chunk_type[3]);
        fast_copy(output, self.data);
        let crc = self.calculate_crc();
        push_be32(output, crc);
        assert(output@ =~= old(output)@ + encoded(self.model()));
    }
}

/// Parse chunks from PNG data, starting behind the signature.
pub fn parse_chunks<'a>(data: &'a [u8], path: &str) -> (result: Result<Vec<Chunk<'a>>, Error>)
    ensures
        match result {
            Ok(chunks) => chunks_from(data@, 8) == Some(models(chunks@)) && forall|i: int|
                0 <= i < chunks@.len() ==> (#[trigger] chunks@[i]).data@.len() <= u32::MAX,
            Err(error) => chunks_from(data@, 8).is_none() && error.is_invalid_image(path@),
        },
{
    let len: usize = data.len();
    let mut chunks: Vec<Chunk<'a>> = Vec::new();
    let mut pos: usize = 8;
    assert(models(chunks@) =~= Seq::<ChunkModel>::empty());
    proof {
        assert(prepend(models(chunks@), chunks_from(data@, 8)) == chunks_from(data@, 8)) by {
            if let Some(tail) = chunks_from(data@, 8) {
                assert(models(chunks@) + tail =~= tail);
            }
        }
    }

    loop
        invariant_except_break
            len == data@.len(),
            8 <= pos,
            chunks_from(data@, 8) == prepend(models(chunks@), chunks_from(data@, pos as int)),
            forall|i: int|
                0 <= i < chunks@.len() ==> (#[trigger] chunks@[i]).data@.len() <= u32::MAX,
        ensures
            chunks_from(data@, 8) == Some(models(chunks@)),
            forall|i: int|
                0 <= i < chunks@.len() ==> (#[trigger] chunks@[i]).data@.len() <= u32::MAX,
        decreases len - pos,
    {
        if pos >= len {
            proof {
                lemma_prepend_empty(models(chunks@));
            }
            break ;
        }
        if len - pos < 4 {
            return Err(Error::invalid_image(path, "Truncated chunk length"));
        }
        let length: u32 = (data[pos] as u32) * 16777216 + (data[pos + 1] as u32) * 65536 + (
        data[pos + 2] as u32) * 256 + (data[pos + 3] as u32);
        if len - pos < 8 {
            return Err(Error::invalid_image(path, "Truncated chunk type"));
        }
        let chunk_type: [u8; 4] = [data[pos + 4], data[pos + 5], data[pos + 6], data[pos + 7]];
        let body: usize = pos + 8;
        if len - body < length as usize {
            return Err(Error::invalid_image(path, "Truncated chunk data"));
        }
        let end: usize = body + length as usize;
        if len - end < 4 {
            return Err(Error::invalid_image(path, "Truncated chunk CRC"));
        }
        let chunk_data = slice_subrange(data, body, end);
        let chunk = Chunk { chunk_type, data: chunk_data };
        let ghost before = chunks@;
        proof {
            assert(chunk.model().kind =~= data@.subrange(pos + 4, pos + 8));
        }
        chunks.push(chunk);
        proof {
            assert(models(chunks@) =~= models(before) + seq![chunk.model()]);
        }
        if is_kind(&chunk_type, 0x49, 0x45, 0x4E, 0x44) {
            break ;
        }
        proof {
            lemma_prepend_twice(
                models(before),
                seq![chunk.model()],
                chunks_from(data@, end + 4),
            );
        }
        pos = end + 4;
    }
    Ok(chunks)
}

/// Whether one of the chunks has the type given.
pub fn has_chunk(chunks: &Vec<Chunk>, a: u8, b: u8, c: u8, d: u8) -> (found: bool)
    ensures
        found == has_kind(models(chunks@), a, b, c, d),
{
    let mut i: usize = 0;
    while i < chunks.len()
        invariant
            i <= chunks@.len(),
            forall|k: int| 0 <= k < i ==> !four(#[trigger] models(chunks@)[k].kind, a, b, c, d),
        decreases chunks@.len() - i,
    {
        if is_kind(&chunks[i].chunk_type, a, b, c, d) {
            assert(four(models(chunks@)[i as int].kind, a, b, c, d));
            return true;
        }
        i += 1;
    }
    false
}

/// Strip metadata from PNG data.
///
/// Succeeds exactly on the inputs for which `stripped` is defined, and then
/// returns those bytes. `path` only labels the error.
pub fn strip(data: &[u8], path: &str) -> (result: Result<Vec<u8>, Error>)
    ensures
        match result {
            Ok(output) => stripped(data@) == Some(output@),
            Err(error) => stripped(data@).is_none() && error.is_invalid_image(path@),
        },
{
    if data.len() < 8 {
        return Err(Error::invalid_image(path, "File too small to be a valid PNG"));
    }
    if !(data[0] == 0x89 && data[1] == 0x50 && data[2] == 0x4E && data[3] == 0x47 && data[4]
        == 0x0D && data[5] == 0x0A && data[6] == 0x1A && data[7] == 0x0A) {
        proof {
            let head = data@.subrange(0, 8);
            assert(head[0] == data@[0] && head[1] == data@[1] && head[2] == data@[2] && head[3]
                == data@[3] && head[4] == data@[4] && head[5] == data@[5] && head[6] == data@[6]
                && head[7] == data@[7]);
        }
        return Err(Error::invalid_image(path, "Invalid PNG signature"));
    }
    assert(data@.subrange(0, 8) =~= signature());
    let chunks = match parse_chunks(data, path) {
        Ok(chunks) => chunks,
        Err(error) => {
            return Err(error);
        },
    };
    if !has_chunk(&chunks, 0x49, 0x48, 0x44, 0x52) {
        return Err(Error::invalid_image(path, "Missing IHDR chunk"));
    }
    if !has_chunk(&chunks, 0x49, 0x45, 0x4E, 0x44) {
        return Err(Error::invalid_image(path, "Missing IEND chunk"));
    }
    let mut output: Vec<u8> = Vec::with_capacity(data.len());
    write_signature(&mut output);
    let mut i: usize = 0;
    assert(models(chunks@).subrange(0, 0) =~= Seq::<ChunkModel>::empty());
    assert(output@ =~= signature() + encode_kept(models(chunks@).subrange(0, 0)));
    while i < chunks.len()
        invariant
            i <= chunks@.len(),
            forall|k: int|
                0 <= k < chunks@.len() ==> (#[trigger] chunks@[k]).data@.len() <= u32::MAX,
            output@ == signature() + encode_kept(models(chunks@).subrange(0, i as int)),
        decreases chunks@.len() - i,
    {
        let ghost before = output@;
        let ghost shorter = models(chunks@).subrange(0, i as int);
        let ghost longer = models(chunks@).subrange(0, i + 1);
        proof {
            assert(longer.drop_last() =~= shorter);
            assert(longer.last() == chunks@[i as int].model());
        }
        if !is_metadata_chunk(&chunks[i].chunk_type) {
            chunks[i].write_to(&mut output);
            assert(output@ =~= signature() + encode_kept(longer));
        }
        i += 1;
    }
    assert(models(chunks@).subrange(0, chunks@.len() as int) =~= models(chunks@));
    Ok(output)
}

/// Appends the PNG signature.
pub fn write_signature(output: &mut Vec<u8>)
    ensures
        final(output)@ == old(output)@ + signature(),
{
    output.push(0x89);
    output.push(0x50);
    output.push(0x4E);
    output.push(0x47);
    output.push(0x0D);
    output.push(0x0A);
    output.push(0x1A);
    output.push(0x0A);
    assert(output@ =~= old(output)@ + signature());
}

} // verus!
