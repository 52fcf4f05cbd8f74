//! GIF metadata stripping.
//!
//! A GIF file is a header, a logical screen descriptor, an optional global
//! colour table and a sequence of blocks up to a trailer. Comment and
//! application extensions are metadata, except the NETSCAPE2.0 extension
//! that holds the loop count of an animation.

use crate::error::Error;
use crate::formats::{gif_magic, lemma_prepend_twice, prepend};
use crate::simd::memops::{copy_range, fast_copy};
use vstd::prelude::*;

verus! {

/// Introduces an extension block.
pub const EXTENSION: u8 = 0x21;

/// Introduces an image descriptor.
pub const IMAGE: u8 = 0x2C;

/// Ends the file.
pub const TRAILER: u8 = 0x3B;

pub const GRAPHICS_CONTROL: u8 = 0xF9;

pub const COMMENT: u8 = 0xFE;

pub const PLAIN_TEXT: u8 = 0x01;

pub const APPLICATION: u8 = 0xFF;

/// The number of entries of the colour table that a packed byte announces.
pub open spec fn table_entries(packed: u8) -> u32 {
    1u32 << (((packed & 0x07) as u32 + 1) as u32)
}

/// The size in bytes of the colour table that a packed byte announces:
/// none unless its high bit is set, else three bytes per entry.
pub open spec fn table_size(packed: u8) -> int {
    if packed & 0x80 != 0 {
        3 * table_entries(packed)
    } else {
        0
    }
}

/// The index behind the chain of sub-blocks that starts at `pos`, or
/// `None` where the chain runs past the end before its terminator.
pub open spec fn sub_blocks_end(data: Seq<u8>, pos: int) -> Option<int>
    decreases data.len() - pos,
{
    if pos < 0 || pos >= data.len() {
        None
    } else if data[pos] == 0 {
        Some(pos + 1)
    } else if pos + 1 + data[pos] > data.len() {
        None
    } else {
        sub_blocks_end(data, pos + 1 + data[pos])
    }
}

pub proof fn lemma_sub_blocks_end_bounds(data: Seq<u8>, pos: int)
    ensures
        sub_blocks_end(data, pos) matches Some(end) ==> 0 <= pos < end <= data.len(),
    decreases data.len() - pos,
{
    if 0 <= pos < data.len() && data[pos] != 0 && pos + 1 + data[pos] <= data.len() {
        lemma_sub_blocks_end_bounds(data, pos + 1 + data[pos]);
    }
}

/// Whether the sub-block at `pos` is the 11-byte identifier `NETSCAPE2.0`.
pub open spec fn netscape_at(data: Seq<u8>, pos: int) -> bool {
    &&& 0 <= pos
    &&& pos + 12 <= data.len()
    &&& data[pos] == 0x0B
    &&& data[pos + 1] == 0x4E
    &&& data[pos + 2] == 0x45
    &&& data[pos + 3] == 0x54
    &&& data[pos + 4] == 0x53
    &&& data[pos + 5] == 0x43
    &&& data[pos + 6] == 0x41
    &&& data[pos + 7] == 0x50
    &&& data[pos + 8] == 0x45
    &&& data[pos + 9] == 0x32
    &&& data[pos + 10] == 0x2E
    &&& data[pos + 11] == 0x30
}

/// Whether the extension that starts at `pos` is kept: graphics control,
/// plain text, and the NETSCAPE2.0 application extension.
pub open spec fn keeps_extension(data: Seq<u8>, pos: int) -> bool {
    let label = data[pos + 1];
    label == GRAPHICS_CONTROL || label == PLAIN_TEXT || (label == APPLICATION && netscape_at(
        data,
        pos + 2,
    ))
}

/// What stripping writes for the blocks from `pos` on, ending in a
/// trailer whether or not the input has one; `None` where a block is cut
/// short.
pub open spec fn blocks_from(data: Seq<u8>, pos: int) -> Option<Seq<u8>>
    decreases data.len() - pos,
{
    if pos < 0 || pos >= data.len() {
        Some(seq![TRAILER])
    } else if data[pos] == TRAILER {
        Some(seq![TRAILER])
    } else if data[pos] == EXTENSION {
        if pos + 2 > data.len() {
            None
        } else {
            proof {
                lemma_sub_blocks_end_bounds(data, pos + 2);
            }
            match sub_blocks_end(data, pos + 2) {
                None => None,
                Some(end) => if keeps_extension(data, pos) {
                    prepend(data.subrange(pos, end), blocks_from(data, end))
                } else {
                    blocks_from(data, end)
                },
            }
        }
    } else if data[pos] == IMAGE {
        if pos + 10 > data.len() {
            None
        } else {
            let code = pos + 10 + table_size(data[pos + 9]);
            proof {
                lemma_sub_blocks_end_bounds(data, code + 1);
            }
            if code >= data.len() {
                None
            } else {
                match sub_blocks_end(data, code + 1) {
                    None => None,
                    Some(end) => prepend(data.subrange(pos, end), blocks_from(data, end)),
                }
            }
        }
    } else {
        blocks_from(data, pos + 1)
    }
}

/// The stripped file, or `None` where the input is not a well-formed GIF:
/// shorter than header and screen descriptor, a wrong signature, or a
/// colour table, descriptor or sub-block chain that is cut short.
pub open spec fn stripped(data: Seq<u8>) -> Option<Seq<u8>> {
    if data.len() < 13 || !gif_magic(data) {
        None
    } else {
        let start = 13 + table_size(data[10]);
        if start > data.len() {
            None
        } else {
            prepend(data.subrange(0, start), blocks_from(data, start))
        }
    }
}

/// The size in bytes of the colour table that a packed byte announces.
pub fn color_table_size(packed: u8) -> (size: usize)
    ensures
        size == table_size(packed),
        size <= 768,
{
    if (packed & 0x80) != 0 {
        let low: u8 = packed & 0x07;
        assert(low <= 7) by (bit_vector)
            requires
                low == packed & 0x07,
        ;
        let bits: u32 = low as u32 + 1;
        let entries: u32 = 1u32 << bits;
        assert(entries <= 256) by (bit_vector)
            requires
                entries == 1u32 << bits,
                bits <= 8,
        ;
        3 * (entries as usize)
    } else {
        0
    }
}

/// Skip sub-blocks until block terminator (0x00).
pub fn skip_sub_blocks(data: &[u8], pos: usize) -> (end: Option<usize>)
    ensures
        match end {
            Some(e) => sub_blocks_end(data@, pos as int) == Some(e as int),
            None => sub_blocks_end(data@, pos as int).is_none(),
        },
{
    let len: usize = data.len();
    let mut at: usize = pos;
    loop
        invariant
            len == data@.len(),
            sub_blocks_end(data@, pos as int) == sub_blocks_end(data@, at as int),
        decreases len - at,
    {
        if at >= len {
            return None;
        }
        let block_size: usize = data[at] as usize;
        if block_size == 0 {
            return Some(at + 1);
        }
        if len - at - 1 < block_size {
            return None;
        }
        at = at + 1 + block_size;
    }
}

/// Read sub-blocks and return them along with the new position.
pub fn read_sub_blocks(data: &[u8], pos: usize) -> (blocks: Option<(Vec<u8>, usize)>)
    ensures
        match blocks {
            Some((bytes, e)) => sub_blocks_end(data@, pos as int) == Some(e as int) && bytes@
                == data@.subrange(pos as int, e as int),
            None => sub_blocks_end(data@, pos as int).is_none(),
        },
{
    match skip_sub_blocks(data, pos) {
        Some(end) => {
            proof {
                lemma_sub_blocks_end_bounds(data@, pos as int);
            }
            let mut bytes: Vec<u8> = Vec::new();
            copy_range(&mut bytes, data, pos, end);
            assert(bytes@ =~= data@.subrange(pos as int, end as int));
            Some((bytes, end))
        },
        None => None,
    }
}

/// Check if an application extension is NETSCAPE2.0 (animation loop).
pub fn is_netscape_extension(data: &[u8], pos: usize) -> (netscape: bool)
    ensures
        netscape == netscape_at(data@, pos as int),
{
    let len: usize = data.len();
    if len < 12 || pos > len - 12 {
        return false;
    }
    data[pos] == 0x0B && data[pos + 1] == 0x4E && data[pos + 2] == 0x45 && data[pos + 3] == 0x54
        && data[pos + 4] == 0x53 && data[pos + 5] == 0x43 && data[pos + 6] == 0x41 && data[pos
        + 7] == 0x50 && data[pos + 8] == 0x45 && data[pos + 9] == 0x32 && data[pos + 10] == 0x2E
        && data[pos + 11] == 0x30
}

/// Strip metadata from GIF data.
///
/// Succeeds exactly on the inputs for which `stripped` is defined, and then
/// returns those bytes. `path` only labels the error.
pub fn strip(data: &[u8], path: &str) -> (result: Result<Vec<u8>, Error>)
    ensures
        match result {
            Ok(output) => stripped(data@) == Some(output@),
            Err(error) => stripped(data@).is_none() && error.is_invalid_image(path@),
        },
{
    let len: usize = data.len();
    if len < 13 {
        return Err(Error::invalid_image(path, "File too small to be a valid GIF"));
    }
    if !(data[0] == 0x47 && data[1] == 0x49 && data[2] == 0x46 && data[3] == 0x38 && (data[4]
        == 0x37 || data[4] == 0x39) && data[5] == 0x61) {
        return Err(Error::invalid_image(path, "Invalid GIF header"));
    }
    let mut output: Vec<u8> = Vec::with_capacity(len);
    let gct_size: usize = color_table_size(data[10]);
    if len - 13 < gct_size {
        return Err(Error::invalid_image(path, "Truncated Global Color Table"));
    }
    let mut pos: usize = 13 + gct_size;
    copy_range(&mut output, data, 0, pos);
    assert(output@ =~= data@.subrange(0, pos as int));

    loop
        invariant_except_break
            len == data@.len(),
            13 <= pos <= len,
            stripped(data@) == prepend(output@, blocks_from(data@, pos as int)),
        ensures
            stripped(data@) == Some(output@),
        decreases len - pos,
    {
        let ghost before = output@;
        if pos >= len {
            output.push(TRAILER);
            assert(output@ =~= before + seq![TRAILER]);
            break ;
        }
        let block_type: u8 = data[pos];
        if block_type == EXTENSION {
            if len - pos < 2 {
                return Err(Error::invalid_image(path, "Truncated extension block"));
            }
            let ext_type: u8 = data[pos + 1];
            let keep: bool = ext_type == GRAPHICS_CONTROL || ext_type == PLAIN_TEXT || (ext_type
                == APPLICATION && is_netscape_extension(data, pos + 2));
            proof {
                lemma_sub_blocks_end_bounds(data@, pos + 2);
            }
            if keep {
                match read_sub_blocks(data, pos + 2) {
                    Some((blocks, end)) => {
                        copy_range(&mut output, data, pos, pos + 2);
                        fast_copy(&mut output, blocks.as_slice());
                        proof {
                            let piece = data@.subrange(pos as int, end as int);
                            assert(output@ =~= before + piece);
                            lemma_prepend_twice(before, piece, blocks_from(data@, end as int));
                        }
                        pos = end;
                    },
                    None => {
                        return Err(Error::invalid_image(path, "Truncated extension"));
                    },
                }
            } else {
                match skip_sub_blocks(data, pos + 2) {
                    Some(end) => {
                        pos = end;
                    },
                    None => {
                        return Err(Error::invalid_image(path, "Truncated extension"));
                    },
                }
            }
        } else if block_type == IMAGE {
            if len - pos < 10 {
                return Err(Error::invalid_image(path, "Truncated image descriptor"));
            }
            let lct_size: usize = color_table_size(data[pos + 9]);
            if len - pos - 10 < lct_size {
                return Err(Error::invalid_image(path, "Truncated Local Color Table"));
            }
            let code: usize = pos + 10 + lct_size;
            if code >= len {
                return Err(Error::invalid_image(path, "Missing LZW minimum code size"));
            }
            proof {
                lemma_sub_blocks_end_bounds(data@, code + 1);
            }
            match read_sub_blocks(data, code + 1) {
                Some((blocks, end)) => {
                    copy_range(&mut output, data, pos, code + 1);
                    fast_copy(&mut output, blocks.as_slice());
                    proof {
                        let piece = data@.subrange(pos as int, end as int);
                        assert(output@ =~= before + piece);
                        lemma_prepend_twice(before, piece, blocks_from(data@, end as int));
                    }
                    pos = end;
                },
                None => {
                    return Err(Error::invalid_image(path, "Truncated image data"));
                },
            }
        } else if block_type == TRAILER {
            output.push(TRAILER);
            assert(output@ =~= before + seq![TRAILER]);
            break ;
        } else {
            pos += 1;
        }
    }
    Ok(output)
}

} // verus!
