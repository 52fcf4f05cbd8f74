//! TIFF metadata stripping.
//!
//! A TIFF file is an eight-byte header (byte order, the number 42, the
//! offset of the first directory) and a linked list of image file
//! directories, each a count, that many twelve-byte entries and the offset
//! of the next directory. Entries with a descriptive tag are dropped. The
//! others are written again, directory behind directory and each linked
//! to the next; behind the directories stands what their entries point
//! at (values that do not fit an entry, strips and tiles), and every
//! such entry points at where that now stands.

use crate::error::Error;
use crate::formats::{lemma_prepend_empty, lemma_prepend_twice, prepend};
use crate::simd::memops::{copy_range, fast_copy};
use vstd::prelude::*;

verus! {

pub const IMAGE_WIDTH: u16 = 256;

pub const IMAGE_LENGTH: u16 = 257;

pub const BITS_PER_SAMPLE: u16 = 258;

pub const COMPRESSION: u16 = 259;

pub const PHOTOMETRIC_INTERPRETATION: u16 = 262;

pub const IMAGE_DESCRIPTION: u16 = 270;

pub const MAKE: u16 = 271;

pub const MODEL: u16 = 272;

pub const STRIP_OFFSETS: u16 = 273;

pub const STRIP_BYTE_COUNTS: u16 = 279;

pub const SOFTWARE: u16 = 305;

pub const DATE_TIME: u16 = 306;

pub const ARTIST: u16 = 315;

pub const HOST_COMPUTER: u16 = 316;

pub const TILE_OFFSETS: u16 = 324;

pub const TILE_BYTE_COUNTS: u16 = 325;

pub const XMP: u16 = 700;

pub const COPYRIGHT: u16 = 33432;

pub const IPTC: u16 = 33723;

pub const PHOTOSHOP: u16 = 34377;

pub const EXIF_IFD: u16 = 34665;

pub const GPS_IFD: u16 = 34853;

pub const INTEROPERABILITY_IFD: u16 = 40965;

/// Byte order for reading multi-byte values.
#[derive(Debug, Clone, Copy, PartialEq, Eq, Structural)]
pub enum ByteOrder {
    Little,
    Big,
}

/// A directory entry.
#[derive(Debug, Clone, Copy)]
pub struct IfdEntry {
    pub tag: u16,
    pub field_type: u16,
    pub count: u32,
    pub value_offset: [u8; 4],
}

/// A directory entry as the contracts see it.
pub struct EntryModel {
    pub tag: u16,
    pub field_type: u16,
    pub count: u32,
    pub value: Seq<u8>,
}

/// The 16-bit number at `pos`.
pub open spec fn u16_at(order: ByteOrder, data: Seq<u8>, pos: int) -> int {
    match order {
        ByteOrder::Little => data[pos] + data[pos + 1] * 256,
        ByteOrder::Big => data[pos] * 256 + data[pos + 1],
    }
}

/// The 32-bit number at `pos`.
pub open spec fn u32_at(order: ByteOrder, data: Seq<u8>, pos: int) -> int {
    match order {
        ByteOrder::Little => data[pos] + data[pos + 1] * 256 + data[pos + 2] * 65536 + data[pos
            + 3] * 16777216,
        ByteOrder::Big => data[pos] * 16777216 + data[pos + 1] * 65536 + data[pos + 2] * 256
            + data[pos + 3],
    }
}

/// The two bytes of a 16-bit number.
pub open spec fn u16_bytes(order: ByteOrder, value: u16) -> Seq<u8> {
    match order {
        ByteOrder::Little => seq![(value % 256) as u8, (value / 256) as u8],
        ByteOrder::Big => seq![(value / 256) as u8, (value % 256) as u8],
    }
}

/// The four bytes of a 32-bit number.
pub open spec fn u32_bytes(order: ByteOrder, value: u32) -> Seq<u8> {
    match order {
        ByteOrder::Little => seq![
            (value % 256) as u8,
            (value / 256 % 256) as u8,
            (value / 65536 % 256) as u8,
            (value / 16777216) as u8,
        ],
        ByteOrder::Big => seq![
            (value / 16777216) as u8,
            (value / 65536 % 256) as u8,
            (value / 256 % 256) as u8,
            (value % 256) as u8,
        ],
    }
}

/// The tags that are dropped.
pub open spec fn metadata_tag(tag: u16) -> bool {
    tag == IMAGE_DESCRIPTION || tag == MAKE || tag == MODEL || tag == SOFTWARE || tag
        == DATE_TIME || tag == ARTIST || tag == HOST_COMPUTER || tag == COPYRIGHT || tag
        == EXIF_IFD || tag == GPS_IFD || tag == XMP || tag == IPTC || tag == PHOTOSHOP || tag
        == INTEROPERABILITY_IFD
}

/// The size in bytes of one value of a field type.
pub open spec fn size_of_type(field_type: u16) -> int {
    if field_type == 3 || field_type == 8 {
        2
    } else if field_type == 4 || field_type == 9 || field_type == 11 {
        4
    } else if field_type == 5 || field_type == 10 || field_type == 12 {
        8
    } else {
        1
    }
}

/// Whether an entry's values lie in its own four-byte field.
pub open spec fn inline(entry: EntryModel) -> bool {
    size_of_type(entry.field_type) * entry.count <= 4
}

/// The entry whose twelve bytes start at `pos`.
pub open spec fn entry_at(order: ByteOrder, data: Seq<u8>, pos: int) -> EntryModel {
    EntryModel {
        tag: u16_at(order, data, pos) as u16,
        field_type: u16_at(order, data, pos + 2) as u16,
        count: u32_at(order, data, pos + 4) as u32,
        value: data.subrange(pos + 8, pos + 12),
    }
}

/// The entries and the next-directory offset of the directory at
/// `offset`, or `None` where it runs past the end.
pub open spec fn ifd_at(order: ByteOrder, data: Seq<u8>, offset: int) -> Option<
    (Seq<EntryModel>, int),
> {
    if offset < 0 || offset + 2 > data.len() {
        None
    } else {
        let count = u16_at(order, data, offset);
        if offset + 2 + 12 * count + 4 > data.len() {
            None
        } else {
            Some(
                (
                    Seq::new(count as nat, |i: int| entry_at(order, data, offset + 2 + 12 * i)),
                    u32_at(order, data, offset + 2 + 12 * count),
                ),
            )
        }
    }
}

/// The entries that are not metadata, in order.
pub open spec fn kept(entries: Seq<EntryModel>) -> Seq<EntryModel>
    decreases entries.len(),
{
    if entries.len() == 0 {
        Seq::empty()
    } else if metadata_tag(entries.last().tag) {
        kept(entries.drop_last())
    } else {
        kept(entries.drop_last()).push(entries.last())
    }
}

/// The kept entries of the directories chained from `offset`. The chain
/// ends at offset zero or at an offset outside the buffer. `budget` bounds
/// the number of directories: `None` where it runs out or a directory is
/// cut short.
pub open spec fn ifds_from(order: ByteOrder, data: Seq<u8>, offset: int, budget: nat) -> Option<
    Seq<Seq<EntryModel>>,
>
    decreases budget,
{
    if offset <= 0 || offset >= data.len() {
        Some(Seq::empty())
    } else if budget == 0 {
        None
    } else {
        match ifd_at(order, data, offset) {
            None => None,
            Some((entries, next)) => prepend(
                seq![kept(entries)],
                ifds_from(order, data, next, (budget - 1) as nat),
            ),
        }
    }
}

/// The bytes of one entry.
pub open spec fn encoded_entry(order: ByteOrder, entry: EntryModel) -> Seq<u8> {
    u16_bytes(order, entry.tag) + u16_bytes(order, entry.field_type) + u32_bytes(
        order,
        entry.count,
    ) + entry.value
}

/// The bytes of a list of entries.
pub open spec fn encoded_entries(order: ByteOrder, entries: Seq<EntryModel>) -> Seq<u8>
    decreases entries.len(),
{
    if entries.len() == 0 {
        Seq::empty()
    } else {
        encoded_entries(order, entries.drop_last()) + encoded_entry(order, entries.last())
    }
}

/// The bytes of one directory: its count, its entries, and the offset of
/// the next directory.
pub open spec fn encoded_ifd(order: ByteOrder, entries: Seq<EntryModel>, next: u32) -> Seq<u8> {
    u16_bytes(order, entries.len() as u16) + encoded_entries(order, entries) + u32_bytes(
        order,
        next,
    )
}

/// The numbers that an entry of type SHORT or LONG holds, as far as they
/// lie inside the buffer; nothing for any other type.
pub open spec fn values_of(order: ByteOrder, data: Seq<u8>, entry: EntryModel) -> Seq<u32> {
    if inline(entry) {
        if entry.field_type == 3 {
            Seq::new(entry.count as nat, |i: int| u16_at(order, entry.value, 2 * i) as u32)
        } else if entry.field_type == 4 {
            Seq::new(entry.count as nat, |i: int| u32_at(order, entry.value, 0) as u32)
        } else {
            Seq::empty()
        }
    } else {
        let offset = u32_at(order, entry.value, 0);
        if entry.field_type == 3 {
            Seq::new(
                readable(data.len() as int, offset, 2, entry.count as int),
                |i: int| u16_at(order, data, offset + 2 * i) as u32,
            )
        } else if entry.field_type == 4 {
            Seq::new(
                readable(data.len() as int, offset, 4, entry.count as int),
                |i: int| u32_at(order, data, offset + 4 * i) as u32,
            )
        } else {
            Seq::empty()
        }
    }
}

/// How many of `count` values of `width` bytes each, stored from
/// `offset` on, lie inside a buffer of `len` bytes.
pub open spec fn readable(len: int, offset: int, width: int, count: int) -> nat {
    if width <= 0 || offset + width > len {
        0
    } else if count * width <= len - offset {
        count as nat
    } else {
        ((len - offset) / width) as nat
    }
}

/// Whether a tag names where strips or tiles start.
pub open spec fn offsets_tag(tag: u16) -> bool {
    tag == STRIP_OFFSETS || tag == TILE_OFFSETS
}

/// Whether a tag names how long strips or tiles are.
pub open spec fn byte_counts_tag(tag: u16) -> bool {
    tag == STRIP_BYTE_COUNTS || tag == TILE_BYTE_COUNTS
}

/// The first entry that names byte counts.
pub open spec fn byte_counts_entry(entries: Seq<EntryModel>) -> Option<EntryModel>
    decreases entries.len(),
{
    if entries.len() == 0 {
        None
    } else if byte_counts_tag(entries[0].tag) {
        Some(entries[0])
    } else {
        byte_counts_entry(entries.drop_first())
    }
}

/// The sum of the first `upto` lengths.
pub open spec fn total(counts: Seq<u32>, upto: nat) -> int
    decreases upto,
{
    if upto == 0 {
        0
    } else {
        total(counts, (upto - 1) as nat) + counts[upto - 1]
    }
}

/// The bytes of one offset: four where the entry holds LONGs, two where
/// it holds SHORTs.
pub open spec fn value_bytes(order: ByteOrder, wide: bool, value: int) -> Seq<u8> {
    if wide {
        u32_bytes(order, value as u32)
    } else {
        u16_bytes(order, value as u16)
    }
}

/// The largest offset that an entry of LONGs or of SHORTs can hold.
pub open spec fn limit_of(wide: bool) -> int {
    if wide {
        0xFFFF_FFFF
    } else {
        0xFFFF
    }
}

/// The new offsets of the first `upto` regions, which are copied one
/// behind the other from `base` on.
pub open spec fn moved_offsets(
    order: ByteOrder,
    wide: bool,
    base: int,
    counts: Seq<u32>,
    upto: nat,
) -> Seq<u8>
    decreases upto,
{
    if upto == 0 {
        Seq::empty()
    } else {
        moved_offsets(order, wide, base, counts, (upto - 1) as nat) + value_bytes(
            order,
            wide,
            base + total(counts, (upto - 1) as nat),
        )
    }
}

/// The bytes of the first `upto` regions of the input, one behind the
/// other.
pub open spec fn copied_regions(
    data: Seq<u8>,
    offsets: Seq<u32>,
    counts: Seq<u32>,
    upto: nat,
) -> Seq<u8>
    decreases upto,
{
    if upto == 0 {
        Seq::empty()
    } else {
        copied_regions(data, offsets, counts, (upto - 1) as nat) + data.subrange(
            offsets[upto - 1] as int,
            offsets[upto - 1] + counts[upto - 1],
        )
    }
}

/// Whether region `j` lies inside the input and its new offset fits the
/// entry's type.
pub open spec fn region_fits(
    len: int,
    offsets: Seq<u32>,
    counts: Seq<u32>,
    j: int,
    base: int,
    limit: int,
) -> bool {
    offsets[j] + counts[j] <= len && base + total(counts, j as nat) <= limit
}

/// Whether the first `upto` regions can be moved.
pub open spec fn regions_fit(
    len: int,
    offsets: Seq<u32>,
    counts: Seq<u32>,
    upto: nat,
    base: int,
    limit: int,
) -> bool {
    forall|j: int| 0 <= j < upto ==> #[trigger] region_fits(len, offsets, counts, j, base, limit)
}

/// What one kept entry of the directory `entries` adds behind the
/// directories when it is written at position `at`, and the value field
/// it is written with:
/// - an entry of strip or tile offsets: the regions that it and the
///   directory's byte counts name, copied one behind the other, and its
///   offsets changed to where they now stand (behind the array of the
///   new offsets, where that does not fit the value field);
/// - any other entry whose values do not fit the value field: those
///   values, and `at` as its value field;
/// - any other entry: nothing, and the value field as it was.
/// `None` where `at` is no 32-bit offset, where offsets have no byte
/// counts beside them, are not all there or are neither SHORT nor LONG,
/// where a region or a value lies outside the input, or where a new
/// offset does not fit the entry's type.
pub open spec fn placed_entry(
    order: ByteOrder,
    data: Seq<u8>,
    entries: Seq<EntryModel>,
    entry: EntryModel,
    at: int,
) -> Option<(Seq<u8>, Seq<u8>)> {
    if at > 0xFFFF_FFFF {
        None
    } else if offsets_tag(entry.tag) {
        match byte_counts_entry(entries) {
            None => None,
            Some(lengths) => {
                let offsets = values_of(order, data, entry);
                let counts = values_of(order, data, lengths);
                let n = entry.count as nat;
                let wide = entry.field_type == 4;
                let base = if inline(entry) {
                    at
                } else if wide {
                    at + 4 * n
                } else {
                    at + 2 * n
                };
                if (entry.field_type != 3 && entry.field_type != 4) || offsets.len() != n
                    || counts.len() < n || !regions_fit(
                    data.len() as int,
                    offsets,
                    counts,
                    n,
                    base,
                    limit_of(wide),
                ) {
                    None
                } else {
                    let array = moved_offsets(order, wide, base, counts, n);
                    let regions = copied_regions(data, offsets, counts, n);
                    if inline(entry) {
                        Some((regions, array + entry.value.subrange(array.len() as int, 4)))
                    } else {
                        Some((array + regions, u32_bytes(order, at as u32)))
                    }
                }
            },
        }
    } else if !inline(entry) {
        let size = size_of_type(entry.field_type) * entry.count;
        let from = u32_at(order, entry.value, 0);
        if from + size > data.len() {
            None
        } else {
            Some((data.subrange(from, from + size), u32_bytes(order, at as u32)))
        }
    } else {
        Some((Seq::empty(), entry.value))
    }
}

/// `rest` with `bytes` and `items` in front of its two parts.
pub open spec fn joined<T>(bytes: Seq<u8>, items: Seq<T>, rest: Option<(Seq<u8>, Seq<T>)>) -> Option<
    (Seq<u8>, Seq<T>),
> {
    match rest {
        Some((more, others)) => Some((bytes + more, items + others)),
        None => None,
    }
}

/// Joining twice is joining the concatenations.
pub proof fn lemma_joined_twice<T>(
    a: Seq<u8>,
    x: Seq<T>,
    b: Seq<u8>,
    y: Seq<T>,
    rest: Option<(Seq<u8>, Seq<T>)>,
)
    ensures
        joined(a, x, joined(b, y, rest)) == joined(a + b, x + y, rest),
{
    if let Some((more, others)) = rest {
        assert(a + (b + more) =~= (a + b) + more);
        assert(x + (y + others) =~= (x + y) + others);
    }
}

/// The entry with another value field.
pub open spec fn with_value(entry: EntryModel, value: Seq<u8>) -> EntryModel {
    EntryModel { tag: entry.tag, field_type: entry.field_type, count: entry.count, value }
}

/// What the entries of a directory from index `j` on add behind the
/// directories, the first of it at position `at`, and the entries as
/// they are written.
pub open spec fn placed_from(
    order: ByteOrder,
    data: Seq<u8>,
    entries: Seq<EntryModel>,
    j: int,
    at: int,
) -> Option<(Seq<u8>, Seq<EntryModel>)>
    decreases entries.len() - j,
{
    if j < 0 || j >= entries.len() {
        Some((Seq::empty(), Seq::empty()))
    } else {
        match placed_entry(order, data, entries, entries[j], at) {
            None => None,
            Some((payload, value)) => joined(
                payload,
                seq![with_value(entries[j], value)],
                placed_from(order, data, entries, j + 1, at + payload.len()),
            ),
        }
    }
}

/// What the directories from index `i` on add behind the directories,
/// the first of it at position `at`, and the directories as they are
/// written.
pub open spec fn placed_ifds_from(
    order: ByteOrder,
    data: Seq<u8>,
    ifds: Seq<Seq<EntryModel>>,
    i: int,
    at: int,
) -> Option<(Seq<u8>, Seq<Seq<EntryModel>>)>
    decreases ifds.len() - i,
{
    if i < 0 || i >= ifds.len() {
        Some((Seq::empty(), Seq::empty()))
    } else {
        match placed_from(order, data, ifds[i], 0, at) {
            None => None,
            Some((payload, moved)) => joined(
                payload,
                seq![moved],
                placed_ifds_from(order, data, ifds, i + 1, at + payload.len()),
            ),
        }
    }
}

/// The number of bytes that the first `upto` directories take.
pub open spec fn region_len(ifds: Seq<Seq<EntryModel>>, upto: nat) -> int
    decreases upto,
{
    if upto == 0 {
        0
    } else {
        region_len(ifds, (upto - 1) as nat) + 6 + 12 * ifds[upto - 1].len()
    }
}

/// Whether every directory, and what follows the last, starts at a
/// 32-bit offset.
pub open spec fn positions_fit(ifds: Seq<Seq<EntryModel>>) -> bool {
    forall|i: int| 0 <= i <= ifds.len() ==> 8 + #[trigger] region_len(ifds, i as nat) <= 0xFFFF_FFFF
}

/// The bytes of the first `upto` of the directories `moved`, each with
/// the offset of the next, and zero in the last; `kept` gives their
/// sizes.
pub open spec fn linked_ifds(
    order: ByteOrder,
    kept: Seq<Seq<EntryModel>>,
    moved: Seq<Seq<EntryModel>>,
    upto: nat,
) -> Seq<u8>
    decreases upto,
{
    if upto == 0 {
        Seq::empty()
    } else {
        linked_ifds(order, kept, moved, (upto - 1) as nat) + encoded_ifd(
            order,
            moved[upto - 1],
            if upto == kept.len() {
                0u32
            } else {
                (8 + region_len(kept, upto)) as u32
            },
        )
    }
}

/// The two bytes that announce a byte order.
pub open spec fn order_mark(order: ByteOrder) -> Seq<u8> {
    match order {
        ByteOrder::Little => seq![0x49u8, 0x49u8],
        ByteOrder::Big => seq![0x4Du8, 0x4Du8],
    }
}

/// The byte order that the first two bytes announce.
pub open spec fn order_of(data: Seq<u8>) -> Option<ByteOrder> {
    if data.len() < 2 {
        None
    } else if data[0] == 0x49 && data[1] == 0x49 {
        Some(ByteOrder::Little)
    } else if data[0] == 0x4D && data[1] == 0x4D {
        Some(ByteOrder::Big)
    } else {
        None
    }
}

/// The file written from the kept directories: the header, which points
/// at offset eight where there is a directory; the directories, one
/// behind the other and each pointing at the next; and behind them what
/// their entries point at, moved there.
pub open spec fn rewritten(
    order: ByteOrder,
    kept: Seq<Seq<EntryModel>>,
    moved: Seq<Seq<EntryModel>>,
    tail: Seq<u8>,
) -> Seq<u8> {
    order_mark(order) + u16_bytes(order, 42) + u32_bytes(
        order,
        if kept.len() > 0 {
            8u32
        } else {
            0u32
        },
    ) + linked_ifds(order, kept, moved, kept.len()) + tail
}

/// The stripped file, or `None` where the input is not a well-formed
/// TIFF: a wrong header, a first directory outside the file, a directory
/// cut short, a chain of more directories than the file has bytes (which
/// can only be a loop), an entry that cannot be moved (see
/// `placed_entry`), or a rewritten file that 32-bit offsets cannot span.
/// Every rewrite is returned, however small.
pub open spec fn stripped(data: Seq<u8>) -> Option<Seq<u8>> {
    if data.len() < 8 {
        None
    } else {
        match order_of(data) {
            None => None,
            Some(order) => if u16_at(order, data, 2) != 42 || u32_at(order, data, 4)
                >= data.len() {
                None
            } else {
                match ifds_from(order, data, u32_at(order, data, 4), data.len()) {
                    None => None,
                    Some(kept) => if !positions_fit(kept) {
                        None
                    } else {
                        match placed_ifds_from(
                            order,
                            data,
                            kept,
                            0,
                            8 + region_len(kept, kept.len()),
                        ) {
                            None => None,
                            Some((tail, moved)) => Some(rewritten(order, kept, moved, tail)),
                        }
                    },
                }
            },
        }
    }
}

/// The models of a list of entries.
pub open spec fn models(entries: Seq<IfdEntry>) -> Seq<EntryModel> {
    entries.map_values(|e: IfdEntry| e.model())
}

/// The models of a list of directories.
pub open spec fn ifd_models(ifds: Seq<Vec<IfdEntry>>) -> Seq<Seq<EntryModel>> {
    ifds.map_values(|entries: Vec<IfdEntry>| models(entries@))
}

impl ByteOrder {
    /// Reads the 16-bit number at `pos`.
    pub fn read_u16_at(&self, data: &[u8], pos: usize) -> (value: u16)
        requires
            pos + 2 <= data@.len(),
        ensures
            value == u16_at(*self, data@, pos as int),
    {
        match self {
            ByteOrder::Little => (data[pos] as u16) + (data[pos + 1] as u16) * 256,
            ByteOrder::Big => (data[pos] as u16) * 256 + (data[pos + 1] as u16),
        }
    }

    /// Reads the 32-bit number at `pos`.
    pub fn read_u32_at(&self, data: &[u8], pos: usize) -> (value: u32)
        requires
            pos + 4 <= data@.len(),
        ensures
            value == u32_at(*self, data@, pos as int),
    {
        match self {
            ByteOrder::Little => (data[pos] as u32) + (data[pos + 1] as u32) * 256 + (data[pos
                + 2] as u32) * 65536 + (data[pos + 3] as u32) * 16777216,
            ByteOrder::Big => (data[pos] as u32) * 16777216 + (data[pos + 1] as u32) * 65536 + (
            data[pos + 2] as u32) * 256 + (data[pos + 3] as u32),
        }
    }

    /// Reads the 16-bit number at the start of `data`.
    pub fn read_u16(&self, data: &[u8]) -> (value: u16)
        requires
            data@.len() >= 2,
        ensures
            value == u16_at(*self, data@, 0),
    {
        self.read_u16_at(data, 0)
    }

    /// Reads the 32-bit number at the start of `data`.
    pub fn read_u32(&self, data: &[u8]) -> (value: u32)
        requires
            data@.len() >= 4,
        ensures
            value == u32_at(*self, data@, 0),
    {
        self.read_u32_at(data, 0)
    }

    /// The two bytes of `value` in this order.
    pub fn write_u16(&self, value: u16) -> (bytes: [u8; 2])
        ensures
            bytes@ == u16_bytes(*self, value),
    {
        let bytes: [u8; 2] = match self {
            ByteOrder::Little => [(value % 256) as u8, (value / 256) as u8],
            ByteOrder::Big => [(value / 256) as u8, (value % 256) as u8],
        };
        assert(bytes@ =~= u16_bytes(*self, value));
        bytes
    }

    /// The four bytes of `value` in this order.
    pub fn write_u32(&self, value: u32) -> (bytes: [u8; 4])
        ensures
            bytes@ == u32_bytes(*self, value),
    {
        let bytes: [u8; 4] = match self {
            ByteOrder::Little => [
                (value % 256) as u8,
                (value / 256 % 256) as u8,
                (value / 65536 % 256) as u8,
                (value / 16777216) as u8,
            ],
            ByteOrder::Big => [
                (value / 16777216) as u8,
                (value / 65536 % 256) as u8,
                (value / 256 % 256) as u8,
                (value % 256) as u8,
            ],
        };
        assert(bytes@ =~= u32_bytes(*self, value));
        bytes
    }
}

/// Check if a tag is metadata that should be stripped.
pub fn is_metadata_tag(tag: u16) -> (metadata: bool)
    ensures
        metadata == metadata_tag(tag),
{
    tag == IMAGE_DESCRIPTION || tag == MAKE || tag == MODEL || tag == SOFTWARE || tag == DATE_TIME
        || tag == ARTIST || tag == HOST_COMPUTER || tag == COPYRIGHT || tag == EXIF_IFD || tag
        == GPS_IFD || tag == XMP || tag == IPTC || tag == PHOTOSHOP || tag == INTEROPERABILITY_IFD
}

/// TIFF field type sizes.
pub fn type_size(field_type: u16) -> (size: usize)
    ensures
        size == size_of_type(field_type),
{
    if field_type == 3 || field_type == 8 {
        2
    } else if field_type == 4 || field_type == 9 || field_type == 11 {
        4
    } else if field_type == 5 || field_type == 10 || field_type == 12 {
        8
    } else {
        1
    }
}

impl IfdEntry {
    /// The entry with its value field as a sequence.
    pub open spec fn model(self) -> EntryModel {
        EntryModel {
            tag: self.tag,
            field_type: self.field_type,
            count: self.count,
            value: self.value_offset@,
        }
    }

    /// Check if the value is stored inline (within the 4-byte value field).
    pub fn is_inline(&self) -> (fits: bool)
        ensures
            fits == inline(self.model()),
    {
        let size: u64 = (type_size(self.field_type) as u64) * (self.count as u64);
        size <= 4
    }
}

/// Parse the directory at `offset`: its entries and the offset of the next.
pub fn parse_ifd(data: &[u8], offset: usize, byte_order: ByteOrder, path: &str) -> (result: Result<
    (Vec<IfdEntry>, u32),
    Error,
>)
    ensures
        match result {
            Ok((entries, next)) => ifd_at(byte_order, data@, offset as int) == Some(
                (models(entries@), next as int),
            ),
            Err(error) => ifd_at(byte_order, data@, offset as int).is_none()
                && error.is_invalid_image(path@),
        },
{
    let len: usize = data.len();
    if len < 2 || offset > len - 2 {
        return Err(Error::invalid_image(path, "Truncated IFD entry count"));
    }
    let num_entries: usize = byte_order.read_u16_at(data, offset) as usize;
    let mut entries: Vec<IfdEntry> = Vec::new();
    let mut pos: usize = offset + 2;
    let mut i: usize = 0;
    while i < num_entries
        invariant
            len == data@.len(),
            offset + 2 <= len,
            num_entries == u16_at(byte_order, data@, offset as int),
            i <= num_entries,
            pos == offset + 2 + 12 * i,
            pos <= len,
            entries@.len() == i,
            forall|k: int|
                0 <= k < i ==> (#[trigger] entries@[k]).model() == entry_at(
                    byte_order,
                    data@,
                    offset + 2 + 12 * k,
                ),
        decreases num_entries - i,
    {
        if len - pos < 12 {
            return Err(Error::invalid_image(path, "Truncated IFD entry"));
        }
        let tag = byte_order.read_u16_at(data, pos);
        let field_type = byte_order.read_u16_at(data, pos + 2);
        let count = byte_order.read_u32_at(data, pos + 4);
        let value_offset: [u8; 4] = [data[pos + 8], data[pos + 9], data[pos + 10], data[pos + 11]];
        let entry = IfdEntry { tag, field_type, count, value_offset };
        proof {
            assert(entry.model().value =~= data@.subrange(pos + 8, pos + 12));
        }
        entries.push(entry);
        pos += 12;
        i += 1;
    }
    if len - pos < 4 {
        return Err(Error::invalid_image(path, "Truncated next IFD pointer"));
    }
    let next_ifd = byte_order.read_u32_at(data, pos);
    proof {
        assert(models(entries@) =~= Seq::new(
            num_entries as nat,
            |i: int| entry_at(byte_order, data@, offset + 2 + 12 * i),
        ));
    }
    Ok((entries, next_ifd))
}

/// The entries that are not metadata, in order.
pub fn kept_entries(entries: &Vec<IfdEntry>) -> (filtered: Vec<IfdEntry>)
    ensures
        models(filtered@) == kept(models(entries@)),
        filtered@.len() <= entries@.len(),
{
    let mut filtered: Vec<IfdEntry> = Vec::new();
    let mut i: usize = 0;
    proof {
        assert(models(entries@).subrange(0, 0) =~= Seq::<EntryModel>::empty());
        assert(models(filtered@) =~= Seq::<EntryModel>::empty());
    }
    while i < entries.len()
        invariant
            i <= entries@.len(),
            filtered@.len() <= i,
            models(filtered@) == kept(models(entries@).subrange(0, i as int)),
        decreases entries@.len() - i,
    {
        let ghost shorter = models(entries@).subrange(0, i as int);
        let ghost longer = models(entries@).subrange(0, i + 1);
        let ghost before = filtered@;
        proof {
            assert(longer.drop_last() =~= shorter);
            assert(longer.last() == entries@[i as int].model());
        }
        let entry = entries[i];
        if !is_metadata_tag(entry.tag) {
            filtered.push(entry);
            proof {
                assert(models(filtered@) =~= models(before).push(entry.model()));
            }
        }
        i += 1;
    }
    proof {
        assert(models(entries@).subrange(0, entries@.len() as int) =~= models(entries@));
    }
    filtered
}

/// Read offset/count values from an IFD entry.
pub fn read_offset_values(data: &[u8], entry: &IfdEntry, byte_order: ByteOrder) -> (values: Vec<
    u32,
>)
    ensures
        values@ == values_of(byte_order, data@, entry.model()),
{
    let mut values: Vec<u32> = Vec::new();
    let len: u64 = data.len() as u64;
    let field: &[u8] = entry.value_offset.as_slice();
    if entry.is_inline() {
        if entry.field_type == 3 {
            let mut i: usize = 0;
            while i < entry.count as usize
                invariant
                    field@ == entry.value_offset@,
                    field@.len() == 4,
                    entry.count <= 2,
                    i <= entry.count,
                    values@.len() == i,
                    forall|k: int|
                        0 <= k < i ==> values@[k] == u16_at(byte_order, field@, 2 * k) as u32,
                decreases entry.count - i,
            {
                values.push(byte_order.read_u16_at(field, i * 2) as u32);
                i += 1;
            }
            assert(values@ =~= values_of(byte_order, data@, entry.model()));
        } else if entry.field_type == 4 {
            if entry.count >= 1 {
                values.push(byte_order.read_u32(field));
            }
            assert(values@ =~= values_of(byte_order, data@, entry.model()));
        }
    } else {
        let offset: u64 = byte_order.read_u32(field) as u64;
        if entry.field_type == 3 {
            let mut i: u64 = 0;
            while i < entry.count as u64 && offset + i * 2 + 2 <= len
                invariant
                    len == data@.len(),
                    data@.len() <= usize::MAX,
                    offset == u32_at(byte_order, entry.value_offset@, 0),
                    i <= entry.count,
                    i == 0 || offset + 2 * i <= len,
                    values@.len() == i,
                    forall|k: int|
                        0 <= k < i ==> values@[k] == u16_at(byte_order, data@, offset + 2 * k)
                            as u32,
                decreases entry.count - i,
            {
                values.push(byte_order.read_u16_at(data, (offset + i * 2) as usize) as u32);
                i += 1;
            }
            assert(values@.len() == readable(len as int, offset as int, 2, entry.count as int));
            assert(values@ =~= values_of(byte_order, data@, entry.model()));
        } else if entry.field_type == 4 {
            let mut i: u64 = 0;
            while i < entry.count as u64 && offset + i * 4 + 4 <= len
                invariant
                    len == data@.len(),
                    data@.len() <= usize::MAX,
                    offset == u32_at(byte_order, entry.value_offset@, 0),
                    i <= entry.count,
                    i == 0 || offset + 4 * i <= len,
                    values@.len() == i,
                    forall|k: int|
                        0 <= k < i ==> values@[k] == u32_at(byte_order, data@, offset + 4 * k)
                            as u32,
                decreases entry.count - i,
            {
                values.push(byte_order.read_u32_at(data, (offset + i * 4) as usize));
                i += 1;
            }
            assert(values@.len() == readable(len as int, offset as int, 4, entry.count as int));
            assert(values@ =~= values_of(byte_order, data@, entry.model()));
        }
    }
    values
}

/// Appends the two bytes of `value`.
pub fn push_u16(output: &mut Vec<u8>, byte_order: ByteOrder, value: u16)
    ensures
        final(output)@ == old(output)@ + u16_bytes(byte_order, value),
{
    let bytes = byte_order.write_u16(value);
    output.push(bytes[0]);
    output.push(bytes[1]);
    assert(output@ =~= old(output)@ + u16_bytes(byte_order, value));
}

/// Appends the four bytes of `value`.
pub fn push_u32(output: &mut Vec<u8>, byte_order: ByteOrder, value: u32)
    ensures
        final(output)@ == old(output)@ + u32_bytes(byte_order, value),
{
    let bytes = byte_order.write_u32(value);
    output.push(bytes[0]);
    output.push(bytes[1]);
    output.push(bytes[2]);
    output.push(bytes[3]);
    assert(output@ =~= old(output)@ + u32_bytes(byte_order, value));
}

/// Appends one directory: count, entries, and the offset of the next.
pub fn write_ifd(output: &mut Vec<u8>, entries: &Vec<IfdEntry>, byte_order: ByteOrder, next: u32)
    requires
        entries@.len() <= u16::MAX,
    ensures
        final(output)@ == old(output)@ + encoded_ifd(byte_order, models(entries@), next),
{
    push_u16(output, byte_order, entries.len() as u16);
    let ghost start = output@;
    let mut i: usize = 0;
    proof {
        assert(models(entries@).subrange(0, 0) =~= Seq::<EntryModel>::empty());
        assert(output@ =~= start + encoded_entries(byte_order, models(entries@).subrange(0, 0)));
    }
    while i < entries.len()
        invariant
            i <= entries@.len(),
            output@ == start + encoded_entries(
                byte_order,
                models(entries@).subrange(0, i as int),
            ),
        decreases entries@.len() - i,
    {
        let ghost shorter = models(entries@).subrange(0, i as int);
        let ghost longer = models(entries@).subrange(0, i + 1);
        proof {
            assert(longer.drop_last() =~= shorter);
            assert(longer.last() == entries@[i as int].model());
        }
        let entry = entries[i];
        push_u16(output, byte_order, entry.tag);
        push_u16(output, byte_order, entry.field_type);
        push_u32(output, byte_order, entry.count);
        output.push(entry.value_offset[0]);
        output.push(entry.value_offset[1]);
        output.push(entry.value_offset[2]);
        output.push(entry.value_offset[3]);
        proof {
            assert(output@ =~= start + encoded_entries(byte_order, shorter) + encoded_entry(
                byte_order,
                entry.model(),
            ));
            assert(output@ =~= start + encoded_entries(byte_order, longer));
        }
        i += 1;
    }
    proof {
        assert(models(entries@).subrange(0, entries@.len() as int) =~= models(entries@));
    }
    push_u32(output, byte_order, next);
    assert(output@ =~= old(output)@ + encoded_ifd(byte_order, models(entries@), next));
}

/// Finds the first entry that names byte counts.
pub fn find_byte_counts(entries: &Vec<IfdEntry>) -> (found: Option<usize>)
    ensures
        match found {
            Some(i) => i < entries@.len() && byte_counts_entry(models(entries@)) == Some(
                entries@[i as int].model(),
            ),
            None => byte_counts_entry(models(entries@)).is_none(),
        },
{
    let mut i: usize = 0;
    proof {
        assert(models(entries@).subrange(0, entries@.len() as int) =~= models(entries@));
    }
    while i < entries.len()
        invariant
            i <= entries@.len(),
            byte_counts_entry(models(entries@)) == byte_counts_entry(
                models(entries@).subrange(i as int, entries@.len() as int),
            ),
        decreases entries@.len() - i,
    {
        let ghost rest = models(entries@).subrange(i as int, entries@.len() as int);
        proof {
            assert(rest[0] == entries@[i as int].model());
            assert(rest.drop_first() =~= models(entries@).subrange(
                i + 1,
                entries@.len() as int,
            ));
        }
        if entries[i].tag == STRIP_BYTE_COUNTS || entries[i].tag == TILE_BYTE_COUNTS {
            return Some(i);
        }
        i += 1;
    }
    None
}

/// The new offsets of regions that are copied one behind the other from
/// `start` on, where every region lies inside the input and every new
/// offset fits the entry's type.
pub fn new_offsets(
    data: &[u8],
    offsets: &Vec<u32>,
    counts: &Vec<u32>,
    byte_order: ByteOrder,
    wide: bool,
    start: u64,
) -> (array: Option<Vec<u8>>)
    requires
        counts@.len() >= offsets@.len(),
        start <= 0x5_0000_0000,
    ensures
        match array {
            Some(bytes) => regions_fit(
                data@.len() as int,
                offsets@,
                counts@,
                offsets@.len(),
                start as int,
                limit_of(wide),
            ) && bytes@ == moved_offsets(
                byte_order,
                wide,
                start as int,
                counts@,
                offsets@.len(),
            ) && bytes@.len() == (if wide {
                4 * offsets@.len()
            } else {
                2 * offsets@.len()
            }),
            None => !regions_fit(
                data@.len() as int,
                offsets@,
                counts@,
                offsets@.len(),
                start as int,
                limit_of(wide),
            ),
        },
{
    let len: u64 = data.len() as u64;
    let limit: u64 = if wide {
        0xFFFF_FFFF
    } else {
        0xFFFF
    };
    let mut array: Vec<u8> = Vec::new();
    let mut moved: u64 = 0;
    let mut j: usize = 0;
    while j < offsets.len()
        invariant
            len == data@.len(),
            counts@.len() >= offsets@.len(),
            j <= offsets@.len(),
            start <= 0x5_0000_0000,
            limit == limit_of(wide),
            moved == total(counts@, j as nat),
            moved <= 0x2_0000_0000,
            array@ == moved_offsets(byte_order, wide, start as int, counts@, j as nat),
            array@.len() == (if wide {
                4 * j
            } else {
                2 * j
            }),
            regions_fit(len as int, offsets@, counts@, j as nat, start as int, limit as int),
        decreases offsets@.len() - j,
    {
        let from: u64 = offsets[j] as u64;
        let count: u64 = counts[j] as u64;
        if from + count > len || start + moved > limit {
            proof {
                assert(!region_fits(
                    len as int,
                    offsets@,
                    counts@,
                    j as int,
                    start as int,
                    limit as int,
                ));
            }
            return None;
        }
        if wide {
            push_u32(&mut array, byte_order, (start + moved) as u32);
        } else {
            push_u16(&mut array, byte_order, (start + moved) as u16);
        }
        proof {
            assert(region_fits(
                len as int,
                offsets@,
                counts@,
                j as int,
                start as int,
                limit as int,
            ));
        }
        moved = moved + count;
        j += 1;
    }
    Some(array)
}

/// Appends the regions of the input that the offsets and lengths name,
/// one behind the other.
pub fn copy_all_regions(tail: &mut Vec<u8>, data: &[u8], offsets: &Vec<u32>, counts: &Vec<u32>)
    requires
        counts@.len() >= offsets@.len(),
        forall|j: int|
            0 <= j < offsets@.len() ==> (#[trigger] offsets@[j]) + counts@[j] <= data@.len(),
    ensures
        final(tail)@ == old(tail)@ + copied_regions(data@, offsets@, counts@, offsets@.len()),
{
    let mut k: usize = 0;
    proof {
        assert(tail@ =~= old(tail)@ + copied_regions(data@, offsets@, counts@, 0));
    }
    while k < offsets.len()
        invariant
            counts@.len() >= offsets@.len(),
            k <= offsets@.len(),
            forall|j: int|
                0 <= j < offsets@.len() ==> (#[trigger] offsets@[j]) + counts@[j] <= data@.len(),
            tail@ == old(tail)@ + copied_regions(data@, offsets@, counts@, k as nat),
        decreases offsets@.len() - k,
    {
        let from: usize = offsets[k] as usize;
        let count: usize = counts[k] as usize;
        let total_len: usize = data.len();
        proof {
            assert(offsets@[k as int] + counts@[k as int] <= data@.len());
        }
        copy_range(tail, data, from, from + count);
        proof {
            assert(tail@ =~= old(tail)@ + copied_regions(
                data@,
                offsets@,
                counts@,
                (k + 1) as nat,
            ));
        }
        k += 1;
    }
}

/// The value field of an entry that holds its offsets itself: the new
/// offsets, and behind them what the field held there.
pub fn inline_field(array: &Vec<u8>, held: [u8; 4]) -> (field: [u8; 4])
    requires
        array@.len() == 0 || array@.len() == 2 || array@.len() == 4,
    ensures
        field@ == array@ + held@.subrange(array@.len() as int, 4),
{
    let field: [u8; 4] = if array.len() == 0 {
        held
    } else if array.len() == 2 {
        [array[0], array[1], held[2], held[3]]
    } else {
        [array[0], array[1], array[2], array[3]]
    };
    assert(field@ =~= array@ + held@.subrange(array@.len() as int, 4));
    field
}

/// Moves the regions that an entry of offsets names: appends them to
/// `tail` (behind the array of their new offsets, where the entry does
/// not hold it itself) and gives the entry's new value field.
#[verifier::rlimit(60)]
pub fn place_regions(
    data: &[u8],
    entries: &Vec<IfdEntry>,
    index: usize,
    byte_order: ByteOrder,
    at: u32,
    tail: &mut Vec<u8>,
) -> (field: Option<[u8; 4]>)
    requires
        index < entries@.len(),
        offsets_tag(entries@[index as int].tag),
    ensures
        match placed_entry(
            byte_order,
            data@,
            models(entries@),
            entries@[index as int].model(),
            at as int,
        ) {
            Some((payload, value)) => field.is_some() && field.unwrap()@ == value
                && final(tail)@ == old(tail)@ + payload,
            None => field.is_none(),
        },
{
    let entry = entries[index];
    let lengths: usize = match find_byte_counts(entries) {
        Some(found) => found,
        None => {
            return None;
        },
    };
    if entry.field_type != 3 && entry.field_type != 4 {
        return None;
    }
    let wide: bool = entry.field_type == 4;
    let offsets = read_offset_values(data, &entry, byte_order);
    let counts = read_offset_values(data, &entries[lengths], byte_order);
    let n: u64 = entry.count as u64;
    if offsets.len() as u64 != n || (counts.len() as u64) < n {
        return None;
    }
    let fits: bool = entry.is_inline();
    let start: u64 = if fits {
        at as u64
    } else if wide {
        at as u64 + 4 * n
    } else {
        at as u64 + 2 * n
    };
    let array = match new_offsets(data, &offsets, &counts, byte_order, wide, start) {
        Some(array) => array,
        None => {
            return None;
        },
    };
    proof {
        assert forall|j: int| 0 <= j < offsets@.len() implies (#[trigger] offsets@[j])
            + counts@[j] <= data@.len() by {
            assert(region_fits(
                data@.len() as int,
                offsets@,
                counts@,
                j,
                start as int,
                limit_of(wide),
            ));
        }
    }
    let ghost before = tail@;
    if fits {
        proof {
            if wide {
                assert(size_of_type(entry.field_type) == 4);
                assert(4 * entry.count <= 4);
            } else {
                assert(size_of_type(entry.field_type) == 2);
                assert(2 * entry.count <= 4);
            }
        }
        copy_all_regions(tail, data, &offsets, &counts);
        Some(inline_field(&array, entry.value_offset))
    } else {
        fast_copy(tail, array.as_slice());
        copy_all_regions(tail, data, &offsets, &counts);
        proof {
            assert(tail@ =~= before + (array@ + copied_regions(
                data@,
                offsets@,
                counts@,
                offsets@.len(),
            )));
        }
        Some(byte_order.write_u32(at))
    }
}

/// Appends what one entry points at to `tail`, which starts at position
/// `base` of the rewritten file, and gives the value field that the
/// entry is written with.
pub fn place_entry(
    data: &[u8],
    entries: &Vec<IfdEntry>,
    index: usize,
    byte_order: ByteOrder,
    base: u32,
    tail: &mut Vec<u8>,
) -> (field: Option<[u8; 4]>)
    requires
        index < entries@.len(),
    ensures
        match placed_entry(
            byte_order,
            data@,
            models(entries@),
            entries@[index as int].model(),
            base + old(tail)@.len(),
        ) {
            Some((payload, value)) => field.is_some() && field.unwrap()@ == value
                && final(tail)@ == old(tail)@ + payload,
            None => field.is_none(),
        },
{
    let entry = entries[index];
    let len: u64 = data.len() as u64;
    if tail.len() as u64 > 0xFFFF_FFFF {
        return None;
    }
    let at: u64 = base as u64 + tail.len() as u64;
    if at > 0xFFFF_FFFF {
        return None;
    }
    let ghost before = tail@;
    if entry.tag == STRIP_OFFSETS || entry.tag == TILE_OFFSETS {
        place_regions(data, entries, index, byte_order, at as u32, tail)
    } else if !entry.is_inline() {
        let width: u64 = type_size(entry.field_type) as u64;
        let count: u64 = entry.count as u64;
        assert(width * count <= 0x8_0000_0000) by (nonlinear_arith)
            requires
                width <= 8,
                count <= 0xFFFF_FFFF,
        ;
        let size: u64 = width * count;
        let from: u64 = byte_order.read_u32(entry.value_offset.as_slice()) as u64;
        if from + size > len {
            return None;
        }
        copy_range(tail, data, from as usize, (from + size) as usize);
        Some(byte_order.write_u32(at as u32))
    } else {
        proof {
            assert(tail@ =~= before + Seq::<u8>::empty());
        }
        Some(entry.value_offset)
    }
}

/// Appends what the entries of a directory point at to `tail`, which
/// starts at position `base` of the rewritten file, and gives the entries
/// as they are written.
pub fn place_entries(
    data: &[u8],
    entries: &Vec<IfdEntry>,
    byte_order: ByteOrder,
    base: u32,
    tail: &mut Vec<u8>,
) -> (moved: Option<Vec<IfdEntry>>)
    ensures
        match placed_from(byte_order, data@, models(entries@), 0, base + old(tail)@.len()) {
            Some((payload, written)) => moved.is_some() && models(moved.unwrap()@) == written
                && moved.unwrap()@.len() == entries@.len() && final(tail)@ == old(tail)@
                + payload,
            None => moved.is_none(),
        },
{
    let mut moved: Vec<IfdEntry> = Vec::new();
    let ghost start = base + tail@.len();
    let ghost mut added: Seq<u8> = Seq::empty();
    let mut j: usize = 0;
    proof {
        let all = placed_from(byte_order, data@, models(entries@), 0, start);
        assert(models(moved@) =~= Seq::<EntryModel>::empty());
        if let Some((more, others)) = all {
            assert(added + more =~= more);
            assert(models(moved@) + others =~= others);
        }
        assert(tail@ =~= old(tail)@ + added);
    }
    while j < entries.len()
        invariant
            j <= entries@.len(),
            moved@.len() == j,
            tail@ == old(tail)@ + added,
            start == base + old(tail)@.len(),
            placed_from(byte_order, data@, models(entries@), 0, start) == joined(
                added,
                models(moved@),
                placed_from(byte_order, data@, models(entries@), j as int, start + added.len()),
            ),
        decreases entries@.len() - j,
    {
        let ghost done = models(moved@);
        proof {
            assert(models(entries@)[j as int] == entries@[j as int].model());
        }
        let value: [u8; 4] = match place_entry(data, entries, j, byte_order, base, tail) {
            Some(value) => value,
            None => {
                return None;
            },
        };
        let entry = entries[j];
        let written = IfdEntry {
            tag: entry.tag,
            field_type: entry.field_type,
            count: entry.count,
            value_offset: value,
        };
        moved.push(written);
        proof {
            let placed = placed_entry(
                byte_order,
                data@,
                models(entries@),
                entries@[j as int].model(),
                start + added.len(),
            );
            let payload = placed.unwrap().0;
            assert(written.model() == with_value(entries@[j as int].model(), value@));
            assert(models(moved@) =~= done + seq![written.model()]);
            lemma_joined_twice(
                added,
                done,
                payload,
                seq![written.model()],
                placed_from(
                    byte_order,
                    data@,
                    models(entries@),
                    j + 1,
                    start + added.len() + payload.len(),
                ),
            );
            assert(tail@ =~= old(tail)@ + (added + payload));
            added = added + payload;
        }
        j += 1;
    }
    proof {
        assert(added + Seq::<u8>::empty() =~= added);
        assert(models(moved@) + Seq::<EntryModel>::empty() =~= models(moved@));
    }
    Some(moved)
}

/// The positions of the directories and of what follows the last, where
/// all of them are 32-bit offsets.
pub fn directory_positions(ifds: &Vec<Vec<IfdEntry>>) -> (positions: Option<Vec<u32>>)
    requires
        forall|k: int| 0 <= k < ifds@.len() ==> (#[trigger] ifds@[k])@.len() <= u16::MAX,
    ensures
        match positions {
            Some(list) => positions_fit(ifd_models(ifds@)) && list@.len() == ifds@.len() + 1
                && forall|i: int|
                0 <= i <= ifds@.len() ==> (#[trigger] list@[i]) == 8 + region_len(
                    ifd_models(ifds@),
                    i as nat,
                ),
            None => !positions_fit(ifd_models(ifds@)),
        },
{
    let mut list: Vec<u32> = Vec::new();
    list.push(8);
    let mut position: u64 = 8;
    let mut i: usize = 0;
    while i < ifds.len()
        invariant
            i <= ifds@.len(),
            forall|k: int| 0 <= k < ifds@.len() ==> (#[trigger] ifds@[k])@.len() <= u16::MAX,
            position == 8 + region_len(ifd_models(ifds@), i as nat),
            position <= 0xFFFF_FFFF,
            list@.len() == i + 1,
            forall|k: int|
                0 <= k <= i ==> (#[trigger] list@[k]) == 8 + region_len(
                    ifd_models(ifds@),
                    k as nat,
                ),
        decreases ifds@.len() - i,
    {
        proof {
            assert(ifd_models(ifds@)[i as int].len() == ifds@[i as int]@.len());
        }
        let size: u64 = 6 + 12 * (ifds[i].len() as u64);
        position = position + size;
        if position > 0xFFFF_FFFF {
            proof {
                assert(8 + region_len(ifd_models(ifds@), (i + 1) as nat) > 0xFFFF_FFFF);
            }
            return None;
        }
        list.push(position as u32);
        i += 1;
    }
    proof {
        assert forall|k: int| 0 <= k <= ifds@.len() implies 8 + #[trigger] region_len(
            ifd_models(ifds@),
            k as nat,
        ) <= 0xFFFF_FFFF by {
            assert(list@[k] == 8 + region_len(ifd_models(ifds@), k as nat));
        }
    }
    Some(list)
}

/// Strip metadata from TIFF data.
///
/// Succeeds exactly on the inputs for which `stripped` is defined, and then
/// returns those bytes. `path` only labels the error.
pub fn strip(data: &[u8], path: &str) -> (result: Result<Vec<u8>, Error>)
    ensures
        match result {
            Ok(output) => stripped(data@) == Some(output@),
            Err(error) => stripped(data@).is_none() && error.is_invalid_image(path@),
        },
{
    let len: usize = data.len();
    if len < 8 {
        return Err(Error::invalid_image(path, "File too small to be a valid TIFF"));
    }
    let byte_order = if data[0] == 0x49 && data[1] == 0x49 {
        ByteOrder::Little
    } else if data[0] == 0x4D && data[1] == 0x4D {
        ByteOrder::Big
    } else {
        return Err(Error::invalid_image(path, "Invalid TIFF byte order marker"));
    };
    let magic = byte_order.read_u16_at(data, 2);
    if magic != 42 {
        return Err(Error::invalid_image(path, "Invalid TIFF magic number"));
    }
    let first: u32 = byte_order.read_u32_at(data, 4);
    if first as u64 >= len as u64 {
        return Err(Error::invalid_image(path, "IFD offset beyond file"));
    }
    let mut ifds: Vec<Vec<IfdEntry>> = Vec::new();
    let mut current: u32 = first;
    let mut budget: usize = len;
    proof {
        assert(ifd_models(ifds@) =~= Seq::<Seq<EntryModel>>::empty());
        let all = ifds_from(byte_order, data@, first as int, len as nat);
        assert(prepend(ifd_models(ifds@), all) == all) by {
            if let Some(tail) = all {
                assert(ifd_models(ifds@) + tail =~= tail);
            }
        }
    }
    loop
        invariant_except_break
            len == data@.len(),
            len >= 8,
            order_of(data@) == Some(byte_order),
            u16_at(byte_order, data@, 2) == 42,
            first == u32_at(byte_order, data@, 4),
            first < len,
            ifds_from(byte_order, data@, first as int, len as nat) == prepend(
                ifd_models(ifds@),
                ifds_from(byte_order, data@, current as int, budget as nat),
            ),
            forall|k: int| 0 <= k < ifds@.len() ==> (#[trigger] ifds@[k])@.len() <= u16::MAX,
        ensures
            ifds_from(byte_order, data@, first as int, len as nat) == Some(ifd_models(ifds@)),
            forall|k: int| 0 <= k < ifds@.len() ==> (#[trigger] ifds@[k])@.len() <= u16::MAX,
        decreases budget,
    {
        if current == 0 || current as u64 >= len as u64 {
            proof {
                lemma_prepend_empty(ifd_models(ifds@));
            }
            break ;
        }
        if budget == 0 {
            return Err(Error::invalid_image(path, "IFD chain does not end"));
        }
        let (entries, next_ifd) = match parse_ifd(data, current as usize, byte_order, path) {
            Ok(parsed) => parsed,
            Err(error) => {
                return Err(error);
            },
        };
        let filtered = kept_entries(&entries);
        let ghost before = ifds@;
        proof {
            assert(entries@.len() <= u16::MAX);
            lemma_prepend_twice(
                ifd_models(before),
                seq![models(filtered@)],
                ifds_from(byte_order, data@, next_ifd as int, (budget - 1) as nat),
            );
        }
        ifds.push(filtered);
        proof {
            assert(ifd_models(ifds@) =~= ifd_models(before) + seq![models(filtered@)]);
        }
        current = next_ifd;
        budget -= 1;
    }

    let ghost kept = ifd_models(ifds@);
    let positions = match directory_positions(&ifds) {
        Some(positions) => positions,
        None => {
            return Err(Error::invalid_image(path, "Directories span more than 32-bit offsets"));
        },
    };
    let count: usize = ifds.len();
    let base: u32 = positions[count];
    let mut tail: Vec<u8> = Vec::new();
    let mut moved: Vec<Vec<IfdEntry>> = Vec::new();
    let mut i: usize = 0;
    proof {
        let all = placed_ifds_from(byte_order, data@, kept, 0, base as int);
        assert(ifd_models(moved@) =~= Seq::<Seq<EntryModel>>::empty());
        if let Some((more, others)) = all {
            assert(tail@ + more =~= more);
            assert(ifd_models(moved@) + others =~= others);
        }
    }
    while i < count
        invariant
            count == ifds@.len(),
            kept == ifd_models(ifds@),
            i <= count,
            moved@.len() == i,
            base == 8 + region_len(kept, kept.len()),
            len >= 8,
            len == data@.len(),
            order_of(data@) == Some(byte_order),
            u16_at(byte_order, data@, 2) == 42,
            u32_at(byte_order, data@, 4) < len,
            ifds_from(byte_order, data@, u32_at(byte_order, data@, 4), len as nat) == Some(kept),
            positions_fit(kept),
            forall|k: int| 0 <= k < i ==> (#[trigger] moved@[k])@.len() == ifds@[k]@.len(),
            placed_ifds_from(byte_order, data@, kept, 0, base as int) == joined(
                tail@,
                ifd_models(moved@),
                placed_ifds_from(byte_order, data@, kept, i as int, base + tail@.len()),
            ),
        decreases count - i,
    {
        let ghost so_far = tail@;
        let ghost done = ifd_models(moved@);
        proof {
            assert(kept[i as int] == models(ifds@[i as int]@));
        }
        let written = match place_entries(data, &ifds[i], byte_order, base, &mut tail) {
            Some(written) => written,
            None => {
                return Err(Error::invalid_image(path, "Entry cannot be moved"));
            },
        };
        proof {
            let payload = placed_from(
                byte_order,
                data@,
                kept[i as int],
                0,
                base + so_far.len(),
            ).unwrap().0;
            lemma_joined_twice(
                so_far,
                done,
                payload,
                seq![models(written@)],
                placed_ifds_from(
                    byte_order,
                    data@,
                    kept,
                    i + 1,
                    base + so_far.len() + payload.len(),
                ),
            );
        }
        moved.push(written);
        proof {
            assert(ifd_models(moved@) =~= done + seq![models(written@)]);
        }
        i += 1;
    }
    proof {
        assert(tail@ + Seq::<u8>::empty() =~= tail@);
        assert(ifd_models(moved@) + Seq::<Seq<EntryModel>>::empty() =~= ifd_models(moved@));
    }

    let mut output: Vec<u8> = Vec::with_capacity(len);
    if byte_order == ByteOrder::Little {
        output.push(0x49);
        output.push(0x49);
    } else {
        output.push(0x4D);
        output.push(0x4D);
    }
    push_u16(&mut output, byte_order, 42);
    if count > 0 {
        push_u32(&mut output, byte_order, 8);
    } else {
        push_u32(&mut output, byte_order, 0);
    }
    let ghost head = output@;
    let mut i: usize = 0;
    proof {
        assert(output@ =~= head + linked_ifds(byte_order, kept, ifd_models(moved@), 0));
    }
    while i < count
        invariant
            count == ifds@.len(),
            count == moved@.len(),
            kept == ifd_models(ifds@),
            kept.len() == count,
            i <= count,
            positions@.len() == count + 1,
            forall|k: int|
                0 <= k <= count ==> (#[trigger] positions@[k]) == 8 + region_len(kept, k as nat),
            forall|k: int| 0 <= k < count ==> (#[trigger] moved@[k])@.len() == ifds@[k]@.len(),
            forall|k: int| 0 <= k < ifds@.len() ==> (#[trigger] ifds@[k])@.len() <= u16::MAX,
            output@ == head + linked_ifds(byte_order, kept, ifd_models(moved@), i as nat),
        decreases count - i,
    {
        let next: u32 = if i + 1 == count {
            0
        } else {
            positions[i + 1]
        };
        proof {
            assert(ifd_models(moved@)[i as int] == models(moved@[i as int]@));
            assert(moved@[i as int]@.len() == ifds@[i as int]@.len());
        }
        write_ifd(&mut output, &moved[i], byte_order, next);
        proof {
            assert(output@ =~= head + linked_ifds(
                byte_order,
                kept,
                ifd_models(moved@),
                (i + 1) as nat,
            ));
        }
        i += 1;
    }
    fast_copy(&mut output, tail.as_slice());
    proof {
        assert(head =~= order_mark(byte_order) + u16_bytes(byte_order, 42) + u32_bytes(
            byte_order,
            if kept.len() > 0 {
                8u32
            } else {
                0u32
            },
        ));
        assert(output@ =~= rewritten(byte_order, kept, ifd_models(moved@), tail@));
    }
    Ok(output)
}

} // verus!
