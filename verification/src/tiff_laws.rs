//! The shape of a rewritten TIFF: it parses as the directories that were
//! written, in their order.

use crate::formats::tiff::{
    encoded_entries, encoded_entry, encoded_ifd, entry_at, ifd_at, ifds_from, kept,
    linked_ifds, metadata_tag, moved_offsets, offsets_tag, order_mark, order_of, placed_entry,
    placed_from, placed_ifds_from, positions_fit, region_len, rewritten, stripped, u16_at,
    u16_bytes, u32_at, u32_bytes, value_bytes, with_value, ByteOrder, EntryModel,
};
use crate::laws::lemma_tiff_moved_entries;
use vstd::prelude::*;

verus! {

/// An entry as parsing gives it and stripping keeps it: a value field of
/// four bytes and no metadata tag.
pub open spec fn sound(entry: EntryModel) -> bool {
    entry.value.len() == 4 && !metadata_tag(entry.tag)
}

/// A directory of sound entries whose number fits its count field.
pub open spec fn sound_list(entries: Seq<EntryModel>) -> bool {
    entries.len() <= 0xFFFF && forall|j: int| 0 <= j < entries.len() ==> sound(#[trigger] entries[j])
}

/// A list of sound directories.
pub open spec fn sound_lists(ifds: Seq<Seq<EntryModel>>) -> bool {
    forall|i: int| 0 <= i < ifds.len() ==> sound_list(#[trigger] ifds[i])
}

/// The directories that stripping writes, with the value fields it gives
/// them; `None` where the input is rejected.
pub open spec fn moved_directories(data: Seq<u8>) -> Option<Seq<Seq<EntryModel>>> {
    match order_of(data) {
        None => None,
        Some(order) => match ifds_from(order, data, u32_at(order, data, 4), data.len()) {
            None => None,
            Some(kept) => match placed_ifds_from(
                order,
                data,
                kept,
                0,
                8 + region_len(kept, kept.len()),
            ) {
                None => None,
                Some((tail, moved)) => Some(moved),
            },
        },
    }
}

/// The directories that a file holds, each without its metadata entries,
/// as stripping reads them.
pub open spec fn kept_directories(data: Seq<u8>) -> Option<Seq<Seq<EntryModel>>> {
    match order_of(data) {
        None => None,
        Some(order) => ifds_from(order, data, u32_at(order, data, 4), data.len()),
    }
}

/// The kept entries of entries with four-byte value fields are sound.
pub proof fn lemma_kept_sound(entries: Seq<EntryModel>)
    requires
        entries.len() <= 0xFFFF,
        forall|j: int| 0 <= j < entries.len() ==> (#[trigger] entries[j]).value.len() == 4,
    ensures
        sound_list(kept(entries)),
        kept(entries).len() <= entries.len(),
    decreases entries.len(),
{
    if entries.len() > 0 {
        let shorter = entries.drop_last();
        assert forall|j: int| 0 <= j < shorter.len() implies (#[trigger] shorter[j]).value.len()
            == 4 by {
            assert(shorter[j] == entries[j]);
        }
        lemma_kept_sound(shorter);
        assert(entries[entries.len() - 1].value.len() == 4);
        if !metadata_tag(entries.last().tag) {
            let all = kept(shorter).push(entries.last());
            assert forall|j: int| 0 <= j < all.len() implies sound(#[trigger] all[j]) by {
                if j < kept(shorter).len() {
                    assert(all[j] == kept(shorter)[j]);
                }
            }
        }
    }
}

/// Sound entries are all kept.
pub proof fn lemma_kept_fixed(entries: Seq<EntryModel>)
    requires
        sound_list(entries),
    ensures
        kept(entries) == entries,
    decreases entries.len(),
{
    if entries.len() > 0 {
        let shorter = entries.drop_last();
        assert forall|j: int| 0 <= j < shorter.len() implies sound(#[trigger] shorter[j]) by {
            assert(shorter[j] == entries[j]);
        }
        lemma_kept_fixed(shorter);
        assert(sound(entries[entries.len() - 1]));
        assert(shorter.push(entries.last()) =~= entries);
    } else {
        assert(kept(entries) =~= entries);
    }
}

/// The directories that stripping reads are sound.
pub proof fn lemma_parsed_sound(order: ByteOrder, data: Seq<u8>, offset: int, budget: nat)
    ensures
        ifds_from(order, data, offset, budget) matches Some(ifds) ==> sound_lists(ifds),
    decreases budget,
{
    if 0 < offset < data.len() && budget > 0 {
        if let Some((entries, next)) = ifd_at(order, data, offset) {
            lemma_parsed_sound(order, data, next, (budget - 1) as nat);
            assert forall|j: int| 0 <= j < entries.len() implies (#[trigger] entries[j]).value.len()
                == 4 by {
                assert(entries[j] == entry_at(order, data, offset + 2 + 12 * j));
            }
            lemma_kept_sound(entries);
            if let Some(rest) = ifds_from(order, data, next, (budget - 1) as nat) {
                let ifds = seq![kept(entries)] + rest;
                assert forall|i: int| 0 <= i < ifds.len() implies sound_list(
                    #[trigger] ifds[i],
                ) by {
                    if i > 0 {
                        assert(ifds[i] == rest[i - 1]);
                    }
                }
            }
        }
    }
}

/// The new offsets of `upto` regions take two or four bytes each.
pub proof fn lemma_moved_offsets_len(
    order: ByteOrder,
    wide: bool,
    base: int,
    counts: Seq<u32>,
    upto: nat,
)
    ensures
        moved_offsets(order, wide, base, counts, upto).len() == (if wide {
            4 * upto
        } else {
            2 * upto
        }),
    decreases upto,
{
    if upto > 0 {
        lemma_moved_offsets_len(order, wide, base, counts, (upto - 1) as nat);
        assert(value_bytes(order, wide, base + crate::formats::tiff::total(
            counts,
            (upto - 1) as nat,
        )).len() == (if wide {
            4int
        } else {
            2int
        }));
    }
}

/// An entry is written with a value field of four bytes.
pub proof fn lemma_placed_entry_value(
    order: ByteOrder,
    data: Seq<u8>,
    entries: Seq<EntryModel>,
    entry: EntryModel,
    at: int,
)
    requires
        entry.value.len() == 4,
    ensures
        placed_entry(order, data, entries, entry, at) matches Some((payload, value))
            ==> value.len() == 4,
{
    if offsets_tag(entry.tag) && crate::formats::tiff::inline(entry) {
        let wide = entry.field_type == 4;
        lemma_moved_offsets_len(
            order,
            wide,
            at,
            crate::formats::tiff::values_of(
                order,
                data,
                crate::formats::tiff::byte_counts_entry(entries).unwrap(),
            ),
            entry.count as nat,
        );
    }
}

/// The entries of a sound directory are written as sound entries, one
/// for one.
pub proof fn lemma_placed_sound(
    order: ByteOrder,
    data: Seq<u8>,
    entries: Seq<EntryModel>,
    j: int,
    at: int,
)
    requires
        sound_list(entries),
        0 <= j <= entries.len(),
    ensures
        placed_from(order, data, entries, j, at) matches Some((payload, moved)) ==> moved.len()
            == entries.len() - j && forall|k: int|
            0 <= k < moved.len() ==> sound(#[trigger] moved[k]),
    decreases entries.len() - j,
{
    if j < entries.len() {
        assert(sound(entries[j]));
        lemma_placed_entry_value(order, data, entries, entries[j], at);
        if let Some((payload, value)) = placed_entry(order, data, entries, entries[j], at) {
            lemma_placed_sound(order, data, entries, j + 1, at + payload.len());
            if let Some((more, rest)) = placed_from(
                order,
                data,
                entries,
                j + 1,
                at + payload.len(),
            ) {
                let moved = seq![with_value(entries[j], value)] + rest;
                assert forall|k: int| 0 <= k < moved.len() implies sound(#[trigger] moved[k]) by {
                    if k > 0 {
                        assert(moved[k] == rest[k - 1]);
                    }
                }
            }
        }
    }
}

/// Whether the entries `written` are the entries `read` in their order,
/// each with its tag, type and count, and with its value field where it
/// holds its values itself and names no strips or tiles.
pub open spec fn same_fields(written: Seq<EntryModel>, read: Seq<EntryModel>) -> bool {
    written.len() == read.len() && forall|j: int|
        0 <= j < written.len() ==> (#[trigger] written[j]).tag == read[j].tag
            && written[j].field_type == read[j].field_type && written[j].count == read[j].count
            && (crate::formats::tiff::inline(read[j]) && !offsets_tag(read[j].tag)
            ==> written[j].value == read[j].value)
}

/// Every directory is written with the fields of its kept entries.
pub proof fn lemma_placed_ifds_fields(
    order: ByteOrder,
    data: Seq<u8>,
    ifds: Seq<Seq<EntryModel>>,
    i: int,
    at: int,
)
    requires
        0 <= i <= ifds.len(),
    ensures
        placed_ifds_from(order, data, ifds, i, at) matches Some((payload, moved)) ==> moved.len()
            == ifds.len() - i && forall|k: int|
            0 <= k < moved.len() ==> same_fields(#[trigger] moved[k], ifds[i + k]),
    decreases ifds.len() - i,
{
    if i < ifds.len() {
        lemma_tiff_moved_entries(order, data, ifds[i], 0, at);
        if let Some((payload, first)) = placed_from(order, data, ifds[i], 0, at) {
            lemma_placed_ifds_fields(order, data, ifds, i + 1, at + payload.len());
            if let Some((more, rest)) = placed_ifds_from(
                order,
                data,
                ifds,
                i + 1,
                at + payload.len(),
            ) {
                let moved = seq![first] + rest;
                assert(same_fields(first, ifds[i]));
                assert forall|k: int| 0 <= k < moved.len() implies same_fields(
                    #[trigger] moved[k],
                    ifds[i + k],
                ) by {
                    if k > 0 {
                        assert(moved[k] == rest[k - 1]);
                    }
                }
            }
        }
    }
}

/// Sound directories are written as sound directories of the same sizes.
pub proof fn lemma_placed_ifds_sound(
    order: ByteOrder,
    data: Seq<u8>,
    ifds: Seq<Seq<EntryModel>>,
    i: int,
    at: int,
)
    requires
        sound_lists(ifds),
        0 <= i <= ifds.len(),
    ensures
        placed_ifds_from(order, data, ifds, i, at) matches Some((payload, moved)) ==> moved.len()
            == ifds.len() - i && forall|k: int|
            0 <= k < moved.len() ==> sound_list(#[trigger] moved[k]) && moved[k].len() == ifds[i
                + k].len(),
    decreases ifds.len() - i,
{
    if i < ifds.len() {
        assert(sound_list(ifds[i]));
        lemma_placed_sound(order, data, ifds[i], 0, at);
        if let Some((payload, first)) = placed_from(order, data, ifds[i], 0, at) {
            lemma_placed_ifds_sound(order, data, ifds, i + 1, at + payload.len());
            if let Some((more, rest)) = placed_ifds_from(
                order,
                data,
                ifds,
                i + 1,
                at + payload.len(),
            ) {
                let moved = seq![first] + rest;
                assert forall|k: int| 0 <= k < moved.len() implies sound_list(
                    #[trigger] moved[k],
                ) && moved[k].len() == ifds[i + k].len() by {
                    if k > 0 {
                        assert(moved[k] == rest[k - 1]);
                    }
                }
            }
        }
    }
}

/// The two bytes of a number, standing in `file` at `at`, are read there
/// as that number.
pub proof fn lemma_u16_round_trip(order: ByteOrder, value: u16, file: Seq<u8>, at: int)
    requires
        0 <= at,
        at + 2 <= file.len(),
        file[at] == u16_bytes(order, value)[0],
        file[at + 1] == u16_bytes(order, value)[1],
    ensures
        u16_at(order, file, at) == value,
{
}

/// The four bytes of a number, standing in `file` at `at`, are read
/// there as that number.
pub proof fn lemma_u32_round_trip(order: ByteOrder, value: u32, file: Seq<u8>, at: int)
    requires
        0 <= at,
        at + 4 <= file.len(),
        file[at] == u32_bytes(order, value)[0],
        file[at + 1] == u32_bytes(order, value)[1],
        file[at + 2] == u32_bytes(order, value)[2],
        file[at + 3] == u32_bytes(order, value)[3],
    ensures
        u32_at(order, file, at) == value,
{
}

/// An entry whose bytes stand in `file` at `at` is read there as itself.
pub proof fn lemma_entry_round_trip(order: ByteOrder, entry: EntryModel, file: Seq<u8>, at: int)
    requires
        entry.value.len() == 4,
        0 <= at,
        at + 12 <= file.len(),
        file.subrange(at, at + 12) == encoded_entry(order, entry),
    ensures
        entry_at(order, file, at) == entry,
{
    let bytes = encoded_entry(order, entry);
    let window = file.subrange(at, at + 12);
    let tag = u16_bytes(order, entry.tag);
    let kind = u16_bytes(order, entry.field_type);
    let count = u32_bytes(order, entry.count);
    assert(tag.len() == 2 && kind.len() == 2 && count.len() == 4);
    assert(bytes =~= tag + kind + count + entry.value);
    assert(window[0] == file[at + 0] && window[1] == file[at + 1] && window[2] == file[at + 2]
        && window[3] == file[at + 3] && window[4] == file[at + 4] && window[5] == file[at + 5]
        && window[6] == file[at + 6] && window[7] == file[at + 7]);
    assert(bytes[0] == tag[0] && bytes[1] == tag[1]);
    assert(bytes[2] == kind[0] && bytes[3] == kind[1]);
    assert(bytes[4] == count[0] && bytes[5] == count[1] && bytes[6] == count[2] && bytes[7]
        == count[3]);
    lemma_u16_round_trip(order, entry.tag, file, at);
    lemma_u16_round_trip(order, entry.field_type, file, at + 2);
    lemma_u32_round_trip(order, entry.count, file, at + 4);
    assert forall|i: int| 0 <= i < 4 implies file.subrange(at + 8, at + 12)[i]
        == entry.value[i] by {
        assert(window[8 + i] == file[at + 8 + i]);
        assert(bytes[8 + i] == entry.value[i]);
    }
    assert(file.subrange(at + 8, at + 12) =~= entry.value);
}

/// The bytes of a list of entries are twelve for each, and those of
/// entry `j` stand at twelve times `j`.
pub proof fn lemma_entries_parts(order: ByteOrder, entries: Seq<EntryModel>, j: int)
    requires
        forall|k: int| 0 <= k < entries.len() ==> (#[trigger] entries[k]).value.len() == 4,
    ensures
        encoded_entries(order, entries).len() == 12 * entries.len(),
        0 <= j < entries.len() ==> encoded_entries(order, entries).subrange(12 * j, 12 * j + 12)
            == encoded_entry(order, entries[j]),
    decreases entries.len(),
{
    if entries.len() > 0 {
        let shorter = entries.drop_last();
        assert forall|k: int| 0 <= k < shorter.len() implies (#[trigger] shorter[k]).value.len()
            == 4 by {
            assert(shorter[k] == entries[k]);
        }
        lemma_entries_parts(order, shorter, j);
        let last = encoded_entry(order, entries.last());
        assert(entries[entries.len() - 1].value.len() == 4);
        assert(last.len() == 12);
        if 0 <= j < entries.len() {
            let all = encoded_entries(order, shorter) + last;
            if j < shorter.len() {
                assert(shorter[j] == entries[j]);
                assert(all.subrange(12 * j, 12 * j + 12) =~= encoded_entries(
                    order,
                    shorter,
                ).subrange(12 * j, 12 * j + 12));
            } else {
                assert(all.subrange(12 * j, 12 * j + 12) =~= last);
            }
        }
    }
}

/// A directory whose bytes stand in `file` at `at` is read there as
/// itself, with the offset of the next directory that it was written
/// with.
pub proof fn lemma_ifd_round_trip(
    order: ByteOrder,
    entries: Seq<EntryModel>,
    next: u32,
    file: Seq<u8>,
    at: int,
)
    requires
        sound_list(entries),
        0 <= at,
        at + 6 + 12 * entries.len() <= file.len(),
        file.subrange(at, at + 6 + 12 * entries.len()) == encoded_ifd(order, entries, next),
    ensures
        ifd_at(order, file, at) == Some((entries, next as int)),
{
    let n = entries.len() as int;
    let bytes = encoded_ifd(order, entries, next);
    let window = file.subrange(at, at + 6 + 12 * n);
    let count = u16_bytes(order, n as u16);
    let body = encoded_entries(order, entries);
    let link = u32_bytes(order, next);
    assert forall|k: int| 0 <= k < entries.len() implies (#[trigger] entries[k]).value.len()
        == 4 by {
        assert(sound(entries[k]));
    }
    lemma_entries_parts(order, entries, 0);
    assert(count.len() == 2 && link.len() == 4 && body.len() == 12 * n);
    assert(bytes =~= count + body + link);
    assert(window[0] == file[at + 0] && window[1] == file[at + 1]);
    assert(bytes[0] == count[0] && bytes[1] == count[1]);
    lemma_u16_round_trip(order, n as u16, file, at);
    let tail = at + 2 + 12 * n;
    assert(window[2 + 12 * n + 0] == file[tail + 0] && window[2 + 12 * n + 1] == file[tail + 1]
        && window[2 + 12 * n + 2] == file[tail + 2] && window[2 + 12 * n + 3] == file[tail + 3]);
    assert(bytes[2 + 12 * n + 0] == link[0] && bytes[2 + 12 * n + 1] == link[1] && bytes[2 + 12
        * n + 2] == link[2] && bytes[2 + 12 * n + 3] == link[3]);
    lemma_u32_round_trip(order, next, file, tail);
    let read = Seq::new(n as nat, |i: int| entry_at(order, file, at + 2 + 12 * i));
    assert forall|j: int| 0 <= j < n implies #[trigger] read[j] == entries[j] by {
        lemma_entries_parts(order, entries, j);
        let part = file.subrange(at + 2 + 12 * j, at + 2 + 12 * j + 12);
        assert forall|i: int| 0 <= i < 12 implies #[trigger] part[i] == encoded_entry(
            order,
            entries[j],
        )[i] by {
            assert(window[2 + 12 * j + i] == file[at + 2 + 12 * j + i]);
            assert(bytes[2 + 12 * j + i] == body[12 * j + i]);
            assert(body.subrange(12 * j, 12 * j + 12)[i] == body[12 * j + i]);
        }
        assert(encoded_entry(order, entries[j]).len() == 12);
        assert(part =~= encoded_entry(order, entries[j]));
        lemma_entry_round_trip(order, entries[j], file, at + 2 + 12 * j);
    }
    assert(read =~= entries);
}

/// Directories take at least six bytes each.
pub proof fn lemma_region_len_grows(ifds: Seq<Seq<EntryModel>>, i: nat, j: nat)
    requires
        i <= j <= ifds.len(),
    ensures
        region_len(ifds, i) + 6 * (j - i) <= region_len(ifds, j),
    decreases j,
{
    if i < j {
        lemma_region_len_grows(ifds, i, (j - 1) as nat);
    }
}

/// The offset that directory `i` is written with: the position of the
/// next directory, or zero for the last.
pub open spec fn next_of(kept: Seq<Seq<EntryModel>>, i: int) -> u32 {
    if i + 1 == kept.len() {
        0u32
    } else {
        (8 + region_len(kept, (i + 1) as nat)) as u32
    }
}

/// Whether directories were written from kept ones: one for one, of the
/// same sizes, and sound.
pub open spec fn written_from(kept: Seq<Seq<EntryModel>>, moved: Seq<Seq<EntryModel>>) -> bool {
    moved.len() == kept.len() && forall|k: int|
        0 <= k < moved.len() ==> sound_list(#[trigger] moved[k]) && moved[k].len()
            == kept[k].len()
}

/// The parts of a concatenation.
pub proof fn lemma_parts_of_concat(a: Seq<u8>, b: Seq<u8>, from: int, to: int)
    requires
        0 <= from <= to <= a.len() + b.len(),
    ensures
        from == a.len() && to == a.len() + b.len() ==> (a + b).subrange(from, to) == b,
        to <= a.len() ==> (a + b).subrange(from, to) == a.subrange(from, to),
{
    if from == a.len() && to == a.len() + b.len() {
        assert((a + b).subrange(from, to) =~= b);
    }
    if to <= a.len() {
        assert((a + b).subrange(from, to) =~= a.subrange(from, to));
    }
}

/// A sound directory takes six bytes and twelve for each entry.
pub proof fn lemma_ifd_len(order: ByteOrder, entries: Seq<EntryModel>, next: u32)
    requires
        sound_list(entries),
    ensures
        encoded_ifd(order, entries, next).len() == 6 + 12 * entries.len(),
{
    assert forall|k: int| 0 <= k < entries.len() implies (#[trigger] entries[k]).value.len()
        == 4 by {
        assert(sound(entries[k]));
    }
    lemma_entries_parts(order, entries, 0);
}

/// The directories that are written take as many bytes as their sizes
/// say.
pub proof fn lemma_linked_len(
    order: ByteOrder,
    kept: Seq<Seq<EntryModel>>,
    moved: Seq<Seq<EntryModel>>,
    upto: nat,
)
    requires
        written_from(kept, moved),
        upto <= kept.len(),
    ensures
        linked_ifds(order, kept, moved, upto).len() == region_len(kept, upto),
    decreases upto,
{
    if upto > 0 {
        let last = upto - 1;
        lemma_linked_len(order, kept, moved, last as nat);
        assert(sound_list(moved[last]));
        assert(moved[last].len() == kept[last].len());
        lemma_ifd_len(order, moved[last], next_of(kept, last));
    }
}

/// Directory `i` stands among the directories that are written where
/// the sizes of those before it put it.
pub proof fn lemma_linked_parts(
    order: ByteOrder,
    kept: Seq<Seq<EntryModel>>,
    moved: Seq<Seq<EntryModel>>,
    upto: nat,
    i: int,
)
    requires
        written_from(kept, moved),
        upto <= kept.len(),
    ensures
        linked_ifds(order, kept, moved, upto).len() == region_len(kept, upto),
        0 <= i < upto ==> linked_ifds(order, kept, moved, upto).subrange(
            region_len(kept, i as nat),
            region_len(kept, (i + 1) as nat),
        ) == encoded_ifd(order, moved[i], next_of(kept, i)),
    decreases upto,
{
    lemma_linked_len(order, kept, moved, upto);
    if upto > 0 && 0 <= i < upto {
        let last = upto - 1;
        lemma_linked_len(order, kept, moved, last as nat);
        let before = linked_ifds(order, kept, moved, last as nat);
        let piece = encoded_ifd(order, moved[last], next_of(kept, last));
        assert(sound_list(moved[last]));
        assert(moved[last].len() == kept[last].len());
        lemma_ifd_len(order, moved[last], next_of(kept, last));
        lemma_region_len_grows(kept, 0, i as nat);
        if i == last {
            lemma_parts_of_concat(
                before,
                piece,
                region_len(kept, i as nat),
                region_len(kept, (i + 1) as nat),
            );
        } else {
            lemma_linked_parts(order, kept, moved, last as nat, i);
            lemma_region_len_grows(kept, (i + 1) as nat, last as nat);
            lemma_parts_of_concat(
                before,
                piece,
                region_len(kept, i as nat),
                region_len(kept, (i + 1) as nat),
            );
        }
    }
}

/// The middle part of a concatenation of three.
pub proof fn lemma_middle_part(head: Seq<u8>, middle: Seq<u8>, tail: Seq<u8>, from: int, to: int)
    requires
        0 <= from <= to <= middle.len(),
    ensures
        (head + middle + tail).len() == head.len() + middle.len() + tail.len(),
        (head + middle + tail).subrange(head.len() + from, head.len() + to) == middle.subrange(
            from,
            to,
        ),
{
    assert((head + middle + tail).subrange(head.len() + from, head.len() + to)
        =~= middle.subrange(from, to));
}

/// The header of a rewritten file takes eight bytes.
pub proof fn lemma_header_len(order: ByteOrder, start: u32)
    ensures
        (order_mark(order) + u16_bytes(order, 42) + u32_bytes(order, start)).len() == 8,
{
}

/// In the rewritten file the directories stand behind the eight bytes of
/// the header.
pub proof fn lemma_file_part(
    order: ByteOrder,
    kept: Seq<Seq<EntryModel>>,
    moved: Seq<Seq<EntryModel>>,
    tail: Seq<u8>,
    from: int,
    to: int,
)
    requires
        0 <= from <= to <= linked_ifds(order, kept, moved, kept.len()).len(),
    ensures
        rewritten(order, kept, moved, tail).len() == 8 + linked_ifds(
            order,
            kept,
            moved,
            kept.len(),
        ).len() + tail.len(),
        rewritten(order, kept, moved, tail).subrange(8 + from, 8 + to) == linked_ifds(
            order,
            kept,
            moved,
            kept.len(),
        ).subrange(from, to),
{
    let start = if kept.len() > 0 {
        8u32
    } else {
        0u32
    };
    let head = order_mark(order) + u16_bytes(order, 42) + u32_bytes(order, start);
    lemma_header_len(order, start);
    lemma_middle_part(head, linked_ifds(order, kept, moved, kept.len()), tail, from, to);
}

/// The rewritten file is read, from directory `i` on, as the directories
/// that were written.
#[verifier::rlimit(60)]
pub proof fn lemma_chain_round_trip(
    order: ByteOrder,
    kept: Seq<Seq<EntryModel>>,
    moved: Seq<Seq<EntryModel>>,
    tail: Seq<u8>,
    i: int,
    budget: nat,
)
    requires
        written_from(kept, moved),
        positions_fit(kept),
        0 <= i <= kept.len(),
        budget >= kept.len() - i,
    ensures
        ifds_from(
            order,
            rewritten(order, kept, moved, tail),
            if i == kept.len() {
                0
            } else {
                8 + region_len(kept, i as nat)
            },
            budget,
        ) == Some(moved.subrange(i, kept.len() as int)),
    decreases kept.len() - i,
{
    let n = kept.len() as int;
    let file = rewritten(order, kept, moved, tail);
    if i == n {
        assert(moved.subrange(i, n) =~= Seq::<Seq<EntryModel>>::empty());
    } else {
        lemma_linked_parts(order, kept, moved, kept.len(), i);
        lemma_region_len_grows(kept, (i + 1) as nat, kept.len());
        lemma_region_len_grows(kept, 0, i as nat);
        let at = 8 + region_len(kept, i as nat);
        let size = 6 + 12 * kept[i].len();
        assert(region_len(kept, (i + 1) as nat) == region_len(kept, i as nat) + size);
        assert(sound_list(moved[i]));
        assert(moved[i].len() == kept[i].len());
        lemma_file_part(
            order,
            kept,
            moved,
            tail,
            region_len(kept, i as nat),
            region_len(kept, (i + 1) as nat),
        );
        lemma_ifd_round_trip(order, moved[i], next_of(kept, i), file, at);
        lemma_kept_fixed(moved[i]);
        lemma_chain_round_trip(order, kept, moved, tail, i + 1, (budget - 1) as nat);
        assert(8 + region_len(kept, (i + 1) as nat) <= 0xFFFF_FFFF);
        assert(seq![moved[i]] + moved.subrange(i + 1, n) =~= moved.subrange(i, n));
    }
}

/// The offset of the first directory that a file of `count`
/// directories is written with.
pub open spec fn start_of(count: nat) -> u32 {
    if count > 0 {
        8u32
    } else {
        0u32
    }
}

/// A file that starts with the eight bytes of a header is read as of
/// that byte order, with the number 42 and that first offset.
pub proof fn lemma_header_read(order: ByteOrder, start: u32, file: Seq<u8>)
    requires
        file.len() >= 8,
        file.subrange(0, 8) == order_mark(order) + u16_bytes(order, 42) + u32_bytes(order, start),
    ensures
        order_of(file) == Some(order),
        u16_at(order, file, 2) == 42,
        u32_at(order, file, 4) == start,
{
    let head = order_mark(order) + u16_bytes(order, 42) + u32_bytes(order, start);
    let window = file.subrange(0, 8);
    let mark = order_mark(order);
    let magic = u16_bytes(order, 42);
    let pointer = u32_bytes(order, start);
    assert(mark.len() == 2 && magic.len() == 2 && pointer.len() == 4);
    assert(window[0] == file[0] && window[1] == file[1] && window[2] == file[2] && window[3]
        == file[3] && window[4] == file[4] && window[5] == file[5] && window[6] == file[6]
        && window[7] == file[7]);
    assert(head[0] == mark[0] && head[1] == mark[1] && head[2] == magic[0] && head[3] == magic[1]
        && head[4] == pointer[0] && head[5] == pointer[1] && head[6] == pointer[2] && head[7]
        == pointer[3]);
    lemma_u16_round_trip(order, 42, file, 2);
    lemma_u32_round_trip(order, start, file, 4);
}

/// The first part of a concatenation of three.
pub proof fn lemma_first_part(head: Seq<u8>, middle: Seq<u8>, tail: Seq<u8>)
    ensures
        (head + middle + tail).subrange(0, head.len() as int) == head,
        (head + middle + tail).subrange(
            (head.len() + middle.len()) as int,
            (head.len() + middle.len() + tail.len()) as int,
        ) == tail,
{
    assert((head + middle + tail).subrange(0, head.len() as int) =~= head);
    assert((head + middle + tail).subrange(
        (head.len() + middle.len()) as int,
        (head.len() + middle.len() + tail.len()) as int,
    ) =~= tail);
}

/// The rewritten file starts with its header and ends with what the
/// entries point at.
pub proof fn lemma_file_ends(
    order: ByteOrder,
    kept: Seq<Seq<EntryModel>>,
    moved: Seq<Seq<EntryModel>>,
    tail: Seq<u8>,
)
    requires
        written_from(kept, moved),
    ensures
        rewritten(order, kept, moved, tail).len() == 8 + region_len(kept, kept.len()) + tail.len(),
        rewritten(order, kept, moved, tail).subrange(0, 8) == order_mark(order) + u16_bytes(
            order,
            42,
        ) + u32_bytes(order, start_of(kept.len())),
        rewritten(order, kept, moved, tail).subrange(
            8 + region_len(kept, kept.len()),
            8 + region_len(kept, kept.len()) + tail.len(),
        ) == tail,
{
    let head = order_mark(order) + u16_bytes(order, 42) + u32_bytes(order, start_of(kept.len()));
    let linked = linked_ifds(order, kept, moved, kept.len());
    lemma_header_len(order, start_of(kept.len()));
    lemma_linked_len(order, kept, moved, kept.len());
    lemma_first_part(head, linked, tail);
}

/// A rewritten TIFF keeps its byte order and the number 42, and is read
/// as the directories that were written, in their order, each linked to
/// the next: every directory of the input is there with its kept
/// entries, and nothing else.
pub proof fn lemma_tiff_output_parses(data: Seq<u8>)
    ensures
        stripped(data) matches Some(output) ==> order_of(output) == order_of(data)
            && order_of(data).is_some() && u16_at(order_of(data).unwrap(), output, 2) == 42
            && kept_directories(output) == moved_directories(data),
{
    if let Some(output) = stripped(data) {
        let order = order_of(data).unwrap();
        let first = u32_at(order, data, 4);
        let kept = ifds_from(order, data, first, data.len()).unwrap();
        lemma_parsed_sound(order, data, first, data.len());
        let base = 8 + region_len(kept, kept.len());
        lemma_placed_ifds_sound(order, data, kept, 0, base);
        let placed = placed_ifds_from(order, data, kept, 0, base).unwrap();
        let tail = placed.0;
        let moved = placed.1;
        assert(written_from(kept, moved));
        lemma_file_ends(order, kept, moved, tail);
        lemma_header_read(order, start_of(kept.len()), output);
        lemma_region_len_grows(kept, 0, kept.len());
        lemma_chain_round_trip(order, kept, moved, tail, 0, output.len());
        assert(moved.subrange(0, kept.len() as int) =~= moved);
    }
}

/// The directories of a rewritten TIFF are those of the input, in their
/// order: each holds the entries of its directory that are no metadata,
/// in their order, with tag, type and count as they were, and with the
/// value field as it was where the entry holds its values itself and
/// names no strips or tiles. No entry of the output has a metadata tag.
pub proof fn lemma_tiff_output_entries(data: Seq<u8>)
    ensures
        stripped(data) matches Some(output) ==> kept_directories(data).is_some()
            && kept_directories(output).is_some() && kept_directories(output).unwrap().len()
            == kept_directories(data).unwrap().len() && forall|i: int|
            0 <= i < kept_directories(output).unwrap().len() ==> same_fields(
                #[trigger] kept_directories(output).unwrap()[i],
                kept_directories(data).unwrap()[i],
            ) && sound_list(kept_directories(output).unwrap()[i]),
{
    if let Some(output) = stripped(data) {
        let order = order_of(data).unwrap();
        let first = u32_at(order, data, 4);
        let kept = ifds_from(order, data, first, data.len()).unwrap();
        let base = 8 + region_len(kept, kept.len());
        lemma_tiff_output_parses(data);
        lemma_parsed_sound(order, data, first, data.len());
        lemma_placed_ifds_sound(order, data, kept, 0, base);
        lemma_placed_ifds_fields(order, data, kept, 0, base);
    }
}

} // verus!
