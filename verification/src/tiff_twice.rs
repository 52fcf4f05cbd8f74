//! Stripping a stripped TIFF: the rewritten file is rewritten as it is.

use crate::formats::tiff::{
    byte_counts_entry, byte_counts_tag, copied_regions, ifds_from, limit_of, linked_ifds,
    moved_offsets, offsets_tag, order_of, placed_entry, placed_from, placed_ifds_from,
    positions_fit, readable, region_fits, region_len, regions_fit, rewritten, size_of_type,
    stripped, total, u16_at, u32_at, u32_bytes, value_bytes, values_of, with_value, ByteOrder,
    EntryModel,
};
use crate::laws::lemma_tiff_moved_entries;
use crate::tiff_laws::{
    kept_directories,
    lemma_moved_offsets_len, lemma_parsed_sound, lemma_placed_ifds_sound,
    lemma_tiff_output_parses, lemma_u16_round_trip, lemma_u32_round_trip, same_fields, sound,
    sound_list, sound_lists, written_from,
};
use vstd::prelude::*;

verus! {

/// Whether `file` holds `bytes` at position `at`.
pub open spec fn holds(file: Seq<u8>, at: int, bytes: Seq<u8>) -> bool {
    0 <= at && at + bytes.len() <= file.len() && file.subrange(at, at + bytes.len()) == bytes
}

/// A file that holds a concatenation holds its two parts.
pub proof fn lemma_holds_parts(file: Seq<u8>, at: int, a: Seq<u8>, b: Seq<u8>)
    requires
        holds(file, at, a + b),
    ensures
        holds(file, at, a),
        holds(file, at + a.len(), b),
{
    let whole = file.subrange(at, at + (a + b).len());
    assert forall|k: int| 0 <= k < a.len() implies file.subrange(at, at + a.len())[k]
        == #[trigger] a[k] by {
        assert(whole[k] == (a + b)[k]);
    }
    assert(file.subrange(at, at + a.len()) =~= a);
    assert forall|k: int| 0 <= k < b.len() implies file.subrange(
        at + a.len(),
        at + a.len() + b.len(),
    )[k] == #[trigger] b[k] by {
        assert(whole[a.len() + k] == (a + b)[a.len() + k]);
    }
    assert(file.subrange(at + a.len(), at + a.len() + b.len()) =~= b);
}

/// A file holds at `at + k` the byte `k` of what it holds at `at`.
pub proof fn lemma_holds_byte(file: Seq<u8>, at: int, bytes: Seq<u8>, k: int)
    requires
        holds(file, at, bytes),
        0 <= k < bytes.len(),
    ensures
        file[at + k] == bytes[k],
{
    assert(file.subrange(at, at + bytes.len())[k] == file[at + k]);
}

/// The new offset of region `j`.
pub open spec fn new_offset(base: int, counts: Seq<u32>, j: int) -> int {
    base + total(counts, j as nat)
}

/// Lengths add up.
pub proof fn lemma_total_grows(counts: Seq<u32>, i: nat, j: nat)
    requires
        i <= j <= counts.len(),
    ensures
        total(counts, i) <= total(counts, j),
    decreases j,
{
    if i < j {
        lemma_total_grows(counts, i, (j - 1) as nat);
    }
}

/// The copied regions take as many bytes as their lengths say.
pub proof fn lemma_copied_len(data: Seq<u8>, offsets: Seq<u32>, counts: Seq<u32>, upto: nat)
    requires
        upto <= offsets.len(),
        upto <= counts.len(),
        forall|j: int| 0 <= j < upto ==> (#[trigger] offsets[j]) + counts[j] <= data.len(),
    ensures
        copied_regions(data, offsets, counts, upto).len() == total(counts, upto),
    decreases upto,
{
    if upto > 0 {
        lemma_copied_len(data, offsets, counts, (upto - 1) as nat);
        assert(offsets[upto - 1] + counts[upto - 1] <= data.len());
    }
}

/// Regions that a file holds one behind the other from `base` on are
/// copied from there as they are.
pub proof fn lemma_copied_again(
    data: Seq<u8>,
    offsets: Seq<u32>,
    counts: Seq<u32>,
    file: Seq<u8>,
    moved: Seq<u32>,
    base: int,
    upto: nat,
)
    requires
        upto <= offsets.len(),
        upto <= counts.len(),
        upto <= moved.len(),
        forall|j: int| 0 <= j < upto ==> (#[trigger] offsets[j]) + counts[j] <= data.len(),
        forall|j: int| 0 <= j < upto ==> (#[trigger] moved[j]) == new_offset(base, counts, j),
        holds(file, base, copied_regions(data, offsets, counts, upto)),
    ensures
        copied_regions(file, moved, counts, upto) == copied_regions(data, offsets, counts, upto),
        forall|j: int| 0 <= j < upto ==> (#[trigger] moved[j]) + counts[j] <= file.len(),
    decreases upto,
{
    if upto > 0 {
        let last = upto - 1;
        let before = copied_regions(data, offsets, counts, last as nat);
        let region = data.subrange(offsets[last] as int, offsets[last] + counts[last]);
        assert(offsets[last] + counts[last] <= data.len());
        lemma_copied_len(data, offsets, counts, last as nat);
        lemma_holds_parts(file, base, before, region);
        lemma_copied_again(data, offsets, counts, file, moved, base, last as nat);
        assert(moved[last] == new_offset(base, counts, last));
        assert(file.subrange(moved[last] as int, moved[last] + counts[last]) == region);
    }
}

/// The new offsets that a file holds as an array are read from it as
/// they were written.
pub proof fn lemma_offsets_read(
    order: ByteOrder,
    wide: bool,
    base: int,
    counts: Seq<u32>,
    upto: nat,
    file: Seq<u8>,
    at: int,
    i: int,
)
    requires
        0 <= base,
        upto <= counts.len(),
        forall|j: int|
            0 <= j < upto ==> #[trigger] new_offset(base, counts, j) <= limit_of(wide),
        holds(file, at, moved_offsets(order, wide, base, counts, upto)),
        0 <= i < upto,
    ensures
        wide ==> u32_at(order, file, at + 4 * i) == new_offset(base, counts, i),
        !wide ==> u16_at(order, file, at + 2 * i) == new_offset(base, counts, i),
    decreases upto,
{
    let last = upto - 1;
    let before = moved_offsets(order, wide, base, counts, last as nat);
    let value = new_offset(base, counts, last);
    let bytes = value_bytes(order, wide, value);
    lemma_moved_offsets_len(order, wide, base, counts, last as nat);
    lemma_holds_parts(file, at, before, bytes);
    if i < last {
        lemma_offsets_read(order, wide, base, counts, last as nat, file, at, i);
    } else {
        assert(new_offset(base, counts, last) <= limit_of(wide));
        lemma_total_grows(counts, 0, last as nat);
        if wide {
            lemma_holds_byte(file, at + 4 * last, bytes, 0);
            lemma_holds_byte(file, at + 4 * last, bytes, 1);
            lemma_holds_byte(file, at + 4 * last, bytes, 2);
            lemma_holds_byte(file, at + 4 * last, bytes, 3);
            lemma_u32_round_trip(order, value as u32, file, at + 4 * last);
        } else {
            lemma_holds_byte(file, at + 2 * last, bytes, 0);
            lemma_holds_byte(file, at + 2 * last, bytes, 1);
            lemma_u16_round_trip(order, value as u16, file, at + 2 * last);
        }
    }
}

/// The new offsets of `upto` regions.
pub open spec fn new_offsets_list(base: int, counts: Seq<u32>, upto: nat) -> Seq<u32> {
    Seq::new(upto, |j: int| new_offset(base, counts, j) as u32)
}

/// An entry of offsets that was written with its new offsets is read
/// from the rewritten file as those offsets.
pub proof fn lemma_moved_values(
    order: ByteOrder,
    file: Seq<u8>,
    entry: EntryModel,
    at: int,
    base: int,
    counts: Seq<u32>,
    value: Seq<u8>,
)
    requires
        entry.field_type == 3 || entry.field_type == 4,
        entry.value.len() == 4,
        0 <= at <= 0xFFFF_FFFF,
        0 <= base,
        entry.count <= counts.len(),
        forall|j: int|
            0 <= j < entry.count ==> #[trigger] new_offset(base, counts, j) <= limit_of(
                entry.field_type == 4,
            ),
        crate::formats::tiff::inline(entry) ==> value == moved_offsets(
            order,
            entry.field_type == 4,
            base,
            counts,
            entry.count as nat,
        ) + entry.value.subrange(
            moved_offsets(order, entry.field_type == 4, base, counts, entry.count as nat).len() as int,
            4,
        ),
        !crate::formats::tiff::inline(entry) ==> value == u32_bytes(order, at as u32) && holds(
            file,
            at,
            moved_offsets(order, entry.field_type == 4, base, counts, entry.count as nat),
        ),
    ensures
        values_of(order, file, with_value(entry, value)) == new_offsets_list(
            base,
            counts,
            entry.count as nat,
        ),
{
    let wide = entry.field_type == 4;
    let n = entry.count as nat;
    let array = moved_offsets(order, wide, base, counts, n);
    let moved = with_value(entry, value);
    let list = new_offsets_list(base, counts, n);
    let read = values_of(order, file, moved);
    lemma_moved_offsets_len(order, wide, base, counts, n);
    assert(size_of_type(3) == 2 && size_of_type(4) == 4);
    if crate::formats::tiff::inline(entry) {
        assert(array.len() <= 4);
        assert(value.subrange(0, array.len() as int) =~= array);
        assert(holds(value, 0, array));
        assert(read.len() == n);
        assert forall|i: int| 0 <= i < n implies #[trigger] read[i] == list[i] by {
            lemma_offsets_read(order, wide, base, counts, n, value, 0, i);
            lemma_total_grows(counts, 0, i as nat);
            assert(new_offset(base, counts, i) <= limit_of(wide));
        }
        assert(read =~= list);
    } else {
        assert(value[0] == u32_bytes(order, at as u32)[0]);
        lemma_u32_round_trip(order, at as u32, value, 0);
        assert(readable(file.len() as int, at, if wide {
            4
        } else {
            2
        }, n as int) == n);
        assert(read.len() == n);
        assert forall|i: int| 0 <= i < n implies #[trigger] read[i] == list[i] by {
            lemma_offsets_read(order, wide, base, counts, n, file, at, i);
            lemma_total_grows(counts, 0, i as nat);
            assert(new_offset(base, counts, i) <= limit_of(wide));
        }
        assert(read =~= list);
    }
}

/// An entry that names no strips or tiles holds in the rewritten file
/// the numbers that it held in the input.
pub proof fn lemma_plain_values(
    order: ByteOrder,
    data: Seq<u8>,
    file: Seq<u8>,
    entries: Seq<EntryModel>,
    entry: EntryModel,
    at: int,
)
    requires
        !offsets_tag(entry.tag),
        entry.value.len() == 4,
        0 <= at,
        placed_entry(order, data, entries, entry, at).is_some(),
        holds(file, at, placed_entry(order, data, entries, entry, at).unwrap().0),
    ensures
        values_of(
            order,
            file,
            with_value(entry, placed_entry(order, data, entries, entry, at).unwrap().1),
        ) == values_of(order, data, entry),
{
    let placed = placed_entry(order, data, entries, entry, at).unwrap();
    let payload = placed.0;
    let value = placed.1;
    let moved = with_value(entry, value);
    if crate::formats::tiff::inline(entry) {
        assert(moved == entry);
    } else {
        let from = u32_at(order, entry.value, 0);
        assert(value[0] == u32_bytes(order, at as u32)[0]);
        lemma_u32_round_trip(order, at as u32, value, 0);
        let was = values_of(order, data, entry);
        let now = values_of(order, file, moved);
        if entry.field_type == 3 {
            assert(size_of_type(3) == 2);
            assert(was.len() == entry.count);
            assert(now.len() == entry.count);
            assert forall|i: int| 0 <= i < entry.count implies #[trigger] now[i] == was[i] by {
                lemma_holds_byte(file, at, payload, 2 * i);
                lemma_holds_byte(file, at, payload, 2 * i + 1);
                assert(payload[2 * i] == data[from + 2 * i]);
                assert(payload[2 * i + 1] == data[from + 2 * i + 1]);
            }
            assert(now =~= was);
        } else if entry.field_type == 4 {
            assert(size_of_type(4) == 4);
            assert(was.len() == entry.count);
            assert(now.len() == entry.count);
            assert forall|i: int| 0 <= i < entry.count implies #[trigger] now[i] == was[i] by {
                lemma_holds_byte(file, at, payload, 4 * i);
                lemma_holds_byte(file, at, payload, 4 * i + 1);
                lemma_holds_byte(file, at, payload, 4 * i + 2);
                lemma_holds_byte(file, at, payload, 4 * i + 3);
                assert(payload[4 * i] == data[from + 4 * i]);
                assert(payload[4 * i + 1] == data[from + 4 * i + 1]);
                assert(payload[4 * i + 2] == data[from + 4 * i + 2]);
                assert(payload[4 * i + 3] == data[from + 4 * i + 3]);
            }
            assert(now =~= was);
        } else {
            assert(now =~= was);
        }
    }
}

/// The first entry of byte counts stands at the same index before and
/// after the entries are written.
pub proof fn lemma_byte_counts_same(written: Seq<EntryModel>, read: Seq<EntryModel>) -> (at: int)
    requires
        same_fields(written, read),
    ensures
        match byte_counts_entry(read) {
            Some(lengths) => 0 <= at < read.len() && read[at] == lengths && byte_counts_tag(
                lengths.tag,
            ) && byte_counts_entry(written) == Some(written[at]),
            None => byte_counts_entry(written).is_none(),
        },
    decreases read.len(),
{
    if read.len() == 0 {
        0
    } else {
        assert(written[0].tag == read[0].tag);
        if byte_counts_tag(read[0].tag) {
            0
        } else {
            let fewer = written.drop_first();
            let rest = read.drop_first();
            assert forall|j: int| 0 <= j < fewer.len() implies (#[trigger] fewer[j]).tag
                == rest[j].tag && fewer[j].field_type == rest[j].field_type && fewer[j].count
                == rest[j].count && (crate::formats::tiff::inline(rest[j]) && !offsets_tag(
                rest[j].tag,
            ) ==> fewer[j].value == rest[j].value) by {
                assert(fewer[j] == written[j + 1]);
                assert(rest[j] == read[j + 1]);
            }
            let found = lemma_byte_counts_same(fewer, rest);
            if byte_counts_entry(rest).is_some() {
                assert(rest[found] == read[found + 1]);
                assert(fewer[found] == written[found + 1]);
            }
            found + 1
        }
    }
}

/// Where the rewritten file holds what the entries from index `j` on
/// point at, it holds what entry `index` points at, at the position
/// that this lemma gives.
pub proof fn lemma_located(
    order: ByteOrder,
    data: Seq<u8>,
    entries: Seq<EntryModel>,
    j: int,
    at: int,
    file: Seq<u8>,
    index: int,
) -> (position: int)
    requires
        0 <= at,
        0 <= j <= index < entries.len(),
        placed_from(order, data, entries, j, at).is_some(),
        holds(file, at, placed_from(order, data, entries, j, at).unwrap().0),
    ensures
        0 <= position,
        placed_entry(order, data, entries, entries[index], position).is_some(),
        holds(
            file,
            position,
            placed_entry(order, data, entries, entries[index], position).unwrap().0,
        ),
        placed_from(order, data, entries, j, at).unwrap().1[index - j] == with_value(
            entries[index],
            placed_entry(order, data, entries, entries[index], position).unwrap().1,
        ),
    decreases entries.len() - j,
{
    let first = placed_entry(order, data, entries, entries[j], at).unwrap();
    let rest = placed_from(order, data, entries, j + 1, at + first.0.len()).unwrap();
    lemma_holds_parts(file, at, first.0, rest.0);
    if index == j {
        at
    } else {
        let all = seq![with_value(entries[j], first.1)] + rest.1;
        lemma_tiff_moved_entries(order, data, entries, j + 1, at + first.0.len());
        assert(all[index - j] == rest.1[index - j - 1]);
        lemma_located(order, data, entries, j + 1, at + first.0.len(), file, index)
    }
}

/// Whether the byte counts of a directory read the same from the input
/// and, after the directory is written, from the rewritten file.
pub open spec fn counts_kept(
    order: ByteOrder,
    data: Seq<u8>,
    file: Seq<u8>,
    read: Seq<EntryModel>,
    written: Seq<EntryModel>,
) -> bool {
    match byte_counts_entry(read) {
        Some(lengths) => byte_counts_entry(written).is_some() && values_of(
            order,
            file,
            byte_counts_entry(written).unwrap(),
        ) == values_of(order, data, lengths),
        None => byte_counts_entry(written).is_none(),
    }
}

/// The byte counts of a directory read the same from the rewritten file.
pub proof fn lemma_counts_kept(
    order: ByteOrder,
    data: Seq<u8>,
    file: Seq<u8>,
    entries: Seq<EntryModel>,
    at: int,
)
    requires
        sound_list(entries),
        0 <= at,
        placed_from(order, data, entries, 0, at).is_some(),
        holds(file, at, placed_from(order, data, entries, 0, at).unwrap().0),
    ensures
        counts_kept(order, data, file, entries, placed_from(order, data, entries, 0, at).unwrap().1),
        same_fields(placed_from(order, data, entries, 0, at).unwrap().1, entries),
{
    let written = placed_from(order, data, entries, 0, at).unwrap().1;
    lemma_tiff_moved_entries(order, data, entries, 0, at);
    assert(same_fields(written, entries));
    let index = lemma_byte_counts_same(written, entries);
    if byte_counts_entry(entries).is_some() {
        let position = lemma_located(order, data, entries, 0, at, file, index);
        assert(sound(entries[index]));
        lemma_plain_values(order, data, file, entries, entries[index], position);
    }
}

/// An entry is written from the rewritten file as it was written from
/// the input.
#[verifier::rlimit(80)]
pub proof fn lemma_entry_again(
    order: ByteOrder,
    data: Seq<u8>,
    file: Seq<u8>,
    read: Seq<EntryModel>,
    written: Seq<EntryModel>,
    entry: EntryModel,
    at: int,
)
    requires
        entry.value.len() == 4,
        counts_kept(order, data, file, read, written),
        0 <= at,
        placed_entry(order, data, read, entry, at).is_some(),
        holds(file, at, placed_entry(order, data, read, entry, at).unwrap().0),
    ensures
        placed_entry(
            order,
            file,
            written,
            with_value(entry, placed_entry(order, data, read, entry, at).unwrap().1),
            at,
        ) == placed_entry(order, data, read, entry, at),
{
    let placed = placed_entry(order, data, read, entry, at).unwrap();
    let payload = placed.0;
    let value = placed.1;
    let moved = with_value(entry, value);
    if offsets_tag(entry.tag) {
        lemma_offsets_again(order, data, file, read, written, entry, at);
    } else if !crate::formats::tiff::inline(entry) {
        assert(value[0] == u32_bytes(order, at as u32)[0]);
        lemma_u32_round_trip(order, at as u32, value, 0);
    } else {
        assert(moved == entry);
    }
}

/// The offsets case of `lemma_entry_again`.
#[verifier::rlimit(80)]
pub proof fn lemma_offsets_again(
    order: ByteOrder,
    data: Seq<u8>,
    file: Seq<u8>,
    read: Seq<EntryModel>,
    written: Seq<EntryModel>,
    entry: EntryModel,
    at: int,
)
    requires
        offsets_tag(entry.tag),
        entry.value.len() == 4,
        counts_kept(order, data, file, read, written),
        0 <= at,
        placed_entry(order, data, read, entry, at).is_some(),
        holds(file, at, placed_entry(order, data, read, entry, at).unwrap().0),
    ensures
        placed_entry(
            order,
            file,
            written,
            with_value(entry, placed_entry(order, data, read, entry, at).unwrap().1),
            at,
        ) == placed_entry(order, data, read, entry, at),
{
    let placed = placed_entry(order, data, read, entry, at).unwrap();
    let payload = placed.0;
    let value = placed.1;
    let moved = with_value(entry, value);
    let lengths = byte_counts_entry(read).unwrap();
    let offsets = values_of(order, data, entry);
    let counts = values_of(order, data, lengths);
    let n = entry.count as nat;
    let wide = entry.field_type == 4;
    let fits = crate::formats::tiff::inline(entry);
    let base = if fits {
        at
    } else if wide {
        at + 4 * n
    } else {
        at + 2 * n
    };
    let limit = limit_of(wide);
    let array = moved_offsets(order, wide, base, counts, n);
    let regions = copied_regions(data, offsets, counts, n);
    let list = new_offsets_list(base, counts, n);
    lemma_moved_offsets_len(order, wide, base, counts, n);
    assert forall|j: int| 0 <= j < n implies #[trigger] new_offset(base, counts, j) <= limit
        && offsets[j] + counts[j] <= data.len() by {
        assert(region_fits(data.len() as int, offsets, counts, j, base, limit));
    }
    assert forall|j: int| 0 <= j < n implies (#[trigger] offsets[j]) + counts[j]
        <= data.len() by {
        assert(region_fits(data.len() as int, offsets, counts, j, base, limit));
    }
    if !fits {
        lemma_holds_parts(file, at, array, regions);
    }
    assert(holds(file, base, regions));
    lemma_moved_values(order, file, entry, at, base, counts, value);
    assert forall|j: int| 0 <= j < n implies (#[trigger] list[j]) == new_offset(
        base,
        counts,
        j,
    ) by {
        assert(new_offset(base, counts, j) <= limit);
        lemma_total_grows(counts, 0, j as nat);
    }
    lemma_copied_again(data, offsets, counts, file, list, base, n);
    assert(regions_fit(file.len() as int, list, counts, n, base, limit)) by {
        assert forall|j: int| 0 <= j < n implies #[trigger] region_fits(
            file.len() as int,
            list,
            counts,
            j,
            base,
            limit,
        ) by {
            assert(list[j] + counts[j] <= file.len());
            assert(new_offset(base, counts, j) <= limit);
        }
    }
    if fits {
        assert(moved.value.subrange(array.len() as int, 4) =~= entry.value.subrange(
            array.len() as int,
            4,
        ));
    }
}

/// The entries of a directory from index `j` on are written from the
/// rewritten file as they were written from the input.
pub proof fn lemma_dir_again(
    order: ByteOrder,
    data: Seq<u8>,
    file: Seq<u8>,
    read: Seq<EntryModel>,
    written: Seq<EntryModel>,
    j: int,
    at: int,
)
    requires
        sound_list(read),
        counts_kept(order, data, file, read, written),
        written.len() == read.len(),
        0 <= j <= read.len(),
        0 <= at,
        placed_from(order, data, read, j, at).is_some(),
        holds(file, at, placed_from(order, data, read, j, at).unwrap().0),
        written.subrange(j, read.len() as int) == placed_from(order, data, read, j, at).unwrap().1,
    ensures
        placed_from(order, file, written, j, at) == placed_from(order, data, read, j, at),
    decreases read.len() - j,
{
    if j < read.len() {
        let first = placed_entry(order, data, read, read[j], at).unwrap();
        let rest = placed_from(order, data, read, j + 1, at + first.0.len()).unwrap();
        let moved = with_value(read[j], first.1);
        let all = seq![moved] + rest.1;
        let tail = written.subrange(j, read.len() as int);
        lemma_holds_parts(file, at, first.0, rest.0);
        assert(tail[0] == all[0]);
        assert(written[j] == moved);
        assert(written.subrange(j + 1, read.len() as int) =~= rest.1) by {
            lemma_tiff_moved_entries(order, data, read, j + 1, at + first.0.len());
            assert forall|k: int| 0 <= k < rest.1.len() implies written.subrange(
                j + 1,
                read.len() as int,
            )[k] == #[trigger] rest.1[k] by {
                assert(tail[k + 1] == all[k + 1]);
            }
        }
        assert(sound(read[j]));
        lemma_entry_again(order, data, file, read, written, read[j], at);
        lemma_dir_again(order, data, file, read, written, j + 1, at + first.0.len());
        assert(with_value(written[j], first.1) == written[j]);
    }
}

/// The directories from index `i` on are written from the rewritten file
/// as they were written from the input.
pub proof fn lemma_ifds_again(
    order: ByteOrder,
    data: Seq<u8>,
    file: Seq<u8>,
    kept: Seq<Seq<EntryModel>>,
    moved: Seq<Seq<EntryModel>>,
    i: int,
    at: int,
)
    requires
        sound_lists(kept),
        moved.len() == kept.len(),
        0 <= i <= kept.len(),
        0 <= at,
        placed_ifds_from(order, data, kept, i, at).is_some(),
        holds(file, at, placed_ifds_from(order, data, kept, i, at).unwrap().0),
        moved.subrange(i, kept.len() as int) == placed_ifds_from(order, data, kept, i, at).unwrap().1,
    ensures
        placed_ifds_from(order, file, moved, i, at) == placed_ifds_from(order, data, kept, i, at),
    decreases kept.len() - i,
{
    if i < kept.len() {
        let first = placed_from(order, data, kept[i], 0, at).unwrap();
        let rest = placed_ifds_from(order, data, kept, i + 1, at + first.0.len()).unwrap();
        let all = seq![first.1] + rest.1;
        let tail = moved.subrange(i, kept.len() as int);
        lemma_holds_parts(file, at, first.0, rest.0);
        assert(tail[0] == all[0]);
        assert(moved[i] == first.1);
        assert(moved.subrange(i + 1, kept.len() as int) =~= rest.1) by {
            lemma_placed_ifds_sound(order, data, kept, i + 1, at + first.0.len());
            assert forall|k: int| 0 <= k < rest.1.len() implies moved.subrange(
                i + 1,
                kept.len() as int,
            )[k] == #[trigger] rest.1[k] by {
                assert(tail[k + 1] == all[k + 1]);
            }
        }
        assert(sound_list(kept[i]));
        lemma_counts_kept(order, data, file, kept[i], at);
        assert(moved[i].subrange(0, kept[i].len() as int) =~= moved[i]);
        lemma_dir_again(order, data, file, kept[i], moved[i], 0, at);
        lemma_ifds_again(order, data, file, kept, moved, i + 1, at + first.0.len());
    }
}

/// Directories of the same sizes take the same number of bytes.
pub proof fn lemma_region_len_same(
    kept: Seq<Seq<EntryModel>>,
    moved: Seq<Seq<EntryModel>>,
    upto: nat,
)
    requires
        written_from(kept, moved),
        upto <= kept.len(),
    ensures
        region_len(moved, upto) == region_len(kept, upto),
    decreases upto,
{
    if upto > 0 {
        lemma_region_len_same(kept, moved, (upto - 1) as nat);
        assert(sound_list(moved[upto - 1]));
    }
}

/// Directories are linked by their own sizes as by the sizes of those
/// they were written from.
pub proof fn lemma_linked_same(
    order: ByteOrder,
    kept: Seq<Seq<EntryModel>>,
    moved: Seq<Seq<EntryModel>>,
    upto: nat,
)
    requires
        written_from(kept, moved),
        upto <= kept.len(),
    ensures
        linked_ifds(order, moved, moved, upto) == linked_ifds(order, kept, moved, upto),
    decreases upto,
{
    if upto > 0 {
        lemma_linked_same(order, kept, moved, (upto - 1) as nat);
        lemma_region_len_same(kept, moved, upto);
    }
}

/// Stripping a stripped TIFF changes nothing: the codec accepts its own
/// output and writes it again byte for byte.
#[verifier::rlimit(80)]
pub proof fn lemma_tiff_strip_twice(data: Seq<u8>)
    ensures
        stripped(data) matches Some(output) ==> stripped(output) == Some(output),
{
    if let Some(output) = stripped(data) {
        let order = order_of(data).unwrap();
        let first = u32_at(order, data, 4);
        let kept = ifds_from(order, data, first, data.len()).unwrap();
        let n = kept.len();
        let base = 8 + region_len(kept, n);
        let placed = placed_ifds_from(order, data, kept, 0, base).unwrap();
        let tail = placed.0;
        let moved = placed.1;
        lemma_parsed_sound(order, data, first, data.len());
        lemma_placed_ifds_sound(order, data, kept, 0, base);
        assert(written_from(kept, moved));
        lemma_tiff_output_parses(data);
        crate::tiff_laws::lemma_file_ends(order, kept, moved, tail);
        crate::tiff_laws::lemma_header_read(order, crate::tiff_laws::start_of(n), output);
        crate::tiff_laws::lemma_region_len_grows(kept, 0, n);
        assert(u32_at(order, output, 4) < output.len());
        assert(holds(output, base, tail));
        assert(moved.subrange(0, n as int) =~= moved);
        lemma_ifds_again(order, data, output, kept, moved, 0, base);
        assert forall|k: int| 0 <= k <= moved.len() implies 8 + #[trigger] region_len(
            moved,
            k as nat,
        ) <= 0xFFFF_FFFF by {
            lemma_region_len_same(kept, moved, k as nat);
            assert(8 + region_len(kept, k as nat) <= 0xFFFF_FFFF);
        }
        lemma_region_len_same(kept, moved, n);
        lemma_linked_same(order, kept, moved, n);
    }
}

} // verus!
