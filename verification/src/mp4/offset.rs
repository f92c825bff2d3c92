//! Moving the file offsets that `stco` and `co64` tables hold.
use crate::bytes::{
    be32_at, be32_bytes, be64_at, be64_bytes, law_be32_low_bits, law_be64_low_bits, overwrite,
    overwritten, read_u32_be, read_u64_be, write_u32_be, write_u64_be,
};
use crate::mp4::box_ops::{boxes_in, find_all_boxes, CO64, STCO};
use vstd::prelude::*;

verus! {

/// How many bytes an entry of a table takes: eight in a `co64` table, four in
/// a `stco` table.
pub open spec fn entry_width(wide: bool) -> int {
    if wide {
        8
    } else {
        4
    }
}

/// The table entry at index `at`.
pub open spec fn entry_at(data: Seq<u8>, at: int, wide: bool) -> int {
    if wide {
        be64_at(data, at)
    } else {
        be32_at(data, at)
    }
}

/// The bytes of a table entry, which holds as many low bits of `v` as it has
/// room for.
pub open spec fn entry_bytes(v: int, wide: bool) -> Seq<u8> {
    if wide {
        be64_bytes(v)
    } else {
        be32_bytes(v)
    }
}

/// `data` with `delta` added to each of the `n` entries from index `at` on,
/// as far as they stand in `data`.
pub open spec fn shifted_entries(
    data: Seq<u8>,
    at: int,
    n: int,
    wide: bool,
    delta: int,
) -> Seq<u8>
    decreases n,
{
    if n <= 0 || at + entry_width(wide) > data.len() {
        data
    } else {
        shifted_entries(
            overwritten(data, at, entry_bytes(entry_at(data, at, wide) + delta, wide)),
            at + entry_width(wide),
            n - 1,
            wide,
            delta,
        )
    }
}

/// `data` with `delta` added to each entry of the table whose box stands at
/// index `pos`. The box holds its header, four bytes of version and flags, the
/// number of entries, and the entries.
pub open spec fn shifted_table(data: Seq<u8>, pos: int, wide: bool, delta: int) -> Seq<u8> {
    if pos + 16 > data.len() {
        data
    } else {
        shifted_entries(data, pos + 16, be32_at(data, pos + 12), wide, delta)
    }
}

/// `data` with `delta` added to each entry of each of the tables, one table
/// after the other.
pub open spec fn shifted_tables(
    data: Seq<u8>,
    tables: Seq<(u64, usize)>,
    wide: bool,
    delta: int,
) -> Seq<u8>
    decreases tables.len(),
{
    if tables.len() == 0 {
        data
    } else {
        shifted_tables(
            shifted_table(data, tables[0].1 as int, wide, delta),
            tables.drop_first(),
            wide,
            delta,
        )
    }
}

/// `data` with `delta` added to each entry of all tables of one kind in it.
pub open spec fn shifted_kind(data: Seq<u8>, wide: bool, delta: int) -> Seq<u8> {
    let kind = if wide {
        CO64@
    } else {
        STCO@
    };
    shifted_tables(data, boxes_in(data, 0, data.len() as int, kind), wide, delta)
}

/// `data` with `delta` added to all file offsets: those in `stco` tables,
/// modulo two to the power of 32, and then those in `co64` tables, modulo two
/// to the power of 64.
pub open spec fn shifted_offsets(data: Seq<u8>, delta: int) -> Seq<u8> {
    shifted_kind(shifted_kind(data, false, delta), true, delta)
}

/// Moving entries changes no length, and nothing before the entries.
pub proof fn lemma_shifted_entries_frame(data: Seq<u8>, at: int, n: int, wide: bool, delta: int)
    requires
        0 <= at,
    ensures
        shifted_entries(data, at, n, wide, delta).len() == data.len(),
        forall|i: int|
            0 <= i < at && i < data.len() ==> #[trigger] shifted_entries(data, at, n, wide, delta)[i]
                == data[i],
    decreases n,
{
    if n > 0 && at + entry_width(wide) <= data.len() {
        let next = overwritten(data, at, entry_bytes(entry_at(data, at, wide) + delta, wide));
        lemma_shifted_entries_frame(next, at + entry_width(wide), n - 1, wide, delta);
    }
}

/// Moving the entries of tables changes no length, and nothing before the
/// entries of the first of the tables.
pub proof fn lemma_shifted_tables_frame(
    data: Seq<u8>,
    tables: Seq<(u64, usize)>,
    wide: bool,
    delta: int,
    from: int,
)
    requires
        0 <= from,
        forall|k: int| 0 <= k < tables.len() ==> from <= (#[trigger] tables[k]).1,
    ensures
        shifted_tables(data, tables, wide, delta).len() == data.len(),
        forall|i: int|
            0 <= i < from + 16 && i < data.len() ==> #[trigger] shifted_tables(
                data,
                tables,
                wide,
                delta,
            )[i] == data[i],
    decreases tables.len(),
{
    if tables.len() > 0 {
        let pos = tables[0].1 as int;
        let next = shifted_table(data, pos, wide, delta);
        if pos + 16 <= data.len() {
            lemma_shifted_entries_frame(data, pos + 16, be32_at(data, pos + 12), wide, delta);
        }
        lemma_shifted_tables_frame(next, tables.drop_first(), wide, delta, from);
    }
}

/// An entry is four bytes, or eight in a table of 64-bit offsets, the highest
/// first.
pub proof fn law_entry(data: Seq<u8>, at: int)
    ensures
        entry_width(false) == 4,
        entry_width(true) == 8,
        entry_at(data, at, false) == 0x100_0000 * data[at] + 0x1_0000 * data[at + 1] + 0x100
            * data[at + 2] + data[at + 3],
        entry_at(data, at, true) == 0x1_0000_0000 * entry_at(data, at, false) + entry_at(
            data,
            at + 4,
            false,
        ),
{
}

/// The tables are moved one after the other, however they are parted; a box that
/// is too short to tell its number of entries is left alone.
pub proof fn law_tables_moved_in_order(
    data: Seq<u8>,
    first: Seq<(u64, usize)>,
    others: Seq<(u64, usize)>,
    wide: bool,
    delta: int,
)
    ensures
        shifted_tables(data, first + others, wide, delta) == shifted_tables(
            shifted_tables(data, first, wide, delta),
            others,
            wide,
            delta,
        ),
        first.len() == 0 ==> shifted_tables(data, first, wide, delta) == data,
        first.len() == 1 ==> shifted_tables(data, first, wide, delta) == shifted_table(
            data,
            first[0].1 as int,
            wide,
            delta,
        ),
        first.len() == 1 && first[0].1 + 16 > data.len() ==> shifted_tables(
            data,
            first,
            wide,
            delta,
        ) == data,
    decreases first.len(),
{
    if first.len() == 0 {
        assert(first + others =~= others);
    } else {
        let next = shifted_table(data, first[0].1 as int, wide, delta);
        law_tables_moved_in_order(next, first.drop_first(), others, wide, delta);
        assert((first + others).drop_first() =~= first.drop_first() + others);
        if first.len() == 1 {
            assert(first.drop_first() =~= Seq::empty());
        }
    }
}

/// All tables of both kinds are moved: those of type `stco` and then those of
/// type `co64`.
pub proof fn law_both_kinds_moved(data: Seq<u8>, delta: int)
    ensures
        ({
            let len = data.len() as int;
            let narrow = boxes_in(data, 0, len, seq![0x73u8, 0x74, 0x63, 0x6f]);
            let half = shifted_tables(data, narrow, false, delta);
            let wide = boxes_in(half, 0, len, seq![0x63u8, 0x6f, 0x36, 0x34]);
            shifted_offsets(data, delta) == shifted_tables(half, wide, true, delta)
        }),
{
    assert(STCO@ =~= seq![0x73u8, 0x74, 0x63, 0x6f]);
    assert(CO64@ =~= seq![0x63u8, 0x6f, 0x36, 0x34]);
    let d1 = shifted_kind(data, false, delta);
    lemma_shifted_tables_frame(
        data,
        boxes_in(data, 0, data.len() as int, STCO@),
        false,
        delta,
        0,
    );
}

/// Moving the file offsets keeps the length of the file.
pub proof fn law_shifted_offsets_len(data: Seq<u8>, delta: int)
    ensures
        shifted_offsets(data, delta).len() == data.len(),
{
    let d1 = shifted_kind(data, false, delta);
    lemma_shifted_tables_frame(
        data,
        boxes_in(data, 0, data.len() as int, STCO@),
        false,
        delta,
        0,
    );
    lemma_shifted_tables_frame(d1, boxes_in(d1, 0, d1.len() as int, CO64@), true, delta, 0);
}

/// The bytes of a 32-bit entry that is `delta` above `offset`.
fn moved_u32(offset: u32, delta: u64) -> (r: [u8; 4])
    ensures
        r@ == be32_bytes(offset + delta),
{
    let sum: u64 = (offset as u64).wrapping_add(delta);
    assert(sum as u32 == sum % 0x1_0000_0000) by (bit_vector);
    let mut slot: [u8; 4] = [0; 4];
    let _written = write_u32_be(&mut slot, sum as u32);
    assert(slot@ =~= be32_bytes((sum as u32) as int));
    assert((sum as u32) as int == (offset + delta) % 0x1_0000_0000);
    proof {
        law_be32_low_bits(offset + delta);
    }
    slot
}

/// The bytes of a 64-bit entry that is `delta` above `offset`.
fn moved_u64(offset: u64, delta: u64) -> (r: [u8; 8])
    ensures
        r@ == be64_bytes(offset + delta),
{
    let sum: u64 = offset.wrapping_add(delta);
    let mut slot: [u8; 8] = [0; 8];
    let _written = write_u64_be(&mut slot, sum);
    assert(slot@ =~= be64_bytes(sum as int));
    assert(sum == (offset + delta) % 0x1_0000_0000_0000_0000);
    proof {
        law_be64_low_bits(offset + delta);
    }
    slot
}

/// Adds `delta` to the table entry at index `at`.
fn shift_entry(mp4: &mut [u8], at: usize, wide: bool, delta: u64)
    requires
        at + entry_width(wide) <= old(mp4)@.len(),
    ensures
        final(mp4)@ == overwritten(
            old(mp4)@,
            at as int,
            entry_bytes(entry_at(old(mp4)@, at as int, wide) + delta, wide),
        ),
{
    let len = mp4.len();
    if wide {
        let offset: u64 = match read_u64_be(&mp4[at..at + 8]) {
            Some(v) => v,
            None => 0,
        };
        assert(offset == be64_at(mp4@, at as int));
        overwrite(mp4, at, &moved_u64(offset, delta));
    } else {
        let offset: u32 = match read_u32_be(&mp4[at..at + 4]) {
            Some(v) => v,
            None => 0,
        };
        assert(offset == be32_at(mp4@, at as int));
        overwrite(mp4, at, &moved_u32(offset, delta));
    }
}

/// Adds `delta` to each entry of the table whose box stands at index `pos`.
fn shift_table(mp4: &mut [u8], pos: usize, wide: bool, delta: u64)
    ensures
        final(mp4)@ == shifted_table(old(mp4)@, pos as int, wide, delta as int),
{
    let len = mp4.len();
    if pos > len || len - pos < 16 {
        return ;
    }
    let count: u32 = match read_u32_be(&mp4[pos + 12..pos + 16]) {
        Some(v) => v,
        None => 0,
    };
    assert(count == be32_at(mp4@, pos + 12));
    let width: usize = if wide {
        8
    } else {
        4
    };
    let mut curr: usize = pos + 16;
    let mut left: u32 = count;
    while left > 0 && len - curr >= width
        invariant
            curr <= len,
            mp4@.len() == len,
            old(mp4)@.len() == len,
            width == entry_width(wide),
            pos + 16 <= len,
            shifted_table(old(mp4)@, pos as int, wide, delta as int) == shifted_entries(
                mp4@,
                curr as int,
                left as int,
                wide,
                delta as int,
            ),
        decreases left,
    {
        shift_entry(mp4, curr, wide, delta);
        curr = curr + width;
        left = left - 1;
    }
}

/// Adds `delta` to each entry of all tables of one kind.
fn shift_kind(mp4: &mut [u8], wide: bool, delta: u64)
    ensures
        final(mp4)@ == shifted_kind(old(mp4)@, wide, delta as int),
{
    let kind: [u8; 4] = if wide {
        CO64
    } else {
        STCO
    };
    let tables = find_all_boxes(mp4, &kind);
    let mut i: usize = 0;
    assert(tables@.skip(0) =~= tables@);
    while i < tables.len()
        invariant
            i <= tables@.len(),
            shifted_kind(old(mp4)@, wide, delta as int) == shifted_tables(
                mp4@,
                tables@.skip(i as int),
                wide,
                delta as int,
            ),
        decreases tables@.len() - i,
    {
        shift_table(mp4, tables[i].1, wide, delta);
        assert(tables@.skip(i as int).drop_first() =~= tables@.skip(i + 1));
        i = i + 1;
    }
}

/// Adds `delta` to all file offsets in the `stco` and `co64` tables of `mp4`.
/// The sum is taken modulo two to the power of the entry's bits, so that a
/// `delta` just below two to the power of 64 moves the offsets down.
pub fn update_stco_offsets(mp4: &mut [u8], delta: u64)
    ensures
        final(mp4)@ == shifted_offsets(old(mp4)@, delta as int),
{
    shift_kind(mp4, false, delta);
    shift_kind(mp4, true, delta);
}

} // verus!
