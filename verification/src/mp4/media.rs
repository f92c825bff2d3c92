//! What becomes of media data, and of the tables of file offsets in it, when
//! it moves within a file.
use crate::bytes::{be32_at, be64_at, law_be32_round_trip, law_be64_round_trip, overwritten};
use crate::mp4::box_ops::{
    boxes_here, boxes_in, law_boxes_in_order, may_hold_boxes, whole_box_at, CO64, MDAT, SKIP, STCO,
};
use crate::mp4::offset::{
    entry_at, entry_bytes, entry_width, shifted_entries, shifted_kind, shifted_offsets,
    shifted_table, shifted_tables,
};
use crate::utils::{box_size, box_type};
use vstd::prelude::*;

verus! {

/// The index of entry `j` of a table whose first entry stands at index `at`.
pub open spec fn entry_index(at: int, j: int, wide: bool) -> int {
    if wide {
        at + 8 * j
    } else {
        at + 4 * j
    }
}

/// How many values an entry can have.
pub open spec fn entry_range(wide: bool) -> int {
    if wide {
        0x1_0000_0000_0000_0000
    } else {
        0x1_0000_0000
    }
}

/// Whether a box is a table as files have them: its entries end within it,
/// and its version and flags are too small for the size of a box.
pub open spec fn plain_table(data: Seq<u8>, table: (u64, usize), wide: bool) -> bool {
    &&& 16 <= table.0
    &&& be32_at(data, table.1 + 8) < 8
    &&& entry_index(16, be32_at(data, table.1 + 12), wide) <= table.0
}

/// Whether all boxes of a list are tables as files have them.
pub open spec fn plain_tables(data: Seq<u8>, tables: Seq<(u64, usize)>, wide: bool) -> bool {
    forall|k: int| 0 <= k < tables.len() ==> plain_table(data, #[trigger] tables[k], wide)
}

/// Whether index `i` is behind the number of entries in one of the tables.
pub open spec fn in_entries(tables: Seq<(u64, usize)>, i: int) -> bool {
    exists|k: int|
        0 <= k < tables.len() && (#[trigger] tables[k]).1 + 16 <= i < tables[k].1 + tables[k].0
}

/// Whether all tables of both kinds between the indices `lo` and `hi` are as
/// files have them.
pub open spec fn plain_media(data: Seq<u8>, lo: int, hi: int) -> bool {
    &&& plain_tables(data, boxes_in(data, lo, hi, STCO@), false)
    &&& plain_tables(data, boxes_in(data, lo, hi, CO64@), true)
}

/// Whether the entries of the tables, which are listed as they stand in `old`,
/// stand `shift` bytes further on in `new` and are greater by `delta`.
pub open spec fn entries_moved(
    old: Seq<u8>,
    tables: Seq<(u64, usize)>,
    wide: bool,
    new: Seq<u8>,
    shift: int,
    delta: int,
) -> bool {
    forall|k: int, j: int|
        0 <= k < tables.len() && 0 <= j < be32_at(old, tables[k].1 + 12) ==> entry_at(
            new,
            #[trigger] entry_index(tables[k].1 + 16, j, wide) + shift,
            wide,
        ) == (entry_at(old, entry_index(tables[k].1 + 16, j, wide), wide) + delta) % entry_range(
            wide,
        )
}

/// Whether what the tables, which are listed as they stand in `old`, hold
/// behind their entries stands `shift` bytes further on in `new`.
pub open spec fn rests_moved(
    old: Seq<u8>,
    tables: Seq<(u64, usize)>,
    wide: bool,
    new: Seq<u8>,
    shift: int,
) -> bool {
    forall|k: int, i: int|
        0 <= k < tables.len() && entry_index(
            (#[trigger] tables[k]).1 + 16,
            be32_at(old, tables[k].1 + 12),
            wide,
        ) <= i < tables[k].1 + tables[k].0 ==> new[i + shift] == #[trigger] old[i]
}

/// Whether what stands in `old` between the indices `lo` and `hi` stands in
/// `new` `shift` bytes further on, with the file offsets in its tables greater
/// by `delta` and with no other change.
pub open spec fn media_moved(
    old: Seq<u8>,
    lo: int,
    hi: int,
    new: Seq<u8>,
    shift: int,
    delta: int,
) -> bool {
    let narrow = boxes_in(old, lo, hi, STCO@);
    let wide = boxes_in(old, lo, hi, CO64@);
    &&& 0 <= lo <= hi <= old.len() <= usize::MAX
    &&& 0 <= lo + shift
    &&& hi + shift <= new.len() <= usize::MAX
    &&& forall|i: int|
        lo <= i < hi && !in_entries(narrow, i) && !in_entries(wide, i) ==> new[i + shift]
            == #[trigger] old[i]
    &&& entries_moved(old, narrow, false, new, shift, delta)
    &&& entries_moved(old, wide, true, new, shift, delta)
    &&& rests_moved(old, narrow, false, new, shift)
    &&& rests_moved(old, wide, true, new, shift)
}

/// A list of boxes that stand `shift` bytes further on.
pub open spec fn list_moved(tables: Seq<(u64, usize)>, shift: int) -> Seq<(u64, usize)> {
    Seq::new(tables.len(), |k: int| (tables[k].0, (tables[k].1 + shift) as usize))
}

/// Whether `new` has what `old` has between the indices `lo` and `hi`, `shift`
/// bytes further on, but for the entries of tables.
pub open spec fn frame_moved(old: Seq<u8>, lo: int, hi: int, new: Seq<u8>, shift: int) -> bool {
    &&& 0 <= lo
    &&& hi <= old.len() <= usize::MAX
    &&& 0 <= lo + shift
    &&& hi + shift <= new.len() <= usize::MAX
    &&& forall|i: int|
        lo <= i < hi && !in_entries(boxes_in(old, lo, hi, STCO@), i) && !in_entries(
            boxes_in(old, lo, hi, CO64@),
            i,
        ) ==> new[i + shift] == #[trigger] old[i]
}

/// No index between `lo` and `lo + 16` is in the entries of tables that stand
/// at `lo` or behind it.
proof fn lemma_no_entries_before(data: Seq<u8>, lo: int, hi: int, target: Seq<u8>, i: int)
    requires
        0 <= lo,
        hi <= usize::MAX,
        i < lo + 16 || hi <= i,
    ensures
        !in_entries(boxes_in(data, lo, hi, target), i),
{
    law_boxes_in_order(data, lo, hi, target);
}

/// The first eight bytes of the range of a walk, and four more in a table, are
/// in no entries, so they are the same where the range has moved to.
proof fn lemma_head_moved(old: Seq<u8>, lo: int, hi: int, new: Seq<u8>, shift: int)
    requires
        frame_moved(old, lo, hi, new, shift),
    ensures
        forall|i: int| lo <= i < lo + 16 && i < hi ==> new[i + shift] == #[trigger] old[i],
{
    assert forall|i: int| lo <= i < lo + 16 && i < hi implies new[i + shift] == #[trigger] old[i] by {
        lemma_no_entries_before(old, lo, hi, STCO@, i);
        lemma_no_entries_before(old, lo, hi, CO64@, i);
    }
}

/// A walk over boxes finds in the first of them and behind it what it finds in
/// all.
proof fn lemma_in_entries_split(a: Seq<(u64, usize)>, b: Seq<(u64, usize)>, i: int)
    ensures
        in_entries(a + b, i) == (in_entries(a, i) || in_entries(b, i)),
{
    let all = a + b;
    if in_entries(a, i) {
        let k = choose|k: int|
            0 <= k < a.len() && (#[trigger] a[k]).1 + 16 <= i < a[k].1 + a[k].0;
        assert(all[k] == a[k]);
    }
    if in_entries(b, i) {
        let k = choose|k: int|
            0 <= k < b.len() && (#[trigger] b[k]).1 + 16 <= i < b[k].1 + b[k].0;
        assert(all[k + a.len()] == b[k]);
    }
    if in_entries(all, i) {
        let k = choose|k: int|
            0 <= k < all.len() && (#[trigger] all[k]).1 + 16 <= i < all[k].1 + all[k].0;
        if k < a.len() {
            assert(all[k] == a[k]);
        } else {
            assert(all[k] == b[k - a.len()]);
        }
    }
}

/// The tables of the first box of a range, and those behind it, are as files
/// have them if all are.
proof fn lemma_plain_split(
    data: Seq<u8>,
    a: Seq<(u64, usize)>,
    b: Seq<(u64, usize)>,
    wide: bool,
)
    ensures
        plain_tables(data, a + b, wide) == (plain_tables(data, a, wide) && plain_tables(
            data,
            b,
            wide,
        )),
{
    let all = a + b;
    if plain_tables(data, all, wide) {
        assert forall|k: int| 0 <= k < a.len() implies plain_table(data, #[trigger] a[k], wide) by {
            assert(all[k] == a[k]);
        }
        assert forall|k: int| 0 <= k < b.len() implies plain_table(data, #[trigger] b[k], wide) by {
            assert(all[k + a.len()] == b[k]);
        }
    }
    if plain_tables(data, a, wide) && plain_tables(data, b, wide) {
        assert forall|k: int| 0 <= k < all.len() implies plain_table(
            data,
            #[trigger] all[k],
            wide,
        ) by {
            if k < a.len() {
                assert(all[k] == a[k]);
            } else {
                assert(all[k] == b[k - a.len()]);
            }
        }
    }
}

/// The entries of tables in the first box of a range end where that box ends.
proof fn lemma_here_within(data: Seq<u8>, lo: int, hi: int, target: Seq<u8>, i: int)
    requires
        whole_box_at(data, lo, hi),
        hi <= usize::MAX,
        lo + box_size(data, lo) <= i,
    ensures
        !in_entries(boxes_here(data, lo, hi, target), i),
{
    let size = box_size(data, lo);
    if box_type(data, lo) != target && may_hold_boxes(box_type(data, lo)) && size > 8 {
        lemma_no_entries_before(data, lo + 8, lo + size, target, i);
    }
}

/// What stands behind the first box of a range has moved as the range has.
proof fn lemma_rest_moved(old: Seq<u8>, lo: int, hi: int, new: Seq<u8>, shift: int)
    requires
        frame_moved(old, lo, hi, new, shift),
        plain_media(old, lo, hi),
        whole_box_at(old, lo, hi),
    ensures
        frame_moved(old, lo + box_size(old, lo), hi, new, shift),
        plain_media(old, lo + box_size(old, lo), hi),
        plain_tables(old, boxes_here(old, lo, hi, STCO@), false),
        plain_tables(old, boxes_here(old, lo, hi, CO64@), true),
{
    let mid = lo + box_size(old, lo);
    let here4 = boxes_here(old, lo, hi, STCO@);
    let here8 = boxes_here(old, lo, hi, CO64@);
    let rest4 = boxes_in(old, mid, hi, STCO@);
    let rest8 = boxes_in(old, mid, hi, CO64@);
    lemma_plain_split(old, here4, rest4, false);
    lemma_plain_split(old, here8, rest8, true);
    assert forall|i: int|
        mid <= i < hi && !in_entries(rest4, i) && !in_entries(rest8, i) implies new[i + shift]
        == #[trigger] old[i] by {
        lemma_in_entries_split(here4, rest4, i);
        lemma_in_entries_split(here8, rest8, i);
        lemma_here_within(old, lo, hi, STCO@, i);
        lemma_here_within(old, lo, hi, CO64@, i);
    }
}

/// What stands in the first box of a range, where that is no table, has moved
/// as the range has.
proof fn lemma_inside_moved(old: Seq<u8>, lo: int, hi: int, new: Seq<u8>, shift: int)
    requires
        frame_moved(old, lo, hi, new, shift),
        plain_media(old, lo, hi),
        whole_box_at(old, lo, hi),
        box_type(old, lo) != STCO@,
        box_type(old, lo) != CO64@,
        may_hold_boxes(box_type(old, lo)),
        8 < box_size(old, lo),
    ensures
        frame_moved(old, lo + 8, lo + box_size(old, lo), new, shift),
        plain_media(old, lo + 8, lo + box_size(old, lo)),
{
    let mid = lo + box_size(old, lo);
    let here4 = boxes_here(old, lo, hi, STCO@);
    let here8 = boxes_here(old, lo, hi, CO64@);
    let rest4 = boxes_in(old, mid, hi, STCO@);
    let rest8 = boxes_in(old, mid, hi, CO64@);
    lemma_plain_split(old, here4, rest4, false);
    lemma_plain_split(old, here8, rest8, true);
    assert forall|i: int|
        lo + 8 <= i < mid && !in_entries(here4, i) && !in_entries(here8, i) implies new[i + shift]
        == #[trigger] old[i] by {
        lemma_in_entries_split(here4, rest4, i);
        lemma_in_entries_split(here8, rest8, i);
        lemma_no_entries_before(old, mid, hi, STCO@, i);
        lemma_no_entries_before(old, mid, hi, CO64@, i);
    }
}

/// The five types of box that play a part in a search for tables differ.
pub proof fn lemma_types_differ()
    ensures
        STCO@ != CO64@,
        STCO@ != MDAT@,
        STCO@ != SKIP@,
        CO64@ != MDAT@,
        CO64@ != SKIP@,
{
    assert(STCO@[0] != CO64@[0]);
    assert(STCO@[0] != MDAT@[0]);
    assert(STCO@[1] != SKIP@[1]);
    assert(CO64@[0] != MDAT@[0]);
    assert(CO64@[0] != SKIP@[0]);
}

/// A table as files have them has no boxes inside it.
proof fn lemma_nothing_in_table(
    data: Seq<u8>,
    lo: int,
    hi: int,
    wide: bool,
    other: Seq<u8>,
)
    requires
        whole_box_at(data, lo, hi),
        hi <= usize::MAX,
        box_type(data, lo) != other,
        plain_table(data, (box_size(data, lo) as u64, lo as usize), wide),
    ensures
        boxes_here(data, lo, hi, other) == Seq::<(u64, usize)>::empty(),
{
    assert(!whole_box_at(data, lo + 8, lo + box_size(data, lo)));
    assert(boxes_here(data, lo, hi, other) =~= Seq::empty());
}

/// A search finds the same tables where the data has moved to.
pub proof fn lemma_walk_moved(old: Seq<u8>, lo: int, hi: int, new: Seq<u8>, shift: int)
    requires
        frame_moved(old, lo, hi, new, shift),
        plain_media(old, lo, hi),
    ensures
        boxes_in(new, lo + shift, hi + shift, STCO@) == list_moved(
            boxes_in(old, lo, hi, STCO@),
            shift,
        ),
        boxes_in(new, lo + shift, hi + shift, CO64@) == list_moved(
            boxes_in(old, lo, hi, CO64@),
            shift,
        ),
    decreases hi - lo,
{
    lemma_head_moved(old, lo, hi, new, shift);
    lemma_types_differ();
    if lo + 8 <= hi {
        assert(old[lo] == new[lo + shift]);
        assert(box_size(new, lo + shift) == box_size(old, lo));
        assert(box_type(new, lo + shift) =~= box_type(old, lo));
    }
    if !whole_box_at(old, lo, hi) {
        assert(!whole_box_at(new, lo + shift, hi + shift));
        assert(list_moved(boxes_in(old, lo, hi, STCO@), shift) =~= Seq::empty());
        assert(list_moved(boxes_in(old, lo, hi, CO64@), shift) =~= Seq::empty());
    } else {
        let size = box_size(old, lo);
        let kind = box_type(old, lo);
        lemma_rest_moved(old, lo, hi, new, shift);
        lemma_walk_moved(old, lo + size, hi, new, shift);
        let here4 = boxes_here(old, lo, hi, STCO@);
        let here8 = boxes_here(old, lo, hi, CO64@);
        let there4 = boxes_here(new, lo + shift, hi + shift, STCO@);
        let there8 = boxes_here(new, lo + shift, hi + shift, CO64@);
        assert(there4 == list_moved(here4, shift) && there8 == list_moved(here8, shift)) by {
            if kind == STCO@ {
                assert(plain_table(old, here4[0], false));
                lemma_nothing_in_table(old, lo, hi, false, CO64@);
                assert(!whole_box_at(new, lo + shift + 8, lo + shift + size)) by {
                    assert(box_size(new, lo + shift + 8) == box_size(old, lo + 8));
                }
                assert(there4 =~= list_moved(here4, shift));
                assert(there8 =~= list_moved(here8, shift));
            } else if kind == CO64@ {
                assert(plain_table(old, here8[0], true));
                lemma_nothing_in_table(old, lo, hi, true, STCO@);
                assert(!whole_box_at(new, lo + shift + 8, lo + shift + size)) by {
                    assert(box_size(new, lo + shift + 8) == box_size(old, lo + 8));
                }
                assert(there4 =~= list_moved(here4, shift));
                assert(there8 =~= list_moved(here8, shift));
            } else if may_hold_boxes(kind) && size > 8 {
                lemma_inside_moved(old, lo, hi, new, shift);
                lemma_walk_moved(old, lo + 8, lo + size, new, shift);
            } else {
                assert(there4 =~= list_moved(here4, shift));
                assert(there8 =~= list_moved(here8, shift));
            }
        }
        assert(boxes_in(new, lo + shift, hi + shift, STCO@) =~= list_moved(
            boxes_in(old, lo, hi, STCO@),
            shift,
        ));
        assert(boxes_in(new, lo + shift, hi + shift, CO64@) =~= list_moved(
            boxes_in(old, lo, hi, CO64@),
            shift,
        ));
    }
}

/// An entry that is written is what is read back, as far as an entry holds it.
proof fn lemma_entry_round_trip(data: Seq<u8>, at: int, v: int, wide: bool)
    requires
        0 <= at,
        at + entry_width(wide) <= data.len(),
        0 <= v,
    ensures
        entry_at(overwritten(data, at, entry_bytes(v, wide)), at, wide) == v % entry_range(wide),
{
    let b = entry_bytes(v, wide);
    let r = overwritten(data, at, b);
    if wide {
        assert(be64_at(r, at) == be64_at(b, 0));
        law_be64_round_trip(v);
    } else {
        assert(be32_at(r, at) == be32_at(b, 0));
        law_be32_round_trip(v);
    }
}

/// An entry is the same in two files that have the same bytes for it.
proof fn lemma_same_entry(a: Seq<u8>, b: Seq<u8>, at: int, other: int, wide: bool)
    requires
        forall|i: int|
            at <= i < at + entry_width(wide) ==> b[i - at + other] == #[trigger] a[i],
    ensures
        entry_at(b, other, wide) == entry_at(a, at, wide),
{
    assert(b[other] == a[at]);
    assert(b[at + 1 - at + other] == a[at + 1]);
    assert(b[at + 2 - at + other] == a[at + 2]);
    assert(b[at + 3 - at + other] == a[at + 3]);
    if wide {
        assert(b[at + 4 - at + other] == a[at + 4]);
        assert(b[at + 5 - at + other] == a[at + 5]);
        assert(b[at + 6 - at + other] == a[at + 6]);
        assert(b[at + 7 - at + other] == a[at + 7]);
    }
}

/// Moving `n` entries adds to each of them, and changes nothing else.
pub proof fn lemma_shifted_entries(data: Seq<u8>, at: int, n: int, wide: bool, delta: int)
    requires
        0 <= at,
        0 <= n,
        0 <= delta,
        entry_index(at, n, wide) <= data.len(),
    ensures
        shifted_entries(data, at, n, wide, delta).len() == data.len(),
        forall|i: int|
            0 <= i < data.len() && (i < at || entry_index(at, n, wide) <= i)
                ==> #[trigger] shifted_entries(data, at, n, wide, delta)[i] == data[i],
        forall|j: int|
            0 <= j < n ==> entry_at(
                shifted_entries(data, at, n, wide, delta),
                #[trigger] entry_index(at, j, wide),
                wide,
            ) == (entry_at(data, entry_index(at, j, wide), wide) + delta) % entry_range(wide),
    decreases n,
{
    if n > 0 {
        let w = entry_width(wide);
        let v = entry_at(data, at, wide) + delta;
        let next = overwritten(data, at, entry_bytes(v, wide));
        let r = shifted_entries(next, at + w, n - 1, wide, delta);
        lemma_shifted_entries(next, at + w, n - 1, wide, delta);
        assert(r == shifted_entries(data, at, n, wide, delta));
        assert forall|i: int|
            0 <= i < data.len() && (i < at || entry_index(at, n, wide) <= i) implies
            #[trigger] r[i] == data[i] by {
            assert(r[i] == next[i]);
        }
        assert forall|j: int| 0 <= j < n implies entry_at(
            r,
            #[trigger] entry_index(at, j, wide),
            wide,
        ) == (entry_at(data, entry_index(at, j, wide), wide) + delta) % entry_range(wide) by {
            let e = entry_index(at, j, wide);
            if j == 0 {
                assert forall|i: int| at <= i < at + w implies r[i - at + at] == #[trigger] next[i] by {
                    assert(r[i] == next[i]);
                }
                lemma_same_entry(next, r, at, at, wide);
                lemma_entry_round_trip(data, at, v, wide);
            } else {
                assert(e == entry_index(at + w, j - 1, wide));
                assert forall|i: int| e <= i < e + w implies next[i - e + e] == #[trigger] data[i] by {}
                lemma_same_entry(data, next, e, e, wide);
            }
        }
    }
}

/// In any table, whatever its size and flags are, each entry that its number of
/// entries counts and that stands in the file is moved, and nothing else is
/// changed.
pub proof fn law_table_moved(data: Seq<u8>, pos: int, wide: bool, delta: int)
    requires
        0 <= pos,
        0 <= delta,
        pos + 16 <= data.len(),
    ensures
        ({
            let n = be32_at(data, pos + 12);
            let w = if wide {
                8int
            } else {
                4int
            };
            let moved = shifted_table(data, pos, wide, delta);
            &&& moved.len() == data.len()
            &&& forall|i: int|
                0 <= i < data.len() && (i < pos + 16 || pos + 16 + w * n <= i || data.len() - i
                    <= (data.len() - (pos + 16)) % w) ==> #[trigger] moved[i] == data[i]
            &&& forall|j: int|
                0 <= j < n && pos + 16 + w * (j + 1) <= data.len() ==> entry_at(
                    moved,
                    #[trigger] entry_index(pos + 16, j, wide),
                    wide,
                ) == (entry_at(data, entry_index(pos + 16, j, wide), wide) + delta) % entry_range(
                    wide,
                )
        }),
{
    let at = pos + 16;
    let n = be32_at(data, pos + 12);
    let w = entry_width(wide);
    let room = (data.len() - at) / w;
    let m = if n <= room {
        n
    } else {
        room
    };
    assert(at + w * m <= data.len() && (m == n || data.len() < at + w * (m + 1))) by {
        if wide {
            assert(w == 8);
        } else {
            assert(w == 4);
        }
    }
    lemma_entries_that_fit(data, at, n, m, wide, delta);
    lemma_shifted_entries(data, at, m, wide, delta);
    let moved = shifted_table(data, pos, wide, delta);
    assert forall|i: int|
        0 <= i < data.len() && (i < at || at + w * n <= i || data.len() - i <= (data.len() - at)
            % w) implies #[trigger] moved[i] == data[i] by {
        if wide {
            assert(i < at || entry_index(at, m, wide) <= i);
        } else {
            assert(i < at || entry_index(at, m, wide) <= i);
        }
    }
}

/// Entries that do not stand in the file are not moved.
proof fn lemma_entries_that_fit(data: Seq<u8>, at: int, n: int, m: int, wide: bool, delta: int)
    requires
        0 <= at,
        0 <= m <= n,
        entry_index(at, m, wide) <= data.len(),
        m < n ==> data.len() < entry_index(at, m + 1, wide),
    ensures
        shifted_entries(data, at, n, wide, delta) == shifted_entries(data, at, m, wide, delta),
    decreases m,
{
    if m > 0 {
        let w = entry_width(wide);
        let next = overwritten(data, at, entry_bytes(entry_at(data, at, wide) + delta, wide));
        lemma_entries_that_fit(next, at + w, n - 1, m - 1, wide, delta);
    }
}

/// Whether tables stand one behind the other in `len` bytes.
pub open spec fn apart(tables: Seq<(u64, usize)>, len: nat) -> bool {
    &&& forall|k: int|
        0 <= k < tables.len() ==> (#[trigger] tables[k]).1 + tables[k].0 <= len
    &&& forall|j: int, k: int|
        0 <= j < k < tables.len() ==> (#[trigger] tables[j]).1 + tables[j].0 <= (
        #[trigger] tables[k]).1
}

/// The tables behind the first are as they were where nothing changes behind
/// the first.
proof fn lemma_tables_behind_first(
    data: Seq<u8>,
    tables: Seq<(u64, usize)>,
    wide: bool,
    next: Seq<u8>,
)
    requires
        tables.len() > 0,
        apart(tables, data.len()),
        plain_tables(data, tables, wide),
        next.len() == data.len(),
        forall|i: int|
            tables[0].1 + tables[0].0 <= i < data.len() ==> #[trigger] next[i] == data[i],
    ensures
        apart(tables.drop_first(), next.len()),
        plain_tables(next, tables.drop_first(), wide),
        forall|k: int|
            0 < k < tables.len() ==> {
                &&& be32_at(next, (#[trigger] tables[k]).1 + 12) == be32_at(data, tables[k].1 + 12)
                &&& tables[0].1 + tables[0].0 <= tables[k].1
            },
{
    let rest = tables.drop_first();
    assert forall|k: int| 0 < k < tables.len() implies {
        &&& plain_table(next, #[trigger] tables[k], wide)
        &&& be32_at(next, tables[k].1 + 12) == be32_at(data, tables[k].1 + 12)
        &&& tables[0].1 + tables[0].0 <= tables[k].1
    } by {
        assert(plain_table(data, tables[k], wide));
        assert(tables[0].1 + tables[0].0 <= tables[k].1);
        let t = tables[k].1 as int;
        assert(next[t + 8] == data[t + 8] && next[t + 9] == data[t + 9] && next[t + 10] == data[t
            + 10] && next[t + 11] == data[t + 11] && next[t + 12] == data[t + 12] && next[t + 13]
            == data[t + 13] && next[t + 14] == data[t + 14] && next[t + 15] == data[t + 15]);
    }
    assert forall|k: int| 0 <= k < rest.len() implies plain_table(
        next,
        #[trigger] rest[k],
        wide,
    ) by {
        assert(rest[k] == tables[k + 1]);
    }
    assert forall|k: int| 0 <= k < rest.len() implies (#[trigger] rest[k]).1 + rest[k].0
        <= next.len() by {
        assert(rest[k] == tables[k + 1]);
    }
    assert forall|j: int, k: int| 0 <= j < k < rest.len() implies (#[trigger] rest[j]).1 + rest[j].0
        <= (#[trigger] rest[k]).1 by {
        assert(rest[j] == tables[j + 1] && rest[k] == tables[k + 1]);
    }
}

/// What is in no table stays as it is when the entries of the first table and
/// then those of the others are moved.
proof fn lemma_frame_joined(
    data: Seq<u8>,
    tables: Seq<(u64, usize)>,
    next: Seq<u8>,
    r: Seq<u8>,
    i: int,
)
    requires
        tables.len() > 0,
        0 <= i < data.len(),
        !in_entries(tables, i),
        !(tables[0].1 + 16 <= i < tables[0].1 + tables[0].0) ==> next[i] == data[i],
        !in_entries(tables.drop_first(), i) ==> r[i] == next[i],
    ensures
        r[i] == data[i],
{
    let rest = tables.drop_first();
    if in_entries(rest, i) {
        let k = choose|k: int|
            0 <= k < rest.len() && (#[trigger] rest[k]).1 + 16 <= i < rest[k].1 + rest[k].0;
        assert(tables[k + 1] == rest[k]);
    }
    assert(!(tables[0].1 + 16 <= i < tables[0].1 + tables[0].0));
}

/// No index in the first table is in the entries of the others.
proof fn lemma_first_not_in_others(tables: Seq<(u64, usize)>, len: nat, i: int)
    requires
        tables.len() > 0,
        apart(tables, len),
        i < tables[0].1 + tables[0].0,
    ensures
        !in_entries(tables.drop_first(), i),
{
    let rest = tables.drop_first();
    if in_entries(rest, i) {
        let k = choose|k: int|
            0 <= k < rest.len() && (#[trigger] rest[k]).1 + 16 <= i < rest[k].1 + rest[k].0;
        assert(tables[k + 1] == rest[k]);
        assert(tables[0].1 + tables[0].0 <= tables[k + 1].1);
    }
}

/// An entry of the first table, and what is behind its entries, after the
/// entries of the others are moved too.
proof fn lemma_first_joined(
    data: Seq<u8>,
    tables: Seq<(u64, usize)>,
    wide: bool,
    next: Seq<u8>,
    r: Seq<u8>,
)
    requires
        tables.len() > 0,
        apart(tables, data.len()),
        plain_table(data, tables[0], wide),
        forall|i: int|
            0 <= i < data.len() && !in_entries(tables.drop_first(), i) ==> #[trigger] r[i]
                == next[i],
    ensures
        forall|i: int| 0 <= i < tables[0].1 + tables[0].0 ==> #[trigger] r[i] == next[i],
        forall|j: int|
            0 <= j < be32_at(data, tables[0].1 + 12) ==> entry_at(
                r,
                #[trigger] entry_index(tables[0].1 + 16, j, wide),
                wide,
            ) == entry_at(next, entry_index(tables[0].1 + 16, j, wide), wide),
{
    assert forall|i: int| 0 <= i < tables[0].1 + tables[0].0 implies #[trigger] r[i] == next[i] by {
        lemma_first_not_in_others(tables, data.len(), i);
    }
    assert forall|j: int| 0 <= j < be32_at(data, tables[0].1 + 12) implies entry_at(
        r,
        #[trigger] entry_index(tables[0].1 + 16, j, wide),
        wide,
    ) == entry_at(next, entry_index(tables[0].1 + 16, j, wide), wide) by {
        let e = entry_index(tables[0].1 + 16, j, wide);
        assert forall|i: int| e <= i < e + entry_width(wide) implies r[i - e + e]
            == #[trigger] next[i] by {
            assert(r[i] == next[i]);
        }
        lemma_same_entry(next, r, e, e, wide);
    }
}

/// An entry of one of the tables behind the first.
proof fn lemma_others_joined(
    data: Seq<u8>,
    tables: Seq<(u64, usize)>,
    wide: bool,
    next: Seq<u8>,
    k: int,
    j: int,
)
    requires
        0 < k < tables.len(),
        plain_table(data, tables[k], wide),
        tables[k].1 + tables[k].0 <= data.len(),
        tables[0].1 + tables[0].0 <= tables[k].1,
        forall|i: int|
            tables[0].1 + tables[0].0 <= i < data.len() ==> #[trigger] next[i] == data[i],
        0 <= j < be32_at(data, tables[k].1 + 12),
    ensures
        entry_at(next, entry_index(tables[k].1 + 16, j, wide), wide) == entry_at(
            data,
            entry_index(tables[k].1 + 16, j, wide),
            wide,
        ),
{
    let e = entry_index(tables[k].1 + 16, j, wide);
    assert forall|i: int| e <= i < e + entry_width(wide) implies next[i - e + e]
        == #[trigger] data[i] by {
        assert(next[i] == data[i]);
    }
    lemma_same_entry(data, next, e, e, wide);
}

/// Moving the entries of tables adds to each entry of them, and changes
/// nothing else.
pub proof fn lemma_shifted_tables(
    data: Seq<u8>,
    tables: Seq<(u64, usize)>,
    wide: bool,
    delta: int,
)
    requires
        0 <= delta,
        apart(tables, data.len()),
        plain_tables(data, tables, wide),
    ensures
        shifted_tables(data, tables, wide, delta).len() == data.len(),
        forall|i: int|
            0 <= i < data.len() && !in_entries(tables, i) ==> #[trigger] shifted_tables(
                data,
                tables,
                wide,
                delta,
            )[i] == data[i],
        entries_moved(data, tables, wide, shifted_tables(data, tables, wide, delta), 0, delta),
        rests_moved(data, tables, wide, shifted_tables(data, tables, wide, delta), 0),
    decreases tables.len(),
{
    if tables.len() > 0 {
        let first = tables[0];
        let next = shifted_table(data, first.1 as int, wide, delta);
        let rest = tables.drop_first();
        let r = shifted_tables(next, rest, wide, delta);
        assert(plain_table(data, first, wide));
        lemma_shifted_entries(data, first.1 + 16, be32_at(data, first.1 + 12), wide, delta);
        lemma_tables_behind_first(data, tables, wide, next);
        lemma_shifted_tables(next, rest, wide, delta);
        lemma_first_joined(data, tables, wide, next, r);
        assert forall|i: int| 0 <= i < data.len() && !in_entries(tables, i) implies #[trigger] r[i]
            == data[i] by {
            lemma_frame_joined(data, tables, next, r, i);
        }
        lemma_tables_joined(data, tables, wide, next, r, delta);
    }
}

/// The entries of all tables, and what is behind them, after the entries of the
/// first and then those of the others are moved.
proof fn lemma_tables_joined(
    data: Seq<u8>,
    tables: Seq<(u64, usize)>,
    wide: bool,
    next: Seq<u8>,
    r: Seq<u8>,
    delta: int,
)
    requires
        tables.len() > 0,
        apart(tables, data.len()),
        plain_tables(data, tables, wide),
        forall|i: int|
            0 <= i < data.len() && (i < tables[0].1 + 16 || entry_index(
                tables[0].1 + 16,
                be32_at(data, tables[0].1 + 12),
                wide,
            ) <= i) ==> #[trigger] next[i] == data[i],
        forall|j: int|
            0 <= j < be32_at(data, tables[0].1 + 12) ==> entry_at(
                next,
                #[trigger] entry_index(tables[0].1 + 16, j, wide),
                wide,
            ) == (entry_at(data, entry_index(tables[0].1 + 16, j, wide), wide) + delta)
                % entry_range(wide),
        forall|k: int|
            0 < k < tables.len() ==> {
                &&& be32_at(next, (#[trigger] tables[k]).1 + 12) == be32_at(data, tables[k].1 + 12)
                &&& tables[0].1 + tables[0].0 <= tables[k].1
            },
        forall|i: int| 0 <= i < tables[0].1 + tables[0].0 ==> #[trigger] r[i] == next[i],
        forall|j: int|
            0 <= j < be32_at(data, tables[0].1 + 12) ==> entry_at(
                r,
                #[trigger] entry_index(tables[0].1 + 16, j, wide),
                wide,
            ) == entry_at(next, entry_index(tables[0].1 + 16, j, wide), wide),
        entries_moved(next, tables.drop_first(), wide, r, 0, delta),
        rests_moved(next, tables.drop_first(), wide, r, 0),
    ensures
        entries_moved(data, tables, wide, r, 0, delta),
        rests_moved(data, tables, wide, r, 0),
{
    let rest = tables.drop_first();
    assert(plain_table(data, tables[0], wide));
    assert forall|k: int, j: int|
        0 <= k < tables.len() && 0 <= j < be32_at(data, tables[k].1 + 12) implies entry_at(
        r,
        #[trigger] entry_index(tables[k].1 + 16, j, wide) + 0,
        wide,
    ) == (entry_at(data, entry_index(tables[k].1 + 16, j, wide), wide) + delta) % entry_range(
        wide,
    ) by {
        if k > 0 {
            assert(plain_table(data, tables[k], wide));
            lemma_others_joined(data, tables, wide, next, k, j);
            assert(rest[k - 1] == tables[k]);
            assert(entry_at(r, entry_index(rest[k - 1].1 + 16, j, wide) + 0, wide) == (entry_at(
                next,
                entry_index(rest[k - 1].1 + 16, j, wide),
                wide,
            ) + delta) % entry_range(wide));
        }
    }
    assert forall|k: int, i: int|
        0 <= k < tables.len() && entry_index(
            (#[trigger] tables[k]).1 + 16,
            be32_at(data, tables[k].1 + 12),
            wide,
        ) <= i < tables[k].1 + tables[k].0 implies r[i + 0] == #[trigger] data[i] by {
        assert(plain_table(data, tables[k], wide));
        lemma_entries_behind_head(data, tables[k].1 as int, wide);
        if k == 0 {
            assert(next[i] == data[i]);
            assert(r[i] == next[i]);
        } else {
            assert(rest[k - 1] == tables[k]);
            assert(next[i] == data[i]);
            assert(r[i + 0] == next[i]);
        }
    }
}

/// The entries of a table end behind its head.
proof fn lemma_entries_behind_head(data: Seq<u8>, t: int, wide: bool)
    ensures
        t + 16 <= entry_index(t + 16, be32_at(data, t + 12), wide),
{
}

/// Whether no table of one list overlaps a table of the other.
pub open spec fn lists_apart(a: Seq<(u64, usize)>, b: Seq<(u64, usize)>) -> bool {
    forall|j: int, k: int|
        0 <= j < a.len() && 0 <= k < b.len() ==> {
            ||| (#[trigger] a[j]).1 + a[j].0 <= (#[trigger] b[k]).1
            ||| b[k].1 + b[k].0 <= a[j].1
        }
}

/// Tables of different kinds do not overlap.
pub proof fn lemma_kinds_apart(data: Seq<u8>, lo: int, hi: int)
    requires
        0 <= lo,
        hi <= usize::MAX,
        plain_media(data, lo, hi),
    ensures
        lists_apart(boxes_in(data, lo, hi, STCO@), boxes_in(data, lo, hi, CO64@)),
    decreases hi - lo,
{
    lemma_types_differ();
    if whole_box_at(data, lo, hi) {
        let size = box_size(data, lo);
        let kind = box_type(data, lo);
        let mid = lo + size;
        let here4 = boxes_here(data, lo, hi, STCO@);
        let here8 = boxes_here(data, lo, hi, CO64@);
        let rest4 = boxes_in(data, mid, hi, STCO@);
        let rest8 = boxes_in(data, mid, hi, CO64@);
        lemma_plain_split(data, here4, rest4, false);
        lemma_plain_split(data, here8, rest8, true);
        lemma_kinds_apart(data, mid, hi);
        law_boxes_in_order(data, mid, hi, STCO@);
        law_boxes_in_order(data, mid, hi, CO64@);
        lemma_here_ends(data, lo, hi, STCO@);
        lemma_here_ends(data, lo, hi, CO64@);
        assert(lists_apart(here4, here8)) by {
            if kind == STCO@ {
                assert(plain_table(data, here4[0], false));
                lemma_nothing_in_table(data, lo, hi, false, CO64@);
            } else if kind == CO64@ {
                assert(plain_table(data, here8[0], true));
                lemma_nothing_in_table(data, lo, hi, true, STCO@);
            } else if may_hold_boxes(kind) && size > 8 {
                lemma_kinds_apart(data, lo + 8, mid);
            }
        }
        let all4 = here4 + rest4;
        let all8 = here8 + rest8;
        assert forall|j: int, k: int| 0 <= j < all4.len() && 0 <= k < all8.len() implies {
            ||| (#[trigger] all4[j]).1 + all4[j].0 <= (#[trigger] all8[k]).1
            ||| all8[k].1 + all8[k].0 <= all4[j].1
        } by {
            let a = if j < here4.len() {
                here4[j]
            } else {
                rest4[j - here4.len()]
            };
            let b = if k < here8.len() {
                here8[k]
            } else {
                rest8[k - here8.len()]
            };
            assert(all4[j] == a && all8[k] == b);
        }
    }
}

/// The tables in the first box of a range end where that box ends.
proof fn lemma_here_ends(data: Seq<u8>, lo: int, hi: int, target: Seq<u8>)
    requires
        whole_box_at(data, lo, hi),
        hi <= usize::MAX,
    ensures
        forall|k: int|
            0 <= k < boxes_here(data, lo, hi, target).len() ==> (#[trigger] boxes_here(
                data,
                lo,
                hi,
                target,
            )[k]).1 + boxes_here(data, lo, hi, target)[k].0 <= lo + box_size(data, lo),
{
    let size = box_size(data, lo);
    if box_type(data, lo) != target && may_hold_boxes(box_type(data, lo)) && size > 8 {
        law_boxes_in_order(data, lo + 8, lo + size, target);
    }
}

/// Entries of one kind are as they were after a change to the entries of the
/// other kind alone.
proof fn lemma_entries_kept(
    data: Seq<u8>,
    tables: Seq<(u64, usize)>,
    changed: Seq<(u64, usize)>,
    wide: bool,
    new: Seq<u8>,
)
    requires
        apart(tables, data.len()),
        lists_apart(tables, changed),
        plain_tables(data, tables, wide),
        new.len() == data.len(),
        forall|i: int|
            0 <= i < data.len() && !in_entries(changed, i) ==> #[trigger] new[i] == data[i],
    ensures
        plain_tables(new, tables, wide),
        forall|k: int|
            0 <= k < tables.len() ==> be32_at(new, (#[trigger] tables[k]).1 + 12) == be32_at(
                data,
                tables[k].1 + 12,
            ),
        forall|k: int, j: int|
            0 <= k < tables.len() && 0 <= j < be32_at(data, tables[k].1 + 12) ==> entry_at(
                new,
                #[trigger] entry_index(tables[k].1 + 16, j, wide),
                wide,
            ) == entry_at(data, entry_index(tables[k].1 + 16, j, wide), wide),
        forall|k: int, i: int|
            0 <= k < tables.len() && (#[trigger] tables[k]).1 <= i < tables[k].1 + tables[k].0
                ==> #[trigger] new[i] == data[i],
{
    assert forall|k: int, i: int|
        0 <= k < tables.len() && (#[trigger] tables[k]).1 <= i < tables[k].1
            + tables[k].0 implies #[trigger] new[i] == data[i] by {
        if in_entries(changed, i) {
            let c = choose|c: int|
                0 <= c < changed.len() && (#[trigger] changed[c]).1 + 16 <= i < changed[c].1
                    + changed[c].0;
            assert(tables[k].1 + tables[k].0 <= changed[c].1 || changed[c].1 + changed[c].0
                <= tables[k].1);
        }
    }
    assert forall|k: int| 0 <= k < tables.len() implies {
        &&& plain_table(new, #[trigger] tables[k], wide)
        &&& be32_at(new, tables[k].1 + 12) == be32_at(data, tables[k].1 + 12)
    } by {
        assert(plain_table(data, tables[k], wide));
        let t = tables[k].1 as int;
        assert(new[t + 8] == data[t + 8] && new[t + 9] == data[t + 9] && new[t + 10] == data[t + 10]
            && new[t + 11] == data[t + 11] && new[t + 12] == data[t + 12] && new[t + 13]
            == data[t + 13] && new[t + 14] == data[t + 14] && new[t + 15] == data[t + 15]);
    }
    assert forall|k: int, j: int|
        0 <= k < tables.len() && 0 <= j < be32_at(data, tables[k].1 + 12) implies entry_at(
        new,
        #[trigger] entry_index(tables[k].1 + 16, j, wide),
        wide,
    ) == entry_at(data, entry_index(tables[k].1 + 16, j, wide), wide) by {
        let e = entry_index(tables[k].1 + 16, j, wide);
        assert(plain_table(data, tables[k], wide));
        assert forall|i: int| e <= i < e + entry_width(wide) implies new[i - e + e]
            == #[trigger] data[i] by {
            assert(tables[k].1 <= i < tables[k].1 + tables[k].0);
            assert(new[i] == data[i]);
        }
        lemma_same_entry(data, new, e, e, wide);
    }
}

/// Entries of one kind that are moved first stay so when those of the other
/// kind are moved.
proof fn lemma_moved_first(
    data: Seq<u8>,
    tables: Seq<(u64, usize)>,
    others: Seq<(u64, usize)>,
    wide: bool,
    d1: Seq<u8>,
    d2: Seq<u8>,
    delta: int,
)
    requires
        apart(tables, data.len()),
        lists_apart(tables, others),
        plain_tables(data, tables, wide),
        d1.len() == data.len(),
        d2.len() == data.len(),
        forall|i: int|
            0 <= i < data.len() && !in_entries(tables, i) ==> #[trigger] d1[i] == data[i],
        forall|i: int|
            0 <= i < data.len() && !in_entries(others, i) ==> #[trigger] d2[i] == d1[i],
        entries_moved(data, tables, wide, d1, 0, delta),
        rests_moved(data, tables, wide, d1, 0),
    ensures
        entries_moved(data, tables, wide, d2, 0, delta),
        rests_moved(data, tables, wide, d2, 0),
{
    assert forall|k: int| 0 <= k < tables.len() implies {
        &&& plain_table(d1, #[trigger] tables[k], wide)
        &&& be32_at(d1, tables[k].1 + 12) == be32_at(data, tables[k].1 + 12)
    } by {
        lemma_table_head_kept(data, tables, k, d1, wide);
    }
    lemma_entries_kept(d1, tables, others, wide, d2);
    assert forall|k: int, j: int|
        0 <= k < tables.len() && 0 <= j < be32_at(data, tables[k].1 + 12) implies entry_at(
        d2,
        #[trigger] entry_index(tables[k].1 + 16, j, wide) + 0,
        wide,
    ) == (entry_at(data, entry_index(tables[k].1 + 16, j, wide), wide) + delta) % entry_range(
        wide,
    ) by {
        assert(be32_at(d1, tables[k].1 + 12) == be32_at(data, tables[k].1 + 12));
        assert(entry_at(d1, entry_index(tables[k].1 + 16, j, wide) + 0, wide) == (entry_at(
            data,
            entry_index(tables[k].1 + 16, j, wide),
            wide,
        ) + delta) % entry_range(wide));
    }
    assert forall|k: int, i: int|
        0 <= k < tables.len() && entry_index(
            (#[trigger] tables[k]).1 + 16,
            be32_at(data, tables[k].1 + 12),
            wide,
        ) <= i < tables[k].1 + tables[k].0 implies d2[i + 0] == #[trigger] data[i] by {
        lemma_entries_behind_head(data, tables[k].1 as int, wide);
        assert(d1[i + 0] == data[i]);
        assert(d2[i] == d1[i]);
    }
}

/// Entries of one kind that are moved after those of the other kind.
proof fn lemma_moved_second(
    data: Seq<u8>,
    tables: Seq<(u64, usize)>,
    others: Seq<(u64, usize)>,
    wide: bool,
    d1: Seq<u8>,
    d2: Seq<u8>,
    delta: int,
)
    requires
        apart(tables, data.len()),
        lists_apart(tables, others),
        plain_tables(data, tables, wide),
        d1.len() == data.len(),
        forall|i: int|
            0 <= i < data.len() && !in_entries(others, i) ==> #[trigger] d1[i] == data[i],
        entries_moved(d1, tables, wide, d2, 0, delta),
        rests_moved(d1, tables, wide, d2, 0),
    ensures
        entries_moved(data, tables, wide, d2, 0, delta),
        rests_moved(data, tables, wide, d2, 0),
{
    lemma_entries_kept(data, tables, others, wide, d1);
    assert forall|k: int, j: int|
        0 <= k < tables.len() && 0 <= j < be32_at(data, tables[k].1 + 12) implies entry_at(
        d2,
        #[trigger] entry_index(tables[k].1 + 16, j, wide) + 0,
        wide,
    ) == (entry_at(data, entry_index(tables[k].1 + 16, j, wide), wide) + delta) % entry_range(
        wide,
    ) by {
        assert(be32_at(d1, tables[k].1 + 12) == be32_at(data, tables[k].1 + 12));
        assert(entry_at(d2, entry_index(tables[k].1 + 16, j, wide) + 0, wide) == (entry_at(
            d1,
            entry_index(tables[k].1 + 16, j, wide),
            wide,
        ) + delta) % entry_range(wide));
    }
    assert forall|k: int, i: int|
        0 <= k < tables.len() && entry_index(
            (#[trigger] tables[k]).1 + 16,
            be32_at(data, tables[k].1 + 12),
            wide,
        ) <= i < tables[k].1 + tables[k].0 implies d2[i + 0] == #[trigger] data[i] by {
        assert(be32_at(d1, tables[k].1 + 12) == be32_at(data, tables[k].1 + 12));
        lemma_entries_behind_head(data, tables[k].1 as int, wide);
        assert(d1[i] == data[i]);
        assert(d2[i + 0] == d1[i]);
    }
}

/// The tables of both kinds stand apart.
proof fn lemma_all_apart(data: Seq<u8>)
    requires
        data.len() <= usize::MAX,
        plain_media(data, 0, data.len() as int),
    ensures
        apart(boxes_in(data, 0, data.len() as int, STCO@), data.len()),
        apart(boxes_in(data, 0, data.len() as int, CO64@), data.len()),
        lists_apart(
            boxes_in(data, 0, data.len() as int, STCO@),
            boxes_in(data, 0, data.len() as int, CO64@),
        ),
        lists_apart(
            boxes_in(data, 0, data.len() as int, CO64@),
            boxes_in(data, 0, data.len() as int, STCO@),
        ),
{
    let len = data.len() as int;
    law_boxes_in_order(data, 0, len, STCO@);
    law_boxes_in_order(data, 0, len, CO64@);
    lemma_kinds_apart(data, 0, len);
    lemma_lists_apart(boxes_in(data, 0, len, STCO@), boxes_in(data, 0, len, CO64@));
}

/// Which of two lists comes first does not matter.
proof fn lemma_lists_apart(a: Seq<(u64, usize)>, b: Seq<(u64, usize)>)
    requires
        lists_apart(a, b),
    ensures
        lists_apart(b, a),
{
    assert forall|j: int, k: int| 0 <= j < b.len() && 0 <= k < a.len() implies {
        ||| (#[trigger] b[j]).1 + b[j].0 <= (#[trigger] a[k]).1
        ||| a[k].1 + a[k].0 <= b[j].1
    } by {
        assert(a[k].1 + a[k].0 <= b[j].1 || b[j].1 + b[j].0 <= a[k].1);
    }
}

/// A search for `co64` tables comes by the same ones after the entries of the
/// `stco` tables are changed.
proof fn lemma_wide_tables_stay(data: Seq<u8>, d1: Seq<u8>)
    requires
        data.len() <= usize::MAX,
        plain_media(data, 0, data.len() as int),
        d1.len() == data.len(),
        forall|i: int|
            0 <= i < data.len() && !in_entries(boxes_in(data, 0, data.len() as int, STCO@), i)
                ==> #[trigger] d1[i] == data[i],
    ensures
        boxes_in(d1, 0, data.len() as int, CO64@) == boxes_in(data, 0, data.len() as int, CO64@),
{
    let len = data.len() as int;
    let wide = boxes_in(data, 0, len, CO64@);
    assert(frame_moved(data, 0, len, d1, 0)) by {
        assert forall|i: int|
            0 <= i < len && !in_entries(boxes_in(data, 0, len, STCO@), i) && !in_entries(
                wide,
                i,
            ) implies d1[i + 0] == #[trigger] data[i] by {
            assert(d1[i] == data[i]);
        }
    }
    lemma_walk_moved(data, 0, len, d1, 0);
    assert(list_moved(wide, 0) =~= wide);
}

/// Moving the entries of two lists of tables, one list after the other.
proof fn lemma_both_kinds_moved(
    data: Seq<u8>,
    narrow: Seq<(u64, usize)>,
    wide: Seq<(u64, usize)>,
    delta: int,
)
    requires
        0 <= delta,
        apart(narrow, data.len()),
        apart(wide, data.len()),
        lists_apart(narrow, wide),
        lists_apart(wide, narrow),
        plain_tables(data, narrow, false),
        plain_tables(data, wide, true),
    ensures
        ({
            let d1 = shifted_tables(data, narrow, false, delta);
            let d2 = shifted_tables(d1, wide, true, delta);
            &&& d2.len() == data.len()
            &&& forall|i: int|
                0 <= i < data.len() && !in_entries(narrow, i) && !in_entries(wide, i)
                    ==> #[trigger] d2[i] == data[i]
            &&& entries_moved(data, narrow, false, d2, 0, delta)
            &&& entries_moved(data, wide, true, d2, 0, delta)
            &&& rests_moved(data, narrow, false, d2, 0)
            &&& rests_moved(data, wide, true, d2, 0)
        }),
{
    let d1 = shifted_tables(data, narrow, false, delta);
    let d2 = shifted_tables(d1, wide, true, delta);
    lemma_shifted_tables(data, narrow, false, delta);
    lemma_entries_kept(data, wide, narrow, true, d1);
    lemma_shifted_tables(d1, wide, true, delta);
    lemma_moved_first(data, narrow, wide, false, d1, d2, delta);
    lemma_moved_second(data, wide, narrow, true, d1, d2, delta);
    assert forall|i: int|
        0 <= i < data.len() && !in_entries(narrow, i) && !in_entries(wide, i) implies
        #[trigger] d2[i] == data[i] by {
        assert(d1[i] == data[i]);
    }
}

/// Moving the file offsets adds to each entry of each table, and changes
/// nothing else.
pub proof fn law_shifted_offsets(data: Seq<u8>, delta: int)
    requires
        0 <= delta,
        data.len() <= usize::MAX,
        plain_media(data, 0, data.len() as int),
    ensures
        media_moved(data, 0, data.len() as int, shifted_offsets(data, delta), 0, delta),
{
    let len = data.len() as int;
    let narrow = boxes_in(data, 0, len, STCO@);
    let wide = boxes_in(data, 0, len, CO64@);
    let d1 = shifted_kind(data, false, delta);
    let d2 = shifted_offsets(data, delta);
    lemma_all_apart(data);
    lemma_shifted_tables(data, narrow, false, delta);
    lemma_wide_tables_stay(data, d1);
    lemma_both_kinds_moved(data, narrow, wide, delta);
    assert forall|i: int|
        0 <= i < len && !in_entries(narrow, i) && !in_entries(wide, i) implies d2[i + 0]
        == #[trigger] data[i] by {
        assert(d2[i] == data[i]);
    }
}

/// The head of a table, up to its entries, is as it was after a change to
/// entries of tables that stand apart.
proof fn lemma_table_head_kept(
    data: Seq<u8>,
    tables: Seq<(u64, usize)>,
    k: int,
    new: Seq<u8>,
    wide: bool,
)
    requires
        0 <= k < tables.len(),
        apart(tables, data.len()),
        plain_tables(data, tables, wide),
        new.len() == data.len(),
        forall|i: int|
            0 <= i < data.len() && !in_entries(tables, i) ==> #[trigger] new[i] == data[i],
    ensures
        plain_table(new, tables[k], wide),
        be32_at(new, tables[k].1 + 12) == be32_at(data, tables[k].1 + 12),
{
    let t = tables[k].1 as int;
    assert(plain_table(data, tables[k], wide));
    assert forall|i: int| t <= i < t + 16 implies #[trigger] new[i] == data[i] by {
        if in_entries(tables, i) {
            let c = choose|c: int|
                0 <= c < tables.len() && (#[trigger] tables[c]).1 + 16 <= i < tables[c].1
                    + tables[c].0;
            if c < k {
                assert(tables[c].1 + tables[c].0 <= tables[k].1);
            } else if k < c {
                assert(tables[k].1 + tables[k].0 <= tables[c].1);
            }
        }
    }
    assert(new[t + 8] == data[t + 8] && new[t + 9] == data[t + 9] && new[t + 10] == data[t + 10]
        && new[t + 11] == data[t + 11] && new[t + 12] == data[t + 12] && new[t + 13] == data[t + 13]
        && new[t + 14] == data[t + 14] && new[t + 15] == data[t + 15]);
}

/// The index of an entry moves as its table does.
proof fn lemma_in_entries_moved(tables: Seq<(u64, usize)>, shift: int, i: int)
    requires
        forall|k: int|
            0 <= k < tables.len() ==> 0 <= (#[trigger] tables[k]).1 + shift <= usize::MAX,
    ensures
        in_entries(list_moved(tables, shift), i + shift) == in_entries(tables, i),
{
    let moved = list_moved(tables, shift);
    if in_entries(tables, i) {
        let k = choose|k: int|
            0 <= k < tables.len() && (#[trigger] tables[k]).1 + 16 <= i < tables[k].1 + tables[k].0;
        assert(moved[k].1 == tables[k].1 + shift);
    }
    if in_entries(moved, i + shift) {
        let k = choose|k: int|
            0 <= k < moved.len() && (#[trigger] moved[k]).1 + 16 <= i + shift < moved[k].1
                + moved[k].0;
        assert(moved[k].1 == tables[k].1 + shift);
    }
}

/// Four bytes that are the same at another index are the same number.
proof fn lemma_be32_moved(old: Seq<u8>, new: Seq<u8>, at: int, shift: int)
    requires
        forall|i: int| at <= i < at + 4 ==> new[i + shift] == #[trigger] old[i],
    ensures
        be32_at(new, at + shift) == be32_at(old, at),
{
    assert(new[at + shift] == old[at] && new[at + 1 + shift] == old[at + 1] && new[at + 2 + shift]
        == old[at + 2] && new[at + 3 + shift] == old[at + 3]);
}

/// No byte of the head of a table is in the entries of a table.
proof fn lemma_head_not_in_entries(
    old: Seq<u8>,
    lo: int,
    hi: int,
    tables: Seq<(u64, usize)>,
    wide: bool,
    k: int,
    i: int,
)
    requires
        0 <= lo,
        hi <= old.len() <= usize::MAX,
        plain_media(old, lo, hi),
        wide ==> tables == boxes_in(old, lo, hi, CO64@),
        !wide ==> tables == boxes_in(old, lo, hi, STCO@),
        0 <= k < tables.len(),
        tables[k].1 <= i < tables[k].1 + 16,
    ensures
        lo <= i < hi,
        tables[k].1 + tables[k].0 <= hi,
        !in_entries(boxes_in(old, lo, hi, STCO@), i),
        !in_entries(boxes_in(old, lo, hi, CO64@), i),
{
    let narrow = boxes_in(old, lo, hi, STCO@);
    let broad = boxes_in(old, lo, hi, CO64@);
    law_boxes_in_order(old, lo, hi, STCO@);
    law_boxes_in_order(old, lo, hi, CO64@);
    lemma_kinds_apart(old, lo, hi);
    assert(plain_table(old, tables[k], wide));
    if in_entries(narrow, i) {
        let c = choose|c: int|
            0 <= c < narrow.len() && (#[trigger] narrow[c]).1 + 16 <= i < narrow[c].1 + narrow[c].0;
        if wide {
            assert(narrow[c].1 + narrow[c].0 <= broad[k].1 || broad[k].1 + broad[k].0
                <= narrow[c].1);
        } else if c < k {
            assert(narrow[c].1 + narrow[c].0 <= narrow[k].1);
        } else if k < c {
            assert(narrow[k].1 + narrow[k].0 <= narrow[c].1);
        }
    }
    if in_entries(broad, i) {
        let c = choose|c: int|
            0 <= c < broad.len() && (#[trigger] broad[c]).1 + 16 <= i < broad[c].1 + broad[c].0;
        if !wide {
            assert(narrow[k].1 + narrow[k].0 <= broad[c].1 || broad[c].1 + broad[c].0
                <= narrow[k].1);
        } else if c < k {
            assert(broad[c].1 + broad[c].0 <= broad[k].1);
        } else if k < c {
            assert(broad[k].1 + broad[k].0 <= broad[c].1);
        }
    }
}

/// The heads of the tables of one kind are the same where the data has moved
/// to.
proof fn lemma_heads_moved(
    old: Seq<u8>,
    lo: int,
    hi: int,
    new: Seq<u8>,
    shift: int,
    tables: Seq<(u64, usize)>,
    wide: bool,
)
    requires
        frame_moved(old, lo, hi, new, shift),
        plain_media(old, lo, hi),
        wide ==> tables == boxes_in(old, lo, hi, CO64@),
        !wide ==> tables == boxes_in(old, lo, hi, STCO@),
    ensures
        forall|k: int|
            0 <= k < tables.len() ==> {
                &&& lo <= (#[trigger] tables[k]).1
                &&& tables[k].1 + tables[k].0 <= hi
                &&& 0 <= tables[k].1 + shift <= usize::MAX
                &&& be32_at(new, tables[k].1 + shift + 12) == be32_at(old, tables[k].1 + 12)
                &&& be32_at(new, tables[k].1 + shift + 8) == be32_at(old, tables[k].1 + 8)
            },
{
    assert forall|k: int| 0 <= k < tables.len() implies {
        &&& lo <= (#[trigger] tables[k]).1
        &&& tables[k].1 + tables[k].0 <= hi
        &&& 0 <= tables[k].1 + shift <= usize::MAX
        &&& be32_at(new, tables[k].1 + shift + 12) == be32_at(old, tables[k].1 + 12)
        &&& be32_at(new, tables[k].1 + shift + 8) == be32_at(old, tables[k].1 + 8)
    } by {
        let t = tables[k].1 as int;
        lemma_head_not_in_entries(old, lo, hi, tables, wide, k, t);
        assert forall|i: int| t <= i < t + 16 implies new[i + shift] == #[trigger] old[i] by {
            lemma_head_not_in_entries(old, lo, hi, tables, wide, k, i);
        }
        lemma_be32_moved(old, new, t + 8, shift);
        lemma_be32_moved(old, new, t + 12, shift);
        assert(t + 8 + shift == t + shift + 8 && t + 12 + shift == t + shift + 12);
    }
}

/// Tables as files have them are such tables where the data has moved to.
pub proof fn lemma_plain_moved(old: Seq<u8>, lo: int, hi: int, new: Seq<u8>, shift: int)
    requires
        frame_moved(old, lo, hi, new, shift),
        plain_media(old, lo, hi),
    ensures
        plain_media(new, lo + shift, hi + shift),
{
    lemma_walk_moved(old, lo, hi, new, shift);
    let narrow = boxes_in(old, lo, hi, STCO@);
    let wide = boxes_in(old, lo, hi, CO64@);
    lemma_heads_moved(old, lo, hi, new, shift, narrow, false);
    lemma_heads_moved(old, lo, hi, new, shift, wide, true);
    assert forall|k: int| 0 <= k < narrow.len() implies plain_table(
        new,
        #[trigger] list_moved(narrow, shift)[k],
        false,
    ) by {
        assert(plain_table(old, narrow[k], false));
    }
    assert forall|k: int| 0 <= k < wide.len() implies plain_table(
        new,
        #[trigger] list_moved(wide, shift)[k],
        true,
    ) by {
        assert(plain_table(old, wide[k], true));
    }
}

/// Adding twice, modulo `m`, is adding the sum.
proof fn lemma_add_twice(x: int, d1: int, d2: int, m: int)
    requires
        m > 0,
    ensures
        ((x + d1) % m + d2) % m == (x + (d1 + d2)) % m,
{
    vstd::arithmetic::div_mod::lemma_add_mod_noop(x + d1, d2, m);
    vstd::arithmetic::div_mod::lemma_add_mod_noop((x + d1) % m, d2, m);
    vstd::arithmetic::div_mod::lemma_mod_twice(x + d1, m);
}

/// Entries that move twice have moved by the sum.
proof fn lemma_entries_moved_twice(
    a: Seq<u8>,
    tables: Seq<(u64, usize)>,
    wide: bool,
    b: Seq<u8>,
    s1: int,
    d1: int,
    c: Seq<u8>,
    s2: int,
    d2: int,
)
    requires
        entries_moved(a, tables, wide, b, s1, d1),
        entries_moved(b, list_moved(tables, s1), wide, c, s2, d2),
        forall|k: int|
            0 <= k < tables.len() ==> {
                &&& 0 <= (#[trigger] tables[k]).1 + s1 <= usize::MAX
                &&& be32_at(b, tables[k].1 + s1 + 12) == be32_at(a, tables[k].1 + 12)
            },
    ensures
        entries_moved(a, tables, wide, c, s1 + s2, d1 + d2),
{
    let moved = list_moved(tables, s1);
    assert forall|k: int, j: int|
        0 <= k < tables.len() && 0 <= j < be32_at(a, tables[k].1 + 12) implies entry_at(
        c,
        #[trigger] entry_index(tables[k].1 + 16, j, wide) + (s1 + s2),
        wide,
    ) == (entry_at(a, entry_index(tables[k].1 + 16, j, wide), wide) + (d1 + d2)) % entry_range(
        wide,
    ) by {
        let e = entry_index(tables[k].1 + 16, j, wide);
        assert(moved[k].1 == tables[k].1 + s1);
        assert(entry_at(b, e + s1, wide) == (entry_at(a, e, wide) + d1) % entry_range(wide));
        assert(entry_index(moved[k].1 + 16, j, wide) == e + s1);
        assert(entry_at(c, entry_index(moved[k].1 + 16, j, wide) + s2, wide) == (entry_at(
            b,
            entry_index(moved[k].1 + 16, j, wide),
            wide,
        ) + d2) % entry_range(wide));
        lemma_add_twice(entry_at(a, e, wide), d1, d2, entry_range(wide));
    }
}

/// What is behind entries that move twice has moved by the sum.
proof fn lemma_rests_moved_twice(
    a: Seq<u8>,
    tables: Seq<(u64, usize)>,
    wide: bool,
    b: Seq<u8>,
    s1: int,
    c: Seq<u8>,
    s2: int,
)
    requires
        rests_moved(a, tables, wide, b, s1),
        rests_moved(b, list_moved(tables, s1), wide, c, s2),
        forall|k: int|
            0 <= k < tables.len() ==> {
                &&& 0 <= (#[trigger] tables[k]).1 + s1 <= usize::MAX
                &&& be32_at(b, tables[k].1 + s1 + 12) == be32_at(a, tables[k].1 + 12)
            },
    ensures
        rests_moved(a, tables, wide, c, s1 + s2),
{
    let moved = list_moved(tables, s1);
    assert forall|k: int, i: int|
        0 <= k < tables.len() && entry_index(
            (#[trigger] tables[k]).1 + 16,
            be32_at(a, tables[k].1 + 12),
            wide,
        ) <= i < tables[k].1 + tables[k].0 implies c[i + (s1 + s2)] == #[trigger] a[i] by {
        assert(moved[k].1 == tables[k].1 + s1 && moved[k].0 == tables[k].0);
        assert(b[i + s1] == a[i]);
        assert(c[(i + s1) + s2] == b[i + s1]);
    }
}

/// Media data that moves twice has moved by the sum, and so have the file
/// offsets in it.
pub proof fn law_media_moved_twice(
    a: Seq<u8>,
    lo: int,
    hi: int,
    b: Seq<u8>,
    s1: int,
    d1: int,
    c: Seq<u8>,
    s2: int,
    d2: int,
)
    requires
        plain_media(a, lo, hi),
        media_moved(a, lo, hi, b, s1, d1),
        media_moved(b, lo + s1, hi + s1, c, s2, d2),
    ensures
        media_moved(a, lo, hi, c, s1 + s2, d1 + d2),
        plain_media(b, lo + s1, hi + s1),
{
    let narrow = boxes_in(a, lo, hi, STCO@);
    let wide = boxes_in(a, lo, hi, CO64@);
    assert(frame_moved(a, lo, hi, b, s1));
    lemma_walk_moved(a, lo, hi, b, s1);
    lemma_plain_moved(a, lo, hi, b, s1);
    lemma_heads_moved(a, lo, hi, b, s1, narrow, false);
    lemma_heads_moved(a, lo, hi, b, s1, wide, true);
    assert forall|i: int|
        lo <= i < hi && !in_entries(narrow, i) && !in_entries(wide, i) implies c[i + (s1 + s2)]
        == #[trigger] a[i] by {
        lemma_in_entries_moved(narrow, s1, i);
        lemma_in_entries_moved(wide, s1, i);
        assert(b[i + s1] == a[i]);
        assert(c[(i + s1) + s2] == b[i + s1]);
    }
    lemma_entries_moved_twice(a, narrow, false, b, s1, d1, c, s2, d2);
    lemma_entries_moved_twice(a, wide, true, b, s1, d1, c, s2, d2);
    lemma_rests_moved_twice(a, narrow, false, b, s1, c, s2);
    lemma_rests_moved_twice(a, wide, true, b, s1, c, s2);
}

/// Media data that is copied to another place has moved there, with its file
/// offsets as they were.
pub proof fn law_media_copied(a: Seq<u8>, lo: int, hi: int, b: Seq<u8>, shift: int)
    requires
        0 <= lo <= hi <= a.len() <= usize::MAX,
        0 <= lo + shift,
        hi + shift <= b.len() <= usize::MAX,
        plain_media(a, lo, hi),
        forall|i: int| lo <= i < hi ==> b[i + shift] == #[trigger] a[i],
    ensures
        media_moved(a, lo, hi, b, shift, 0),
{
    law_boxes_in_order(a, lo, hi, STCO@);
    law_boxes_in_order(a, lo, hi, CO64@);
    lemma_entries_copied(a, lo, hi, boxes_in(a, lo, hi, STCO@), false, b, shift);
    lemma_entries_copied(a, lo, hi, boxes_in(a, lo, hi, CO64@), true, b, shift);
}

/// Entries that are copied to another place are as they were.
proof fn lemma_entries_copied(
    a: Seq<u8>,
    lo: int,
    hi: int,
    tables: Seq<(u64, usize)>,
    wide: bool,
    b: Seq<u8>,
    shift: int,
)
    requires
        plain_tables(a, tables, wide),
        forall|k: int|
            0 <= k < tables.len() ==> lo <= (#[trigger] tables[k]).1 && tables[k].1 + tables[k].0
                <= hi,
        forall|i: int| lo <= i < hi ==> b[i + shift] == #[trigger] a[i],
    ensures
        entries_moved(a, tables, wide, b, shift, 0),
        rests_moved(a, tables, wide, b, shift),
{
    assert forall|k: int, i: int|
        0 <= k < tables.len() && entry_index(
            (#[trigger] tables[k]).1 + 16,
            be32_at(a, tables[k].1 + 12),
            wide,
        ) <= i < tables[k].1 + tables[k].0 implies b[i + shift] == #[trigger] a[i] by {
        assert(0 <= be32_at(a, tables[k].1 + 12));
    }
    assert forall|k: int, j: int|
        0 <= k < tables.len() && 0 <= j < be32_at(a, tables[k].1 + 12) implies entry_at(
        b,
        #[trigger] entry_index(tables[k].1 + 16, j, wide) + shift,
        wide,
    ) == (entry_at(a, entry_index(tables[k].1 + 16, j, wide), wide) + 0) % entry_range(wide) by {
        let e = entry_index(tables[k].1 + 16, j, wide);
        assert(plain_table(a, tables[k], wide));
        assert forall|i: int| e <= i < e + entry_width(wide) implies b[i - e + (e + shift)]
            == #[trigger] a[i] by {
            assert(b[i + shift] == a[i]);
        }
        lemma_same_entry(a, b, e, e + shift, wide);
        assert(0 <= entry_at(a, e, wide) < entry_range(wide));
    }
}

/// Four bytes are known by the number that they are.
proof fn lemma_be32_bytes_known(a: Seq<u8>, b: Seq<u8>, at: int, i: int)
    requires
        be32_at(a, at) == be32_at(b, at),
        at <= i < at + 4,
    ensures
        a[i] == b[i],
{
    let high = |s: Seq<u8>| s[at] * 0x100 + s[at + 1];
    let low = |s: Seq<u8>| s[at + 2] * 0x100 + s[at + 3];
    assert(be32_at(a, at) == high(a) * 0x1_0000 + low(a));
    assert(be32_at(b, at) == high(b) * 0x1_0000 + low(b));
    assert(high(a) == high(b) && low(a) == low(b));
}

/// The bytes of an entry are known by the number that it is.
proof fn lemma_entry_known(a: Seq<u8>, b: Seq<u8>, at: int, wide: bool, i: int)
    requires
        entry_at(a, at, wide) == entry_at(b, at, wide),
        at <= i < at + entry_width(wide),
    ensures
        a[i] == b[i],
{
    if wide {
        assert(0 <= be32_at(a, at + 4) < 0x1_0000_0000);
        assert(0 <= be32_at(b, at + 4) < 0x1_0000_0000);
        assert(be32_at(a, at) == be32_at(b, at));
        if i < at + 4 {
            lemma_be32_bytes_known(a, b, at, i);
        } else {
            lemma_be32_bytes_known(a, b, at + 4, i);
        }
    } else {
        lemma_be32_bytes_known(a, b, at, i);
    }
}

/// A byte of a table whose entries keep their values stays as it is.
proof fn lemma_byte_in_table_kept(
    old: Seq<u8>,
    tables: Seq<(u64, usize)>,
    wide: bool,
    new: Seq<u8>,
    k: int,
    i: int,
)
    requires
        entries_moved(old, tables, wide, new, 0, 0),
        rests_moved(old, tables, wide, new, 0),
        0 <= k < tables.len(),
        tables[k].1 + 16 <= i < tables[k].1 + tables[k].0,
    ensures
        new[i] == old[i],
{
    let at = tables[k].1 + 16;
    let n = be32_at(old, tables[k].1 + 12);
    if entry_index(at, n, wide) <= i {
        assert(new[i + 0] == old[i]);
    } else {
        let j = (i - at) / entry_width(wide);
        let e = entry_index(at, j, wide);
        assert(e <= i < e + entry_width(wide));
        assert(0 <= j < n);
        assert(entry_at(new, entry_index(tables[k].1 + 16, j, wide) + 0, wide) == (entry_at(
            old,
            e,
            wide,
        ) + 0) % entry_range(wide));
        lemma_entry_in_range(old, e, wide);
        lemma_entry_known(old, new, e, wide, i);
    }
}

/// An entry is one of the values that an entry can have.
proof fn lemma_entry_in_range(data: Seq<u8>, at: int, wide: bool)
    ensures
        0 <= entry_at(data, at, wide) < entry_range(wide),
        entry_at(data, at, wide) % entry_range(wide) == entry_at(data, at, wide),
{
    assert(0 <= be32_at(data, at) < 0x1_0000_0000);
    assert(0 <= be32_at(data, at + 4) < 0x1_0000_0000);
}

/// Media data that has not moved, and whose file offsets have not, is the same.
pub proof fn law_media_not_moved(old: Seq<u8>, new: Seq<u8>)
    requires
        media_moved(old, 0, old.len() as int, new, 0, 0),
        new.len() == old.len(),
    ensures
        new == old,
{
    let hi = old.len() as int;
    let narrow = boxes_in(old, 0, hi, STCO@);
    let wide = boxes_in(old, 0, hi, CO64@);
    assert forall|i: int| 0 <= i < hi implies new[i] == old[i] by {
        if in_entries(narrow, i) {
            let k = choose|k: int|
                0 <= k < narrow.len() && (#[trigger] narrow[k]).1 + 16 <= i < narrow[k].1
                    + narrow[k].0;
            lemma_byte_in_table_kept(old, narrow, false, new, k, i);
        } else if in_entries(wide, i) {
            let k = choose|k: int|
                0 <= k < wide.len() && (#[trigger] wide[k]).1 + 16 <= i < wide[k].1 + wide[k].0;
            lemma_byte_in_table_kept(old, wide, true, new, k, i);
        } else {
            assert(new[i + 0] == old[i]);
        }
    }
    assert(new =~= old);
}

} // verus!
