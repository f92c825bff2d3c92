//! The media data of a polyglot file, and the file offsets that lead to it.
use crate::bytes::be32_at;
use crate::laws::boxes::{
    is_path, law_box_header, law_box_types, law_search_complete, word_at,
};
use crate::laws::layout::{law_page_and_extra, sizes_hold};
use crate::laws::{
    lemma_boxes_behind_carrier, lemma_boxes_placed, lemma_built, starts_with_carrier,
};
use crate::mp4::box_ops::{boxes_in, CO64, STCO};
use crate::mp4::media::{
    entries_moved, entry_index, entry_range, in_entries, law_media_copied, law_media_moved_twice,
    law_media_not_moved, law_shifted_offsets, lemma_plain_moved, media_moved, plain_media,
};
use crate::mp4::offset::{entry_at, law_entry, law_shifted_offsets_len, shifted_offsets};
use crate::outcome::Build;
use crate::polyglot::{
    draft_header, lemma_boxes_behind_ftyp, lemma_draft_is_ftyp, lemma_ftyp_kept, starts_with_ftyp,
    Parts,
};
use crate::utils::box_size;
use vstd::prelude::*;

verus! {

/// The tables of one kind that a search between the indices `lo` and `hi`
/// comes by.
pub open spec fn tables_in(data: Seq<u8>, lo: int, hi: int, wide: bool) -> Seq<(u64, usize)> {
    if wide {
        boxes_in(data, lo, hi, CO64@)
    } else {
        boxes_in(data, lo, hi, STCO@)
    }
}

/// The index of entry `j` of table `k` of one kind.
pub open spec fn table_entry_index(
    data: Seq<u8>,
    lo: int,
    hi: int,
    wide: bool,
    k: int,
    j: int,
) -> int {
    entry_index(tables_in(data, lo, hi, wide)[k].1 + 16, j, wide)
}

/// The file offset in entry `j` of table `k` of one kind.
pub open spec fn table_entry(
    data: Seq<u8>,
    lo: int,
    hi: int,
    wide: bool,
    k: int,
    j: int,
) -> int {
    entry_at(data, table_entry_index(data, lo, hi, wide, k, j), wide)
}

/// Whether table `k` of one kind has an entry `j`, and the file offset in it
/// leads to a byte between the indices `lo` and `hi` that is in no table.
pub open spec fn leads_to_media(
    data: Seq<u8>,
    lo: int,
    hi: int,
    wide: bool,
    k: int,
    j: int,
) -> bool {
    let tables = tables_in(data, lo, hi, wide);
    let offset = table_entry(data, lo, hi, wide, k, j);
    &&& 0 <= k < tables.len()
    &&& 0 <= j < be32_at(data, tables[k].1 + 12)
    &&& lo <= offset < hi
    &&& !in_entries(tables_in(data, lo, hi, false), offset)
    &&& !in_entries(tables_in(data, lo, hi, true), offset)
}

/// Numbers that differ by a multiple of `m` move an entry to the same value.
proof fn lemma_same_delta(x: int, d1: int, d2: int, m: int)
    requires
        m > 0,
        d1 % m == d2 % m,
    ensures
        (x + d1) % m == (x + d2) % m,
{
    vstd::arithmetic::div_mod::lemma_add_mod_noop(x, d1, m);
    vstd::arithmetic::div_mod::lemma_add_mod_noop(x, d2, m);
}

/// Numbers that are the same modulo two to the power of 64 are the same modulo
/// two to the power of 32.
proof fn lemma_same_low_bits(d1: int, d2: int)
    requires
        d1 % 0x1_0000_0000_0000_0000 == d2 % 0x1_0000_0000_0000_0000,
    ensures
        d1 % 0x1_0000_0000 == d2 % 0x1_0000_0000,
{
    vstd::arithmetic::div_mod::lemma_mod_mod(d1, 0x1_0000_0000, 0x1_0000_0000);
    vstd::arithmetic::div_mod::lemma_mod_mod(d2, 0x1_0000_0000, 0x1_0000_0000);
}

/// Entries that moved by a number moved by any other that is the same modulo
/// two to the power of 64.
proof fn lemma_entries_same_delta(
    old: Seq<u8>,
    tables: Seq<(u64, usize)>,
    wide: bool,
    new: Seq<u8>,
    shift: int,
    d1: int,
    d2: int,
)
    requires
        entries_moved(old, tables, wide, new, shift, d1),
        d1 % 0x1_0000_0000_0000_0000 == d2 % 0x1_0000_0000_0000_0000,
    ensures
        entries_moved(old, tables, wide, new, shift, d2),
{
    let m = entry_range(wide);
    lemma_same_low_bits(d1, d2);
    assert forall|k: int, j: int|
        0 <= k < tables.len() && 0 <= j < be32_at(old, tables[k].1 + 12) implies entry_at(
        new,
        #[trigger] entry_index(tables[k].1 + 16, j, wide) + shift,
        wide,
    ) == (entry_at(old, entry_index(tables[k].1 + 16, j, wide), wide) + d2) % entry_range(
        wide,
    ) by {
        let e = entry_index(tables[k].1 + 16, j, wide);
        assert(entry_at(new, e + shift, wide) == (entry_at(old, e, wide) + d1) % m);
        lemma_same_delta(entry_at(old, e, wide), d1, d2, m);
    }
}

/// Moving the file offsets of a file whose tables all stand behind index `lo`.
proof fn lemma_offsets_moved_behind(data: Seq<u8>, lo: int, delta: int)
    requires
        0 <= delta,
        0 <= lo <= data.len() <= usize::MAX,
        plain_media(data, lo, data.len() as int),
        boxes_in(data, 0, data.len() as int, STCO@) == boxes_in(
            data,
            lo,
            data.len() as int,
            STCO@,
        ),
        boxes_in(data, 0, data.len() as int, CO64@) == boxes_in(
            data,
            lo,
            data.len() as int,
            CO64@,
        ),
    ensures
        media_moved(data, lo, data.len() as int, shifted_offsets(data, delta), 0, delta),
        plain_media(shifted_offsets(data, delta), lo, data.len() as int),
{
    law_shifted_offsets(data, delta);
    lemma_plain_moved(data, lo, data.len() as int, shifted_offsets(data, delta), 0);
}

/// Media data that is copied `shift` bytes further on and whose file offsets
/// are then moved.
proof fn lemma_copied_and_moved(a: Seq<u8>, lo: int, b: Seq<u8>, shift: int, delta: int)
    requires
        0 <= delta,
        0 <= lo <= a.len() <= usize::MAX,
        0 <= lo + shift,
        a.len() + shift == b.len(),
        b.len() <= usize::MAX,
        plain_media(a, lo, a.len() as int),
        forall|i: int| lo <= i < a.len() ==> b[i + shift] == #[trigger] a[i],
        boxes_in(b, 0, b.len() as int, STCO@) == boxes_in(
            b,
            lo + shift,
            b.len() as int,
            STCO@,
        ),
        boxes_in(b, 0, b.len() as int, CO64@) == boxes_in(
            b,
            lo + shift,
            b.len() as int,
            CO64@,
        ),
    ensures
        media_moved(a, lo, a.len() as int, shifted_offsets(b, delta), shift, delta),
        plain_media(shifted_offsets(b, delta), lo + shift, b.len() as int),
{
    let hi = a.len() as int;
    law_media_copied(a, lo, hi, b, shift);
    lemma_plain_moved(a, lo, hi, b, shift);
    lemma_offsets_moved_behind(b, lo + shift, delta);
    law_media_moved_twice(a, lo, hi, b, shift, 0, shifted_offsets(b, delta), 0, delta);
}

/// The media data behind the first box moves with the file offsets in it when
/// that box makes way for 288 bytes.
proof fn lemma_media_behind_new_ftyp(parts: Parts)
    requires
        parts.sizes_fit(),
        parts.has_first_box(),
        plain_media(parts.mp4, box_size(parts.mp4, 0), parts.mp4.len() as int),
    ensures
        ({
            let size = box_size(parts.mp4, 0);
            let hi = parts.mp4.len() as int;
            let s1 = parts.with_new_ftyp();
            &&& s1.len() == hi - size + 288
            &&& media_moved(parts.mp4, size, hi, s1, 288 - size, parts.ftyp_delta())
            &&& plain_media(s1, 288, s1.len() as int)
        }),
{
    lemma_draft_is_ftyp(parts.png.len() as int, parts.mp4.skip(box_size(parts.mp4, 0)));
    lemma_media_behind_start(
        parts.mp4,
        box_size(parts.mp4, 0),
        draft_header(parts.png.len() as int),
        parts.ftyp_delta(),
    );
}

/// The same with any 288 bytes that are one `ftyp` box.
proof fn lemma_media_behind_start(mp4: Seq<u8>, size: int, start: Seq<u8>, delta: int)
    requires
        0 <= delta,
        0 <= size <= mp4.len(),
        start.len() == 288,
        mp4.len() + 288 <= usize::MAX,
        starts_with_ftyp(start + mp4.skip(size)),
        plain_media(mp4, size, mp4.len() as int),
    ensures
        ({
            let s1 = shifted_offsets(start + mp4.skip(size), delta);
            &&& s1.len() == mp4.len() - size + 288
            &&& media_moved(mp4, size, mp4.len() as int, s1, 288 - size, delta)
            &&& plain_media(s1, 288, s1.len() as int)
        }),
{
    let tail = mp4.skip(size);
    let s0 = start + tail;
    lemma_ftyp_kept(s0, delta);
    assert forall|i: int| size <= i < mp4.len() implies s0[i + (288 - size)] == #[trigger] mp4[i] by {
        assert(tail[i - size] == mp4[i]);
    }
    lemma_boxes_behind_ftyp(s0, STCO@);
    lemma_boxes_behind_ftyp(s0, CO64@);
    lemma_copied_and_moved(mp4, size, s0, 288 - size, delta);
}

/// The media data behind the first 288 bytes moves with the file offsets in it
/// when the box with the HTML part and the image is put before it.
proof fn lemma_media_behind_carrier(parts: Parts)
    requires
        parts.sizes_fit(),
        parts.fits_32_bits(),
        parts.has_first_box(),
        plain_media(parts.with_new_ftyp(), 288, parts.with_new_ftyp().len() as int),
    ensures
        ({
            let n = parts.carrier().len() as int;
            let s1 = parts.with_new_ftyp();
            let s3 = parts.with_carrier();
            &&& s3.len() == s1.len() + n
            &&& media_moved(s1, 288, s1.len() as int, s3, n, n)
            &&& plain_media(s3, 288 + n, s3.len() as int)
        }),
{
    lemma_boxes_placed(parts);
    lemma_media_behind_box(parts.with_new_ftyp(), parts.carrier());
}

/// The same with any box that is passed over.
proof fn lemma_media_behind_box(s1: Seq<u8>, c: Seq<u8>)
    requires
        288 <= s1.len(),
        s1.len() + c.len() <= usize::MAX,
        starts_with_carrier(s1.take(288) + c + s1.skip(288), c),
        plain_media(s1, 288, s1.len() as int),
    ensures
        ({
            let n = c.len() as int;
            let s3 = shifted_offsets(s1.take(288) + c + s1.skip(288), n);
            &&& media_moved(s1, 288, s1.len() as int, s3, n, n)
            &&& plain_media(s3, 288 + n, s1.len() + n)
        }),
{
    let n = c.len() as int;
    let s2 = s1.take(288) + c + s1.skip(288);
    assert forall|i: int| 288 <= i < s1.len() implies s2[i + n] == #[trigger] s1[i] by {
        assert(s1.skip(288)[i - 288] == s1[i]);
    }
    lemma_boxes_behind_carrier(s2, c, STCO@);
    lemma_boxes_behind_carrier(s2, c, CO64@);
    lemma_copied_and_moved(s1, 288, s2, n, n);
}

/// What follows the first box of the MP4 file stands at the end of the
/// polyglot file, and each file offset in its tables has moved as far as the
/// data has. Nothing else of it is changed.
pub proof fn law_media_kept(parts: Parts, data: Seq<u8>, suffix: Option<Seq<u8>>)
    requires
        parts.sizes_fit(),
        parts.fits_32_bits(),
        parts.polyglot() == Build::Done((data, suffix)),
        plain_media(parts.mp4, box_size(parts.mp4, 0), parts.mp4.len() as int),
    ensures
        media_moved(
            parts.mp4,
            box_size(parts.mp4, 0),
            parts.mp4.len() as int,
            data,
            data.len() - parts.mp4.len(),
            data.len() - parts.mp4.len(),
        ),
{
    let h = lemma_built(parts, data, suffix);
    let mp4 = parts.mp4;
    let size = box_size(mp4, 0);
    let hi = mp4.len() as int;
    let n = parts.carrier().len() as int;
    let s1 = parts.with_new_ftyp();
    let s3 = parts.with_carrier();
    let d = parts.ftyp_delta();
    let shift = 288 - size + n;
    lemma_media_behind_new_ftyp(parts);
    lemma_media_behind_carrier(parts);
    law_media_moved_twice(mp4, size, hi, s1, 288 - size, d, s3, n, n);
    lemma_same_sum(288 - size, n);
    lemma_media_same_delta(mp4, size, hi, s3, shift, d + n, shift);
    lemma_media_under_header(mp4, size, s3, shift, h);
    assert(data.len() - mp4.len() == shift);
}

/// Sums whose first terms are the same modulo two to the power of 64 are the
/// same modulo it.
proof fn lemma_same_sum(a: int, b: int)
    ensures
        (a % 0x1_0000_0000_0000_0000 + b) % 0x1_0000_0000_0000_0000 == (a + b)
            % 0x1_0000_0000_0000_0000,
{
    let m: int = 0x1_0000_0000_0000_0000;
    vstd::arithmetic::div_mod::lemma_add_mod_noop(a, b, m);
    vstd::arithmetic::div_mod::lemma_add_mod_noop(a % m, b, m);
    vstd::arithmetic::div_mod::lemma_mod_twice(a, m);
}

/// Media data whose file offsets moved by a number moved by any other that is
/// the same modulo two to the power of 64.
proof fn lemma_media_same_delta(
    old: Seq<u8>,
    lo: int,
    hi: int,
    new: Seq<u8>,
    shift: int,
    d1: int,
    d2: int,
)
    requires
        media_moved(old, lo, hi, new, shift, d1),
        d1 % 0x1_0000_0000_0000_0000 == d2 % 0x1_0000_0000_0000_0000,
    ensures
        media_moved(old, lo, hi, new, shift, d2),
{
    lemma_entries_same_delta(old, boxes_in(old, lo, hi, STCO@), false, new, shift, d1, d2);
    lemma_entries_same_delta(old, boxes_in(old, lo, hi, CO64@), true, new, shift, d1, d2);
}

/// Putting another header of 288 bytes over the start of a file leaves the
/// media data behind it as it is.
proof fn lemma_media_under_header(
    old: Seq<u8>,
    lo: int,
    new: Seq<u8>,
    shift: int,
    header: Seq<u8>,
)
    requires
        plain_media(old, lo, old.len() as int),
        media_moved(old, lo, old.len() as int, new, shift, shift),
        288 <= lo + shift,
        new.len() == old.len() + shift,
        header.len() == 288,
        plain_media(new, lo + shift, new.len() as int),
    ensures
        media_moved(old, lo, old.len() as int, header + new.skip(288), shift, shift),
{
    let data = header + new.skip(288);
    let hi = old.len() as int;
    assert forall|i: int| lo + shift <= i < new.len() implies data[i + 0] == #[trigger] new[i] by {
        assert(new.skip(288)[i - 288] == new[i]);
    }
    law_media_copied(new, lo + shift, new.len() as int, data, 0);
    law_media_moved_twice(old, lo, hi, new, shift, shift, data, 0, 0);
}

/// An entry that moves as far as the data moves leads to the same byte.
proof fn lemma_entry_leads_on(
    old: Seq<u8>,
    lo: int,
    hi: int,
    new: Seq<u8>,
    shift: int,
    wide: bool,
    k: int,
    j: int,
)
    requires
        media_moved(old, lo, hi, new, shift, shift),
        leads_to_media(old, lo, hi, wide, k, j),
        table_entry(old, lo, hi, wide, k, j) + shift < entry_range(wide),
    ensures
        ({
            let offset = table_entry(old, lo, hi, wide, k, j);
            let at = table_entry_index(old, lo, hi, wide, k, j);
            &&& entry_at(new, at + shift, wide) == offset + shift
            &&& new[offset + shift] == old[offset]
        }),
{
    let tables = tables_in(old, lo, hi, wide);
    let at = entry_index(tables[k].1 + 16, j, wide);
    let offset = entry_at(old, at, wide);
    assert(entry_at(new, at + shift, wide) == (offset + shift) % entry_range(wide));
    assert((offset + shift) % entry_range(wide) == offset + shift) by {
        vstd::arithmetic::div_mod::lemma_small_mod(
            (offset + shift) as nat,
            entry_range(wide) as nat,
        );
    }
    assert(new[offset + shift] == old[offset]);
}

/// A file offset of the MP4 file that leads to a byte behind its first box
/// leads, as it stands in the polyglot file, to that same byte, if the table
/// has room for it.
pub proof fn law_offsets_lead_to_media(
    parts: Parts,
    data: Seq<u8>,
    suffix: Option<Seq<u8>>,
    wide: bool,
    k: int,
    j: int,
)
    requires
        parts.sizes_fit(),
        parts.fits_32_bits(),
        parts.polyglot() == Build::Done((data, suffix)),
        plain_media(parts.mp4, box_size(parts.mp4, 0), parts.mp4.len() as int),
        ({
            let lo = box_size(parts.mp4, 0);
            let hi = parts.mp4.len() as int;
            &&& leads_to_media(parts.mp4, lo, hi, wide, k, j)
            &&& table_entry(parts.mp4, lo, hi, wide, k, j) + (data.len() - hi) < entry_range(wide)
        }),
    ensures
        ({
            let lo = box_size(parts.mp4, 0);
            let hi = parts.mp4.len() as int;
            let shift = data.len() - hi;
            let offset = table_entry(parts.mp4, lo, hi, wide, k, j);
            let at = table_entry_index(parts.mp4, lo, hi, wide, k, j);
            &&& entry_at(data, at + shift, wide) == offset + shift
            &&& 0 <= offset + shift < data.len()
            &&& data[offset + shift] == parts.mp4[offset]
        }),
{
    law_media_kept(parts, data, suffix);
    let lo = box_size(parts.mp4, 0);
    let hi = parts.mp4.len() as int;
    lemma_entry_leads_on(parts.mp4, lo, hi, data, data.len() - hi, wide, k, j);
}

/// Every table of every track moves: the entries of each `stco` or `co64` box
/// that a path of boxes leads to, behind the first box of the MP4 file, grow by
/// as much as the data moves, whatever the types of the boxes on the way are.
pub proof fn law_reached_table_moved(
    parts: Parts,
    data: Seq<u8>,
    suffix: Option<Seq<u8>>,
    path: Seq<Seq<int>>,
    wide: bool,
    j: int,
)
    requires
        sizes_hold(parts),
        parts.outcome() == Build::Done((data, suffix)),
        plain_media(parts.mp4, word_at(parts.mp4, 0), parts.mp4.len() as int),
        is_path(
            parts.mp4,
            word_at(parts.mp4, 0),
            parts.mp4.len() as int,
            if wide {
                seq![0x63u8, 0x6f, 0x36, 0x34]
            } else {
                seq![0x73u8, 0x74, 0x63, 0x6f]
            },
            path,
        ),
        0 <= j < word_at(parts.mp4, path.last().last() + 12),
    ensures
        ({
            let shift = data.len() - parts.mp4.len();
            let table = path.last().last();
            let narrow_at = table + 16 + 4 * j;
            let wide_at = table + 16 + 8 * j;
            &&& !wide ==> word_at(data, narrow_at + shift) == (word_at(parts.mp4, narrow_at)
                + shift) % 0x1_0000_0000
            &&& wide ==> word_at(data, wide_at + shift) * 0x1_0000_0000 + word_at(
                data,
                wide_at + shift + 4,
            ) == (word_at(parts.mp4, wide_at) * 0x1_0000_0000 + word_at(parts.mp4, wide_at + 4)
                + shift) % 0x1_0000_0000_0000_0000
        }),
{
    law_page_and_extra(parts);
    let h = lemma_built(parts, data, suffix);
    let mp4 = parts.mp4;
    let lo = word_at(mp4, 0);
    let hi = mp4.len() as int;
    law_box_header(mp4, 0);
    law_box_types();
    law_media_kept(parts, data, suffix);
    let target = if wide {
        CO64@
    } else {
        STCO@
    };
    let k = law_search_complete(mp4, lo, hi, target, path);
    lemma_moved_entry_of_table(mp4, lo, hi, data, data.len() - hi, wide, k, j);
}

/// An entry of a table that moves.
proof fn lemma_moved_entry_of_table(
    old: Seq<u8>,
    lo: int,
    hi: int,
    new: Seq<u8>,
    shift: int,
    wide: bool,
    k: int,
    j: int,
)
    requires
        media_moved(old, lo, hi, new, shift, shift),
        0 <= k < tables_in(old, lo, hi, wide).len(),
        0 <= j < word_at(old, tables_in(old, lo, hi, wide)[k].1 + 12),
    ensures
        ({
            let table = tables_in(old, lo, hi, wide)[k].1;
            let narrow_at = table + 16 + 4 * j;
            let wide_at = table + 16 + 8 * j;
            &&& !wide ==> word_at(new, narrow_at + shift) == (word_at(old, narrow_at) + shift)
                % 0x1_0000_0000
            &&& wide ==> word_at(new, wide_at + shift) * 0x1_0000_0000 + word_at(
                new,
                wide_at + shift + 4,
            ) == (word_at(old, wide_at) * 0x1_0000_0000 + word_at(old, wide_at + 4) + shift)
                % 0x1_0000_0000_0000_0000
        }),
{
    let tables = tables_in(old, lo, hi, wide);
    let at = entry_index(tables[k].1 + 16, j, wide);
    assert(entry_at(new, at + shift, wide) == (entry_at(old, at, wide) + shift) % entry_range(
        wide,
    ));
    law_entry(new, at + shift);
    law_entry(old, at);
    law_entry(new, at + shift + 4);
    law_entry(old, at + 4);
}

/// Moving the file offsets by a number, and then by what that number lacks of
/// two to the power of 64, leaves the file as it was.
pub proof fn law_offsets_moved_back(data: Seq<u8>, d1: int, d2: int)
    requires
        0 <= d1,
        0 <= d2,
        (d1 + d2) % 0x1_0000_0000_0000_0000 == 0,
        data.len() <= usize::MAX,
        plain_media(data, 0, data.len() as int),
    ensures
        shifted_offsets(shifted_offsets(data, d1), d2) == data,
{
    let len = data.len() as int;
    let once = shifted_offsets(data, d1);
    let twice = shifted_offsets(once, d2);
    law_shifted_offsets_len(data, d1);
    law_shifted_offsets_len(once, d2);
    law_shifted_offsets(data, d1);
    lemma_plain_moved(data, 0, len, once, 0);
    law_shifted_offsets(once, d2);
    law_media_moved_twice(data, 0, len, once, 0, d1, twice, 0, d2);
    lemma_media_same_delta(data, 0, len, twice, 0, d1 + d2, 0);
    law_media_not_moved(data, twice);
}

} // verus!
