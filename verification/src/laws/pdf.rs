//! How a polyglot file reads as a PDF document.
use crate::bytes::overwritten;
use crate::laws::{lemma_built, lemma_header};
use crate::number::{
    decimal, digits_value, is_digit, law_decimal_value, law_digits_read, law_leading_zeros, lemma_decimal_digits,
    lone_number, second_number, skip_white, white_len,
};
use crate::outcome::Build;
use crate::pdf::{
    ended_with, eof_mark, lemma_mark_lengths, line_end, moved_entries, moved_entry, moved_start,
    next_break, next_entry, pdf_suffix, skip_break, startxref_mark, stream_end, ten_digits,
    unmoved_suffix, xref_mark,
};
use crate::polyglot::Parts;
use crate::stream::{stream_header, stream_len};
use crate::utils::{first_match, law_first_match};
use vstd::prelude::*;

verus! {

/// The index of the word `xref` that starts the cross-reference table.
pub open spec fn xref_at(s: Seq<u8>) -> int {
    first_match(s, xref_mark(), 0)->Some_0 + 1
}

/// The index of the line that tells how many entries the table has.
pub open spec fn count_line(s: Seq<u8>) -> int {
    skip_break(s, xref_at(s) + 4)
}

/// The number of entries of the table.
pub open spec fn xref_count(s: Seq<u8>) -> int {
    second_number(s.subrange(count_line(s), line_end(s, count_line(s), 20)))->Some_0
}

/// The index of the first entry of the table.
pub open spec fn first_entry(s: Seq<u8>) -> int {
    skip_break(s, line_end(s, count_line(s), 20))
}

/// The index of the position of the table, which stands behind the word
/// `startxref` and white space.
pub open spec fn start_value(s: Seq<u8>) -> int {
    skip_white(s, first_match(s, startxref_mark(), xref_at(s))->Some_0 + 10)
}

/// The number in the line at index `at`.
pub open spec fn number_in_line(s: Seq<u8>, at: int) -> Option<int> {
    lone_number(s.subrange(at, line_end(s, at, 10)))
}

/// The part of entry `k` that holds its offset, in a table whose first entry
/// stands at index `at`.
pub open spec fn offset_field(s: Seq<u8>, at: int, k: int) -> Seq<u8> {
    s.subrange(at + 20 * k, at + 20 * k + 10)
}

/// Whether index `i` is in the part of one of the `n` entries that holds its
/// offset.
pub open spec fn in_offset_fields(at: int, n: int, i: int) -> bool {
    at <= i < at + 20 * n && (i - at) % 20 < 10
}

/// Whether `n` entries stand from index `at` on as they do in PDF documents:
/// each takes twenty bytes, of which the last is a newline.
pub open spec fn plain_entries(s: Seq<u8>, at: int, n: int) -> bool {
    &&& 0 <= at
    &&& at + 20 * n <= s.len()
    &&& forall|i: int|
        at <= i < at + 20 * n ==> (#[trigger] s[i] == 0x0a <==> (i - at) % 20 == 19)
}

/// Ten digits read as the number that they were made of.
pub proof fn law_ten_digits(n: nat)
    requires
        decimal(n).len() <= 10,
        n <= usize::MAX,
    ensures
        ten_digits(n).len() == 10,
        forall|i: int| 0 <= i < 10 ==> is_digit(#[trigger] ten_digits(n)[i]),
        lone_number(ten_digits(n)) == Some(n as int),
        digits_value(ten_digits(n)) == n,
{
    let z = (10 - decimal(n).len()) as nat;
    lemma_decimal_digits(n);
    law_decimal_value(n);
    law_leading_zeros(z, decimal(n));
    law_digits_read(ten_digits(n));
}

/// Where the next line break is found.
proof fn lemma_next_break(s: Seq<u8>, i: int, cr: bool)
    requires
        0 <= i,
    ensures
        next_break(s, i, cr) matches Some(p) ==> i <= p < s.len(),
    decreases s.len() - i,
{
    if i < s.len() {
        lemma_next_break(s, i + 1, cr);
    }
}

/// The next line break is the first one.
pub proof fn lemma_next_break_is(s: Seq<u8>, i: int, p: int, cr: bool)
    requires
        0 <= i <= p < s.len(),
        s[p] == 0x0a,
        forall|j: int| i <= j < p ==> #[trigger] s[j] != 0x0a && s[j] != 0x0d || !cr && s[j] != 0x0a,
    ensures
        next_break(s, i, cr) == Some(p),
    decreases p - i,
{
    if i < p {
        lemma_next_break_is(s, i + 1, p, cr);
    }
}

/// The next line break depends on what stands from index `i` on.
pub proof fn lemma_next_break_same(s: Seq<u8>, t: Seq<u8>, i: int, cr: bool)
    requires
        0 <= i,
        s.len() == t.len(),
        forall|j: int| i <= j < s.len() ==> #[trigger] s[j] == t[j],
    ensures
        next_break(s, i, cr) == next_break(t, i, cr),
    decreases s.len() - i,
{
    if i < s.len() {
        lemma_next_break_same(s, t, i + 1, cr);
    }
}

/// Moving the offset of one entry changes its offset field alone.
pub proof fn lemma_moved_entry(s: Seq<u8>, at: int, shift: int, t: Seq<u8>)
    requires
        0 <= at,
        0 <= shift,
        at + 20 <= s.len(),
        moved_entry(s, at, shift) == Some(t),
    ensures
        t.len() == s.len(),
        forall|i: int| 0 <= i < s.len() && !(at <= i < at + 10) ==> #[trigger] t[i] == s[i],
        match lone_number(s.subrange(at, at + 10)) {
            None => t == s,
            Some(offset) => {
                &&& lone_number(t.subrange(at, at + 10)) == Some(offset + shift)
                &&& t.subrange(at, at + 10) == ten_digits((offset + shift) as nat)
                &&& forall|i: int| at <= i < at + 10 ==> is_digit(#[trigger] t[i])
            },
        },
{
    if let Some(offset) = lone_number(s.subrange(at, at + 10)) {
        let digits = ten_digits((offset + shift) as nat);
        law_ten_digits((offset + shift) as nat);
        assert(t == overwritten(s, at, digits));
        assert(t.subrange(at, at + 10) =~= digits);
        assert forall|i: int| at <= i < at + 10 implies is_digit(#[trigger] t[i]) by {
            assert(t[i] == digits[i - at]);
        }
    }
}

/// Moving the offsets of a table keeps the length, and what stands before the
/// table.
proof fn lemma_entries_frame(s: Seq<u8>, at: int, n: int, shift: int, t: Seq<u8>)
    requires
        0 <= at,
        0 <= shift,
        moved_entries(s, at, n, shift) == Some(t),
    ensures
        t.len() == s.len(),
        forall|i: int| 0 <= i < at && i < s.len() ==> #[trigger] t[i] == s[i],
    decreases n,
{
    if n > 0 && at + 20 <= s.len() {
        let u = moved_entry(s, at, shift)->Some_0;
        lemma_moved_entry(s, at, shift, u);
        lemma_next_break(u, at, false);
        lemma_entries_frame(u, next_entry(u, at), n - 1, shift, t);
    }
}

/// Which indices are in the offset fields of the entries behind the first.
proof fn lemma_fields_behind_first(at: int, n: int, i: int)
    requires
        0 < n,
    ensures
        in_offset_fields(at + 20, n - 1, i) ==> in_offset_fields(at, n, i) && at + 20 <= i,
        at <= i < at + 10 ==> in_offset_fields(at, n, i),
{
    vstd::arithmetic::div_mod::lemma_mod_sub_multiples_vanish(i - at, 20);
    assert(-20 + (i - at) == i - (at + 20));
    if at <= i < at + 10 {
        vstd::arithmetic::div_mod::lemma_small_mod((i - at) as nat, 20);
    }
}

/// The offset of the first entry is moved, the next entry stands twenty bytes
/// on, and the entries from there on are as they were.
pub proof fn lemma_first_entry_moved(s: Seq<u8>, at: int, n: int, shift: int, u: Seq<u8>)
    requires
        plain_entries(s, at, n),
        0 < n,
        0 <= shift,
        moved_entry(s, at, shift) == Some(u),
    ensures
        next_entry(u, at) == at + 20,
        plain_entries(u, at + 20, n - 1),
{
    lemma_moved_entry(s, at, shift, u);
    assert forall|j: int| at <= j < at + 19 implies #[trigger] u[j] != 0x0a by {
        if at + 10 <= j || lone_number(s.subrange(at, at + 10)) is None {
            assert(u[j] == s[j]);
        } else {
            assert(is_digit(u[j]));
        }
    }
    assert(u[at + 19] == s[at + 19]);
    lemma_next_break_is(u, at, at + 19, false);
    assert forall|i: int| at + 20 <= i < at + 20 + 20 * (n - 1) implies (#[trigger] u[i] == 0x0a
        <==> (i - (at + 20)) % 20 == 19) by {
        assert(u[i] == s[i]);
        assert((i - (at + 20)) % 20 == (i - at) % 20);
    }
}

/// In a table as PDF documents have them, each offset is moved, and nothing
/// else is changed. What is no number stays as it is.
pub proof fn law_entries_moved(s: Seq<u8>, at: int, n: int, shift: int, t: Seq<u8>)
    requires
        plain_entries(s, at, n),
        0 <= n,
        0 <= shift,
        moved_entries(s, at, n, shift) == Some(t),
    ensures
        t.len() == s.len(),
        forall|i: int|
            0 <= i < s.len() && !in_offset_fields(at, n, i) ==> #[trigger] t[i] == s[i],
        forall|k: int|
            0 <= k < n ==> match lone_number(offset_field(s, at, k)) {
                None => #[trigger] offset_field(t, at, k) == offset_field(s, at, k),
                Some(offset) => lone_number(offset_field(t, at, k)) == Some(offset + shift)
                    && offset_field(t, at, k) == ten_digits((offset + shift) as nat),
            },
    decreases n,
{
    if n > 0 {
        let u = moved_entry(s, at, shift)->Some_0;
        lemma_moved_entry(s, at, shift, u);
        lemma_first_entry_moved(s, at, n, shift, u);
        law_entries_moved(u, at + 20, n - 1, shift, t);
        assert forall|i: int| 0 <= i < s.len() && !in_offset_fields(at, n, i) implies #[trigger] t[i]
            == s[i] by {
            lemma_fields_behind_first(at, n, i);
            assert(t[i] == u[i]);
        }
        assert forall|k: int| 0 <= k < n implies match lone_number(offset_field(s, at, k)) {
            None => #[trigger] offset_field(t, at, k) == offset_field(s, at, k),
            Some(offset) => lone_number(offset_field(t, at, k)) == Some(offset + shift)
                && offset_field(t, at, k) == ten_digits((offset + shift) as nat),
        } by {
            if k == 0 {
                assert forall|i: int| at <= i < at + 10 implies #[trigger] t[i] == u[i] by {
                    lemma_fields_behind_first(at, n, i);
                }
                assert(offset_field(t, at, 0) =~= u.subrange(at, at + 10));
                assert(offset_field(s, at, 0) =~= s.subrange(at, at + 10));
            } else {
                assert(offset_field(t, at + 20, k - 1) =~= offset_field(t, at, k));
                assert(offset_field(u, at + 20, k - 1) =~= offset_field(s, at, k));
            }
        }
    }
}

/// Moving the position of the table changes nothing before it.
pub proof fn lemma_start_frame(s: Seq<u8>, at: int, shift: int, t: Seq<u8>)
    requires
        0 <= at,
        moved_start(s, at, shift) == Some(t),
    ensures
        t.len() == s.len(),
        forall|i: int| 0 <= i < at && i < s.len() ==> #[trigger] t[i] == s[i],
{
    lemma_mark_lengths();
}

/// The number in a line that holds the position of the table reads as it was,
/// moved, where there is room to end the document behind it.
pub proof fn law_start_moved(s: Seq<u8>, at: int, shift: int, t: Seq<u8>)
    requires
        0 <= at,
        0 <= shift,
        moved_start(s, at, shift) == Some(t),
        number_in_line(s, at) matches Some(v) && at + decimal((v + shift) as nat).len() + 7
            <= s.len(),
    ensures
        number_in_line(t, at) == Some(number_in_line(s, at)->Some_0 + shift),
        ({
            let n = (number_in_line(s, at)->Some_0 + shift) as nat;
            let end = at + decimal(n).len();
            &&& t.len() == s.len()
            &&& t.subrange(at, end) == decimal(n)
            &&& t.subrange(end, end + 7) == seq![0x0au8, 0x25, 0x25, 0x45, 0x4f, 0x46, 0x0a]
            &&& forall|i: int| end + 7 <= i < end + 17 && i < s.len() ==> #[trigger] t[i] == s[i]
            &&& forall|i: int| end + 17 <= i < s.len() ==> #[trigger] t[i] == 0
        }),
{
    lemma_mark_lengths();
    let v = number_in_line(s, at)->Some_0;
    let n = (v + shift) as nat;
    let digits = decimal(n);
    let end = at + digits.len();
    lemma_decimal_digits(n);
    law_decimal_value(n);
    law_digits_read(digits);
    assert(t == ended_with(s, at, n));
    assert(t.subrange(at, end) =~= digits);
    assert(t[end] == eof_mark()[0]);
    assert(eof_mark()[0] == 0x0a) by {
        reveal_strlit("\n%%EOF\n");
    }
    assert forall|j: int| at <= j < end implies #[trigger] t[j] != 0x0a && t[j] != 0x0d by {
        assert(t[j] == digits[j - at]);
        assert(is_digit(digits[j - at]));
    }
    lemma_next_break_is(t, at, end, true);
    assert(t.subrange(end, end + 7) =~= seq![0x0au8, 0x25, 0x25, 0x45, 0x4f, 0x46, 0x0a]) by {
        reveal_strlit("\n%%EOF\n");
        assert(t.subrange(end, end + 7) =~= eof_mark());
        assert(eof_mark() =~= seq![0x0au8, 0x25, 0x25, 0x45, 0x4f, 0x46, 0x0a]);
    }
}

/// The position can be moved if the line with it ends in the document and, if it
/// is a number, there is room for its digits.
pub proof fn law_start_can_move(s: Seq<u8>, at: int, shift: int)
    requires
        0 <= at,
        0 <= shift,
        line_end(s, at, 10) <= s.len(),
    ensures
        number_in_line(s, at) is None ==> moved_start(s, at, shift) == Some(s),
        number_in_line(s, at) matches Some(v) ==> (v + shift <= usize::MAX && at + decimal(
            (v + shift) as nat,
        ).len() <= s.len() <==> moved_start(s, at, shift) is Some),
{
}

/// A table that is cut off, or has no entry left, is not changed from there on;
/// and the next entry stands behind the next newline.
pub proof fn law_table_rows(s: Seq<u8>, at: int, n: int, shift: int, p: int)
    requires
        0 <= at,
    ensures
        n <= 0 || s.len() < at + 20 ==> moved_entries(s, at, n, shift) == Some(s),
        at <= p < s.len() && s[p] == 0x0a && (forall|j: int|
            at <= j < p ==> #[trigger] s[j] != 0x0a) ==> next_entry(s, at) == p + 1,
        (forall|j: int| at <= j < s.len() ==> #[trigger] s[j] != 0x0a) ==> next_entry(s, at) == at
            + 20,
{
    if at <= p < s.len() && s[p] == 0x0a && (forall|j: int|
        at <= j < p ==> #[trigger] s[j] != 0x0a) {
        lemma_next_break_is(s, at, p, false);
    }
    if forall|j: int| at <= j < s.len() ==> #[trigger] s[j] != 0x0a {
        lemma_no_next_break(s, at);
    }
}

/// Without a newline there is no next one.
proof fn lemma_no_next_break(s: Seq<u8>, i: int)
    requires
        0 <= i,
        forall|j: int| i <= j < s.len() ==> #[trigger] s[j] != 0x0a,
    ensures
        next_break(s, i, false) is None,
    decreases s.len() - i,
{
    if i < s.len() {
        lemma_no_next_break(s, i + 1);
    }
}

/// Whether no newline stands from index `i` to `j`.
pub open spec fn one_line(s: Seq<u8>, i: int, j: int) -> bool {
    forall|k: int| i <= k < j ==> #[trigger] s[k] != 0x0a
}

/// Whether entries stand at the indices of `rows`: each, but for the last, ends
/// with a newline right before the next, and has none before that.
pub open spec fn is_rows(s: Seq<u8>, rows: Seq<int>) -> bool {
    &&& forall|k: int| 0 <= k < rows.len() ==> 0 <= #[trigger] rows[k] && rows[k] + 20 <= s.len()
    &&& forall|k: int|
        0 < k < rows.len() ==> rows[k - 1] + 11 <= #[trigger] rows[k] && s[rows[k] - 1] == 0x0a
            && one_line(s, rows[k - 1], rows[k] - 1)
}

/// In a table with entries of any length, too, each offset is moved if ten digits
/// hold it, and nothing else is changed.
pub proof fn law_rows_moved(s: Seq<u8>, rows: Seq<int>, shift: int)
    requires
        0 <= shift,
        0 < rows.len(),
        is_rows(s, rows),
        forall|k: int|
            0 <= k < rows.len() ==> (lone_number(s.subrange(#[trigger] rows[k], rows[k] + 10))
                matches Some(offset) && offset + shift <= usize::MAX && decimal(
                (offset + shift) as nat,
            ).len() <= 10),
    ensures
        moved_entries(s, rows[0], rows.len() as int, shift) matches Some(t) && {
            &&& t.len() == s.len()
            &&& forall|k: int|
                0 <= k < rows.len() ==> t.subrange(#[trigger] rows[k], rows[k] + 10) == ten_digits(
                    (lone_number(s.subrange(rows[k], rows[k] + 10))->Some_0 + shift) as nat,
                )
            &&& forall|i: int|
                0 <= i < s.len() && (forall|k: int|
                    0 <= k < rows.len() ==> !(#[trigger] rows[k] <= i < rows[k] + 10))
                    ==> #[trigger] t[i] == s[i]
        },
    decreases rows.len(),
{
    let at = rows[0];
    let u = moved_entry(s, at, shift)->Some_0;
    assert(moved_entry(s, at, shift) is Some);
    lemma_moved_entry(s, at, shift, u);
    if rows.len() > 1 {
        let rest = rows.drop_first();
        let p = rows[1] - 1;
        assert(rest[0] == rows[1]);
        assert forall|j: int| at <= j < p implies #[trigger] u[j] != 0x0a by {
            if j < at + 10 {
                assert(is_digit(u[j]));
            } else {
                assert(u[j] == s[j]);
                assert(one_line(s, rows[1 - 1], rows[1] - 1));
            }
        }
        assert(u[p] == s[p]);
        lemma_next_break_is(u, at, p, false);
        lemma_rows_ascend(s, rows);
        assert(is_rows(u, rest)) by {
            assert forall|k: int| 0 <= k < rest.len() implies 0 <= #[trigger] rest[k] && rest[k]
                + 20 <= u.len() by {
                assert(rest[k] == rows[k + 1]);
            }
            assert forall|k: int| 0 < k < rest.len() implies rest[k - 1] + 11 <= #[trigger] rest[k]
                && u[rest[k] - 1] == 0x0a && one_line(u, rest[k - 1], rest[k] - 1) by {
                assert(rest[k] == rows[k + 1] && rest[k - 1] == rows[k]);
                assert(rows[0] + 11 <= rows[k]);
                assert(u[rest[k] - 1] == s[rest[k] - 1]);
                assert(one_line(s, rows[k + 1 - 1], rows[k + 1] - 1));
                assert forall|i: int| rest[k - 1] <= i < rest[k] - 1 implies #[trigger] u[i]
                    != 0x0a by {
                    assert(u[i] == s[i]);
                }
            }
        }
        assert forall|k: int| 0 <= k < rest.len() implies u.subrange(
            #[trigger] rest[k],
            rest[k] + 10,
        ) == s.subrange(rest[k], rest[k] + 10) by {
            assert(rest[k] == rows[k + 1]);
            assert(rows[0] + 11 <= rows[k + 1]);
            assert(u.subrange(rest[k], rest[k] + 10) =~= s.subrange(rest[k], rest[k] + 10));
        }
        law_rows_moved(u, rest, shift);
        let t = moved_entries(u, rest[0], rest.len() as int, shift)->Some_0;
        assert(moved_entries(s, at, rows.len() as int, shift) == Some(t));
        assert forall|k: int| 0 <= k < rows.len() implies t.subrange(
            #[trigger] rows[k],
            rows[k] + 10,
        ) == ten_digits(
            (lone_number(s.subrange(rows[k], rows[k] + 10))->Some_0 + shift) as nat,
        ) by {
            if k == 0 {
                assert forall|i: int| at <= i < at + 10 implies #[trigger] t[i] == u[i] by {
                    assert forall|j: int| 0 <= j < rest.len() implies !(#[trigger] rest[j] <= i
                        < rest[j] + 10) by {
                        assert(rest[j] == rows[j + 1]);
                        assert(rows[0] + 11 <= rows[j + 1]);
                    }
                }
                assert(t.subrange(at, at + 10) =~= u.subrange(at, at + 10));
            } else {
                assert(rest[k - 1] == rows[k]);
            }
        }
        assert forall|i: int|
            0 <= i < s.len() && (forall|k: int|
                0 <= k < rows.len() ==> !(#[trigger] rows[k] <= i < rows[k] + 10)) implies
            #[trigger] t[i] == s[i] by {
            assert(!(rows[0] <= i < rows[0] + 10));
            assert forall|j: int| 0 <= j < rest.len() implies !(#[trigger] rest[j] <= i < rest[j]
                + 10) by {
                assert(rest[j] == rows[j + 1]);
            }
            assert(t[i] == u[i]);
        }
    } else {
        assert(moved_entries(u, next_entry(u, at), 0, shift) == Some(u));
        assert(moved_entries(s, at, 1, shift) == Some(u));
        assert forall|i: int|
            0 <= i < s.len() && (forall|k: int|
                0 <= k < rows.len() ==> !(#[trigger] rows[k] <= i < rows[k] + 10)) implies
            #[trigger] u[i] == s[i] by {
            assert(!(rows[0] <= i < rows[0] + 10));
        }
    }
}

/// Entries stand one behind the other.
proof fn lemma_rows_ascend(s: Seq<u8>, rows: Seq<int>)
    requires
        is_rows(s, rows),
    ensures
        forall|k: int| 0 < k < rows.len() ==> rows[0] + 11 <= #[trigger] rows[k],
    decreases rows.len(),
{
    if rows.len() > 1 {
        let init = rows.drop_last();
        assert(is_rows(s, init)) by {
            assert forall|k: int| 0 < k < init.len() implies init[k - 1] + 11 <= #[trigger] init[k]
                && s[init[k] - 1] == 0x0a && one_line(s, init[k - 1], init[k] - 1) by {
                assert(init[k] == rows[k] && init[k - 1] == rows[k - 1]);
            }
        }
        lemma_rows_ascend(s, init);
        assert forall|k: int| 0 < k < rows.len() implies rows[0] + 11 <= #[trigger] rows[k] by {
            if k < init.len() {
                assert(init[k] == rows[k]);
            } else if k > 1 {
                assert(init[k - 1] == rows[k - 1]);
                assert(rows[k - 1] + 11 <= rows[k]);
            }
        }
    }
}

/// Where there is no room to end the document behind the position, the position
/// is moved, and nothing else is changed. Where no number stands, nothing is.
pub proof fn law_start_without_room(s: Seq<u8>, at: int, shift: int, t: Seq<u8>)
    requires
        0 <= at,
        0 <= shift,
        moved_start(s, at, shift) == Some(t),
        number_in_line(s, at) matches Some(v) ==> s.len() < at + decimal(
            (v + shift) as nat,
        ).len() + 7,
    ensures
        t.len() == s.len(),
        number_in_line(s, at) is None ==> t == s,
        number_in_line(s, at) matches Some(v) ==> {
            let digits = decimal((v + shift) as nat);
            &&& t.subrange(at, at + digits.len()) == digits
            &&& forall|i: int|
                0 <= i < s.len() && !(at <= i < at + digits.len()) ==> #[trigger] t[i] == s[i]
        },
{
    if let Some(v) = number_in_line(s, at) {
        let digits = decimal((v + shift) as nat);
        assert(t == ended_with(s, at, (v + shift) as nat));
        assert(t.subrange(at, at + digits.len()) =~= digits);
    }
}

/// White space ends no earlier than it starts.
proof fn lemma_behind_white(s: Seq<u8>, i: int)
    ensures
        i <= skip_white(s, i),
    decreases s.len() - i,
{
    if white_len(s, i) != 0 {
        lemma_behind_white(s, i + white_len(s, i));
    }
}

/// How the PDF part of a file is put together.
pub proof fn lemma_suffix_parts(pdf: Seq<u8>, out_size: int, suffix: Seq<u8>) -> (t: Seq<u8>)
    requires
        0 <= out_size,
        pdf_suffix(pdf, out_size) == Build::Done(suffix),
    ensures
        ({
            let s = unmoved_suffix(pdf);
            let shift = out_size + 18;
            &&& s.len() == pdf.len() + 28
            &&& 0 <= first_entry(s)
            &&& 18 <= start_value(s)
            &&& moved_entries(s, first_entry(s), xref_count(s), shift) == Some(t)
            &&& moved_start(t, start_value(s), shift) == Some(suffix)
            &&& t.len() == s.len()
            &&& suffix.len() == s.len()
            &&& 18 <= first_entry(s)
        }),
{
    lemma_mark_lengths();
    let s = unmoved_suffix(pdf);
    let shift = out_size + 18;
    law_first_match(s, xref_mark(), 0);
    law_first_match(s, startxref_mark(), xref_at(s));
    lemma_behind_white(s, first_match(s, startxref_mark(), xref_at(s))->Some_0 + 10);
    lemma_xref_behind_stream_end(pdf);
    lemma_next_break(s, count_line(s), true);
    let t = moved_entries(s, first_entry(s), xref_count(s), shift)->Some_0;
    lemma_entries_frame(s, first_entry(s), xref_count(s), shift, t);
    lemma_start_frame(t, start_value(s), shift, suffix);
    t
}

/// The word `xref` is looked for behind the end of the stream object.
proof fn lemma_xref_behind_stream_end(pdf: Seq<u8>)
    ensures
        first_match(unmoved_suffix(pdf), xref_mark(), 0) matches Some(x) ==> 17 <= x,
{
    let s = unmoved_suffix(pdf);
    lemma_mark_lengths();
    law_first_match(s, xref_mark(), 0);
    if let Some(x) = first_match(s, xref_mark(), 0) {
        reveal_strlit("\nendstream\nendobj\n");
        reveal_strlit("\nxref");
        let w = s.subrange(x, x + 5);
        assert(w[0] == 0x0a && w[1] == 0x78);
        assert(s[x] == w[0] && s[x + 1] == w[1]);
        if x < 17 {
            assert(s[x] == stream_end()[x] && s[x + 1] == stream_end()[x + 1]);
        }
    }
}

/// The PDF part ends the stream object, and has the document behind that, as
/// it was up to the entries of its cross-reference table.
pub proof fn law_document_kept(pdf: Seq<u8>, out_size: int, suffix: Seq<u8>)
    requires
        0 <= out_size,
        pdf_suffix(pdf, out_size) == Build::Done(suffix),
    ensures
        suffix.len() == pdf.len() + 28,
        suffix.take(18) == stream_end(),
        forall|i: int|
            0 <= i < pdf.len() && i + 18 < first_entry(unmoved_suffix(pdf)) && i + 18 < start_value(
                unmoved_suffix(pdf),
            ) ==> suffix[i + 18] == #[trigger] pdf[i],
{
    let s = unmoved_suffix(pdf);
    let shift = out_size + 18;
    let t = lemma_suffix_parts(pdf, out_size, suffix);
    lemma_mark_lengths();
    lemma_entries_frame(s, first_entry(s), xref_count(s), shift, t);
    lemma_start_frame(t, start_value(s), shift, suffix);
    assert(suffix.take(18) =~= stream_end());
    assert forall|i: int|
        0 <= i < pdf.len() && i + 18 < first_entry(s) && i + 18 < start_value(s) implies suffix[i
        + 18] == #[trigger] pdf[i] by {
        assert(s[i + 18] == pdf[i]);
        assert(t[i + 18] == s[i + 18]);
    }
}

/// In a document whose table is as PDF documents have them, each offset of the
/// table is moved by as much as the document is, and so is the position of the
/// table, if there is room to end the document behind it. Nothing else before
/// that position is changed.
pub proof fn law_document_moved(pdf: Seq<u8>, out_size: int, suffix: Seq<u8>)
    requires
        0 <= out_size,
        pdf_suffix(pdf, out_size) == Build::Done(suffix),
        plain_entries(
            unmoved_suffix(pdf),
            first_entry(unmoved_suffix(pdf)),
            xref_count(unmoved_suffix(pdf)),
        ),
        first_entry(unmoved_suffix(pdf)) + 20 * xref_count(unmoved_suffix(pdf)) <= start_value(
            unmoved_suffix(pdf),
        ),
    ensures
        ({
            let s = unmoved_suffix(pdf);
            let at = first_entry(s);
            let n = xref_count(s);
            let start = start_value(s);
            let shift = out_size + 18;
            &&& forall|i: int|
                0 <= i < start && i < s.len() && !in_offset_fields(at, n, i) ==> #[trigger] suffix[i]
                    == s[i]
            &&& forall|k: int|
                0 <= k < n ==> match lone_number(offset_field(s, at, k)) {
                    None => #[trigger] offset_field(suffix, at, k) == offset_field(s, at, k),
                    Some(offset) => lone_number(offset_field(suffix, at, k)) == Some(
                        offset + shift,
                    ),
                }
            &&& number_in_line(s, start) matches Some(v) ==> start + decimal(
                (v + shift) as nat,
            ).len() + 7 <= s.len() ==> number_in_line(suffix, start) == Some(v + shift)
        }),
{
    let s = unmoved_suffix(pdf);
    let at = first_entry(s);
    let n = xref_count(s);
    let start = start_value(s);
    let shift = out_size + 18;
    let t = lemma_suffix_parts(pdf, out_size, suffix);
    if n > 0 {
        law_entries_moved(s, at, n, shift, t);
    }
    lemma_start_frame(t, start, shift, suffix);
    assert forall|i: int|
        0 <= i < start && i < s.len() && !in_offset_fields(at, n, i) implies #[trigger] suffix[i]
        == s[i] by {
        assert(t[i] == s[i]);
    }
    assert forall|k: int| 0 <= k < n implies match lone_number(offset_field(s, at, k)) {
        None => #[trigger] offset_field(suffix, at, k) == offset_field(s, at, k),
        Some(offset) => lone_number(offset_field(suffix, at, k)) == Some(offset + shift),
    } by {
        assert(offset_field(suffix, at, k) =~= offset_field(t, at, k));
    }
    if let Some(v) = number_in_line(s, start) {
        if start + decimal((v + shift) as nat).len() + 7 <= s.len() {
            lemma_next_break_same(s, t, start, true);
            lemma_next_break(s, start, true);
            assert(s.subrange(start, line_end(s, start, 10)) =~= t.subrange(
                start,
                line_end(t, start, 10),
            ));
            law_start_moved(t, start, shift, suffix);
        }
    }
}

/// As a PDF document, the polyglot file has the first line of the document
/// near its start, then a stream object that goes on to the end of the media
/// data, then the end of that object and the rest of the document. An offset
/// that is moved by as much as the document is leads to the same byte.
pub proof fn law_reads_as_pdf(parts: Parts, data: Seq<u8>, suffix: Option<Seq<u8>>)
    requires
        parts.sizes_fit(),
        parts.fits_32_bits(),
        parts.polyglot() == Build::Done((data, suffix)),
        parts.pdf is Some,
    ensures
        suffix is Some,
        ({
            let pdf = parts.pdf->Some_0;
            let e = parts.extra_part().len() as int;
            let end = parts.header_text_end(data.len());
            let whole = data + suffix->Some_0;
            let shift = data.len() as int + 18;
            let s = unmoved_suffix(pdf);
            &&& 9 <= pdf.len()
            &&& whole.subrange(26 + e, 36 + e) == seq![0x0au8] + pdf.take(9)
            &&& stream_len(data.len() - (36 + e), data.len()) matches Some(l)
                && whole.subrange(36 + e, end) == stream_header(l) && end + l == data.len()
            &&& whole.len() == shift + pdf.len() + 10
            &&& whole.subrange(data.len() as int, shift) == stream_end()
            &&& forall|i: int|
                0 <= i < pdf.len() && i + 18 < first_entry(s) && i + 18 < start_value(s)
                    ==> whole[i + shift] == #[trigger] pdf[i]
        }),
{
    let h = lemma_built(parts, data, suffix);
    let at = 296 + parts.html_part().len() as int;
    lemma_header(parts, at, parts.with_carrier().len(), h);
    let pdf = parts.pdf->Some_0;
    let e = parts.extra_part().len() as int;
    let end = parts.header_text_end(data.len());
    let tail = suffix->Some_0;
    let whole = data + tail;
    law_document_kept(pdf, data.len() as int, tail);
    assert(whole.subrange(26 + e, 36 + e) =~= h.subrange(26 + e, 36 + e));
    assert(whole.subrange(36 + e, end) =~= h.subrange(36 + e, end));
    assert(whole.subrange(data.len() as int, data.len() as int + 18) =~= tail.take(18));
    let s = unmoved_suffix(pdf);
    assert forall|i: int|
        0 <= i < pdf.len() && i + 18 < first_entry(s) && i + 18 < start_value(
            s,
        ) implies whole[i + (data.len() as int + 18)] == #[trigger] pdf[i] by {
        assert(tail[i + 18] == pdf[i]);
    }
}

/// An entry of the cross-reference table, as it stands in the polyglot file,
/// leads to the byte that it led to in the document, if that byte stands before
/// the table.
pub proof fn law_xref_leads_to_objects(
    parts: Parts,
    data: Seq<u8>,
    suffix: Option<Seq<u8>>,
    k: int,
    offset: int,
)
    requires
        parts.sizes_fit(),
        parts.fits_32_bits(),
        parts.polyglot() == Build::Done((data, suffix)),
        parts.pdf is Some,
        ({
            let s = unmoved_suffix(parts.pdf->Some_0);
            let at = first_entry(s);
            let n = xref_count(s);
            &&& plain_entries(s, at, n)
            &&& at + 20 * n <= start_value(s)
            &&& 0 <= k < n
            &&& lone_number(offset_field(s, at, k)) == Some(offset)
            &&& 0 <= offset < parts.pdf->Some_0.len()
            &&& offset + 18 < at
        }),
    ensures
        ({
            let s = unmoved_suffix(parts.pdf->Some_0);
            let whole = data + suffix->Some_0;
            let at = data.len() + first_entry(s);
            &&& lone_number(offset_field(whole, at, k)) == Some(offset + data.len() + 18)
            &&& offset + data.len() + 18 < whole.len()
            &&& whole[offset + data.len() + 18] == parts.pdf->Some_0[offset]
        }),
{
    let h = lemma_built(parts, data, suffix);
    let pdf = parts.pdf->Some_0;
    let tail = suffix->Some_0;
    law_reads_as_pdf(parts, data, suffix);
    lemma_entry_leads_on(pdf, data, tail, k, offset);
    assert((data + tail)[offset + (data.len() as int + 18)] == pdf[offset]);
}

/// An entry of the table reads as moved where the PDF part follows the data.
proof fn lemma_entry_leads_on(pdf: Seq<u8>, data: Seq<u8>, tail: Seq<u8>, k: int, offset: int)
    requires
        pdf_suffix(pdf, data.len() as int) == Build::Done(tail),
        ({
            let s = unmoved_suffix(pdf);
            let at = first_entry(s);
            let n = xref_count(s);
            &&& plain_entries(s, at, n)
            &&& at + 20 * n <= start_value(s)
            &&& 0 <= k < n
            &&& lone_number(offset_field(s, at, k)) == Some(offset)
        }),
    ensures
        lone_number(
            offset_field(data + tail, data.len() + first_entry(unmoved_suffix(pdf)), k),
        ) == Some(offset + data.len() + 18),
{
    let s = unmoved_suffix(pdf);
    let at = first_entry(s);
    let t = lemma_suffix_parts(pdf, data.len() as int, tail);
    law_document_moved(pdf, data.len() as int, tail);
    lemma_field_behind(data, tail, at, k);
    assert(lone_number(offset_field(tail, at, k)) == Some(offset + (data.len() as int + 18)));
}

/// The offset field of an entry is the same where other data stands before it.
proof fn lemma_field_behind(data: Seq<u8>, tail: Seq<u8>, at: int, k: int)
    requires
        0 <= at,
        0 <= k,
        at + 20 * k + 10 <= tail.len(),
    ensures
        offset_field(data + tail, data.len() + at, k) == offset_field(tail, at, k),
{
    assert(offset_field(data + tail, data.len() + at, k) =~= offset_field(tail, at, k));
}

} // verus!
