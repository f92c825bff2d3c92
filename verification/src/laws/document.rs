//! What becomes of a PDF document, told by where its parts stand.
use crate::error::PolyglotError;
use crate::laws::pdf::{
    count_line, first_entry, in_offset_fields, law_entries_moved, law_start_moved, law_ten_digits,
    lemma_first_entry_moved, lemma_moved_entry, lemma_next_break_same, lemma_start_frame,
    number_in_line, offset_field, plain_entries, start_value, xref_at, xref_count,
};
use crate::number::{
    blank, decimal, digits_value, is_digit, law_blank_skipped, law_decimal_len_monotonic,
    law_decimal_value, law_lone_number, law_no_leading_zero, law_second_number, lone_number,
    numeral, second_number,
};
use crate::outcome::Build;
use crate::pdf::{
    lemma_mark_lengths, line_end, moved_entries, moved_entry, moved_start, pdf_suffix, skip_break,
    startxref_mark, stream_end, ten_digits, unmoved_suffix, xref_mark,
};
use crate::utils::{first_match, law_first_match, law_first_match_unique, matches_at};
use vstd::prelude::*;

verus! {

/// Where the parts of a document stand that tell where its objects are.
pub struct Layout {
    /// The line break before the word `xref`.
    pub xref: int,
    /// The line with the number of entries.
    pub line: int,
    /// The space in that line.
    pub space: int,
    /// The end of that line.
    pub line_end: int,
    /// The first entry.
    pub table: int,
    /// The number of entries.
    pub count: int,
    /// The line break before the word `startxref`.
    pub start: int,
    /// The position of the table.
    pub value: int,
    /// The end of the position.
    pub value_end: int,
}

/// Whether a line break stands from index `i` to `j`: a newline, a carriage
/// return, or both in the other order.
pub open spec fn is_break(s: Seq<u8>, i: int, j: int) -> bool {
    ||| j == i + 1 && s[i] == 0x0a
    ||| j == i + 1 && s[i] == 0x0d && s[j] != 0x0a
    ||| j == i + 2 && s[i] == 0x0d && s[i + 1] == 0x0a
}

/// The word `xref` behind a newline.
pub open spec fn xref_word() -> Seq<u8> {
    seq![0x0au8, 0x78, 0x72, 0x65, 0x66]
}

/// The word `startxref` behind a newline.
pub open spec fn startxref_word() -> Seq<u8> {
    seq![0x0au8, 0x73, 0x74, 0x61, 0x72, 0x74, 0x78, 0x72, 0x65, 0x66]
}

impl Layout {
    /// Whether the parts of the document stand where the layout tells.
    pub open spec fn fits(self, pdf: Seq<u8>) -> bool {
        &&& pdf.len() + 28 <= usize::MAX
        &&& self.count <= usize::MAX
        &&& 0 <= self.xref
        &&& matches_at(pdf, xref_word(), self.xref)
        &&& forall|j: int|
            0 <= j <= self.xref ==> !#[trigger] matches_at(
                seq![0x0au8] + pdf,
                xref_word(),
                j,
            )
        &&& self.line < self.space < self.line_end - 1
        &&& is_break(pdf, self.xref + 5, self.line)
        &&& numeral(pdf, self.line, self.space)
        &&& pdf[self.space] == 0x20
        &&& numeral(pdf, self.space + 1, self.line_end)
        &&& self.count == digits_value(pdf.subrange(self.space + 1, self.line_end))
        &&& is_break(pdf, self.line_end, self.table)
        &&& 0 < self.count
        &&& self.table + 20 * self.count <= self.start
        &&& forall|i: int|
            self.table <= i < self.table + 20 * self.count ==> (#[trigger] pdf[i] == 0x0a <==> (i
                - self.table) % 20 == 19)
        &&& matches_at(pdf, startxref_word(), self.start)
        &&& forall|j: int|
            self.xref < j < self.start ==> !#[trigger] matches_at(pdf, startxref_word(), j)
        &&& self.start + 10 <= self.value < self.value_end < pdf.len()
        &&& blank(pdf, self.start + 10, self.value)
        &&& numeral(pdf, self.value, self.value_end)
        &&& pdf[self.value_end] == 0x0a || pdf[self.value_end] == 0x0d
        &&& digits_value(pdf.subrange(self.value, self.value_end)) <= usize::MAX
    }

    /// The index of the offset in entry `k`.
    pub open spec fn entry(self, k: int) -> int {
        self.table + 20 * k
    }

    /// The offset in entry `k`.
    pub open spec fn offset(self, pdf: Seq<u8>, k: int) -> int {
        digits_value(pdf.subrange(self.entry(k), self.entry(k) + 10)) as int
    }

    /// The position of the table.
    pub open spec fn position(self, pdf: Seq<u8>) -> int {
        digits_value(pdf.subrange(self.value, self.value_end)) as int
    }

    /// Whether the offsets and the position can be moved by `shift`: each entry
    /// starts with ten digits, ten digits hold what they are moved to, and there
    /// is room to end the document.
    pub open spec fn can_move(self, pdf: Seq<u8>, shift: int) -> bool {
        &&& 0 <= shift
        &&& forall|k: int|
            0 <= k < self.count ==> numeral(pdf, #[trigger] self.entry(k), self.entry(k) + 10)
                && self.offset(pdf, k) + shift < 10_000_000_000 && self.offset(pdf, k) + shift
                <= usize::MAX
        &&& self.position(pdf) + shift <= usize::MAX
        &&& self.value + decimal((self.position(pdf) + shift) as nat).len() + 7 <= pdf.len() + 10
    }
}

/// The document in the PDF part, before its offsets are moved.
proof fn lemma_unmoved(pdf: Seq<u8>)
    ensures
        unmoved_suffix(pdf).len() == pdf.len() + 28,
        forall|i: int|
            18 <= i < pdf.len() + 18 ==> #[trigger] unmoved_suffix(pdf)[i] == pdf[i - 18],
        unmoved_suffix(pdf).take(18) == stream_end(),
        stream_end()[17] == 0x0a,
        forall|i: int| 0 <= i < 17 && stream_end()[i] == 0x0a ==> #[trigger] stream_end()[i + 1]
            == 0x65,
        xref_mark() == xref_word(),
        startxref_mark() == startxref_word(),
{
    lemma_mark_lengths();
    reveal_strlit("\nendstream\nendobj\n");
    reveal_strlit("\nxref");
    reveal_strlit("\nstartxref");
    assert(xref_mark() =~= xref_word());
    assert(startxref_mark() =~= startxref_word());
    assert(unmoved_suffix(pdf).take(18) =~= stream_end());
}

/// A word stands in the PDF part where it stands in the document.
proof fn lemma_word_moved(pdf: Seq<u8>, word: Seq<u8>, i: int)
    requires
        0 <= i,
        i + word.len() <= pdf.len(),
    ensures
        matches_at(unmoved_suffix(pdf), word, i + 18) == matches_at(pdf, word, i),
{
    let s = unmoved_suffix(pdf);
    lemma_unmoved(pdf);
    assert(s.subrange(i + 18, i + 18 + word.len()) =~= pdf.subrange(i, i + word.len()));
}

/// The first word `xref` of a document is found.
proof fn lemma_first_xref(pdf: Seq<u8>, xref: int)
    requires
        0 <= xref,
        matches_at(pdf, xref_word(), xref),
        forall|j: int|
            0 <= j <= xref ==> !#[trigger] matches_at(seq![0x0au8] + pdf, xref_word(), j),
    ensures
        first_match(unmoved_suffix(pdf), xref_mark(), 0) == Some(xref + 18),
{
    let s = unmoved_suffix(pdf);
    let other = seq![0x0au8] + pdf;
    lemma_unmoved(pdf);
    lemma_word_moved(pdf, xref_word(), xref);
    assert forall|j: int| 0 <= j < xref + 18 implies !matches_at(s, xref_word(), j) by {
        if matches_at(s, xref_word(), j) {
            let w = s.subrange(j, j + 5);
            assert(w[0] == 0x0a && w[1] == 0x78);
            assert(s[j] == w[0] && s[j + 1] == w[1]);
            if j < 17 {
                assert(s.take(18)[j] == s[j] && s.take(18)[j + 1] == s[j + 1]);
            } else {
                assert(!matches_at(other, xref_word(), j - 17));
                assert(s[17] == s.take(18)[17]);
                assert(other.subrange(j - 17, j - 12) =~= w);
            }
        }
    }
    law_first_match_unique(s, xref_word(), 0, xref + 18);
}

/// The word `xref` is found.
proof fn lemma_xref_found(pdf: Seq<u8>, d: Layout)
    requires
        d.fits(pdf),
    ensures
        first_match(unmoved_suffix(pdf), xref_mark(), 0) == Some(d.xref + 18),
{
    lemma_first_xref(pdf, d.xref);
}

/// The word `startxref` is found.
proof fn lemma_startxref_found(pdf: Seq<u8>, d: Layout)
    requires
        d.fits(pdf),
    ensures
        first_match(unmoved_suffix(pdf), startxref_mark(), d.xref + 19) == Some(d.start + 18),
{
    let s = unmoved_suffix(pdf);
    lemma_unmoved(pdf);
    lemma_word_moved(pdf, startxref_word(), d.start);
    assert forall|j: int| d.xref + 19 <= j < d.start + 18 implies !matches_at(
        s,
        startxref_word(),
        j,
    ) by {
        lemma_word_moved(pdf, startxref_word(), j - 18);
        assert(!matches_at(pdf, startxref_word(), j - 18));
    }
    law_first_match_unique(s, startxref_word(), d.xref + 19, d.start + 18);
}

/// A line break is passed over.
proof fn lemma_break_skipped(s: Seq<u8>, i: int, j: int)
    requires
        0 <= i,
        j < s.len(),
        is_break(s, i, j),
        s[j] != 0x0a,
    ensures
        skip_break(s, i) == j,
{
}

/// A line with digits ends where its line break starts.
proof fn lemma_line_end(s: Seq<u8>, i: int, j: int, len: int)
    requires
        0 <= i <= j < s.len(),
        forall|k: int| i <= k < j ==> #[trigger] s[k] != 0x0a && s[k] != 0x0d,
        s[j] == 0x0a || s[j] == 0x0d,
    ensures
        line_end(s, i, len) == j,
    decreases j - i,
{
    lemma_next_line(s, i, j);
}

/// The next line break is the first one, of either kind.
proof fn lemma_next_line(s: Seq<u8>, i: int, j: int)
    requires
        0 <= i <= j < s.len(),
        forall|k: int| i <= k < j ==> #[trigger] s[k] != 0x0a && s[k] != 0x0d,
        s[j] == 0x0a || s[j] == 0x0d,
    ensures
        crate::pdf::next_break(s, i, true) == Some(j),
    decreases j - i,
{
    if i < j {
        lemma_next_line(s, i + 1, j);
    }
}

/// The number of entries and the first entry are found.
proof fn lemma_count_found(pdf: Seq<u8>, d: Layout)
    requires
        d.fits(pdf),
        numeral(pdf, d.table, d.table + 10),
    ensures
        ({
            let s = unmoved_suffix(pdf);
            &&& xref_at(s) == d.xref + 19
            &&& count_line(s) == d.line + 18
            &&& line_end(s, d.line + 18, 20) == d.line_end + 18
            &&& second_number(s.subrange(d.line + 18, d.line_end + 18)) == Some(d.count)
            &&& xref_count(s) == d.count
            &&& first_entry(s) == d.table + 18
        }),
{
    let s = unmoved_suffix(pdf);
    lemma_xref_found(pdf, d);
    lemma_break_moved(pdf, d.xref + 5, d.line);
    lemma_numeral_moved(pdf, d.line, d.space);
    lemma_numeral_moved(pdf, d.space + 1, d.line_end);
    lemma_break_moved(pdf, d.line_end, d.table);
    lemma_numeral_moved(pdf, d.table, d.table + 10);
    assert(s[d.space + 18] == pdf[d.space]) by {
        lemma_unmoved(pdf);
    }
    assert(s.subrange(d.space + 19, d.line_end + 18) =~= pdf.subrange(d.space + 1, d.line_end)) by {
        lemma_unmoved(pdf);
    }
    assert(s.len() == pdf.len() + 28) by {
        lemma_unmoved(pdf);
    }
    lemma_count_in(
        s,
        d.xref + 23,
        d.line + 18,
        d.space + 18,
        d.line_end + 18,
        d.table + 18,
    );
}

/// A line break stands in the PDF part where it stands in the document.
proof fn lemma_break_moved(pdf: Seq<u8>, i: int, j: int)
    requires
        0 <= i,
        j < pdf.len(),
        is_break(pdf, i, j),
    ensures
        is_break(unmoved_suffix(pdf), i + 18, j + 18),
{
    lemma_unmoved(pdf);
    let s = unmoved_suffix(pdf);
    assert(s[i + 18] == pdf[i] && s[i + 19] == pdf[i + 1] && s[j + 18] == pdf[j]);
}

/// Digits stand in the PDF part where they stand in the document.
proof fn lemma_numeral_moved(pdf: Seq<u8>, i: int, j: int)
    requires
        0 <= i,
        j <= pdf.len(),
        numeral(pdf, i, j),
    ensures
        numeral(unmoved_suffix(pdf), i + 18, j + 18),
{
    lemma_unmoved(pdf);
    let s = unmoved_suffix(pdf);
    assert forall|k: int| i + 18 <= k < j + 18 implies 0x30 <= #[trigger] s[k] <= 0x39 by {
        assert(s[k] == pdf[k - 18]);
    }
}

/// The number of entries is read from its line, and the first entry stands
/// behind that line.
proof fn lemma_count_in(s: Seq<u8>, from: int, line: int, space: int, end: int, table: int)
    requires
        0 <= from,
        line < space < end - 1,
        table + 10 <= s.len() <= usize::MAX,
        is_break(s, from, line),
        numeral(s, line, space),
        s[space] == 0x20,
        numeral(s, space + 1, end),
        is_break(s, end, table),
        numeral(s, table, table + 10),
        digits_value(s.subrange(space + 1, end)) <= usize::MAX,
    ensures
        skip_break(s, from) == line,
        line_end(s, line, 20) == end,
        second_number(s.subrange(line, end)) == Some(
            digits_value(s.subrange(space + 1, end)) as int,
        ),
        skip_break(s, end) == table,
{
    assert(0x30 <= s[line] <= 0x39);
    assert(0x30 <= s[table] <= 0x39);
    lemma_break_skipped(s, from, line);
    lemma_break_skipped(s, end, table);
    assert forall|k: int| line <= k < end implies #[trigger] s[k] != 0x0a && s[k] != 0x0d by {
        if k < space {
            assert(0x30 <= s[k] <= 0x39);
        } else if k > space {
            assert(0x30 <= s[k] <= 0x39);
        }
    }
    lemma_line_end(s, line, end, 20);
    lemma_count_read(s, line, space, end);
}

/// The second number of a line is read.
proof fn lemma_count_read(s: Seq<u8>, line: int, space: int, end: int)
    requires
        0 <= line < space < end - 1,
        end <= s.len(),
        numeral(s, line, space),
        s[space] == 0x20,
        numeral(s, space + 1, end),
        digits_value(s.subrange(space + 1, end)) <= usize::MAX,
    ensures
        second_number(s.subrange(line, end)) == Some(
            digits_value(s.subrange(space + 1, end)) as int,
        ),
{
    let part = s.subrange(line, end);
    let len = end - line;
    let a = space - line;
    assert(numeral(part, 0, a)) by {
        assert forall|k: int| 0 <= k < a implies 0x30 <= #[trigger] part[k] <= 0x39 by {
            assert(part[k] == s[line + k]);
        }
    }
    assert(blank(part, a, a + 1)) by {
        assert(part[a] == s[space]);
    }
    assert(numeral(part, a + 1, len)) by {
        assert forall|k: int| a + 1 <= k < len implies 0x30 <= #[trigger] part[k] <= 0x39 by {
            assert(part[k] == s[line + k]);
        }
    }
    assert(part.subrange(a + 1, len) =~= s.subrange(space + 1, end));
    law_second_number(part, 0, a, a + 1, len);
}

/// The position of the table is found and read.
proof fn lemma_position_found(pdf: Seq<u8>, d: Layout)
    requires
        d.fits(pdf),
    ensures
        ({
            let s = unmoved_suffix(pdf);
            &&& start_value(s) == d.value + 18
            &&& line_end(s, d.value + 18, 10) == d.value_end + 18
            &&& number_in_line(s, d.value + 18) == Some(d.position(pdf))
        }),
{
    let s = unmoved_suffix(pdf);
    lemma_unmoved(pdf);
    lemma_xref_found(pdf, d);
    lemma_startxref_found(pdf, d);
    assert(blank(s, d.start + 28, d.value + 18)) by {
        assert forall|k: int| d.start + 28 <= k < d.value + 18 implies #[trigger] s[k] == 0x20 || s[k]
            == 0x09 || s[k] == 0x0a || s[k] == 0x0d by {
            assert(s[k] == pdf[k - 18]);
        }
    }
    assert(s[d.value + 18] == pdf[d.value]);
    law_blank_skipped(s, d.start + 28, d.value + 18);
    assert forall|k: int| d.value + 18 <= k < d.value_end + 18 implies #[trigger] s[k] != 0x0a
        && s[k] != 0x0d by {
        assert(s[k] == pdf[k - 18]);
    }
    assert(s[d.value_end + 18] == pdf[d.value_end]);
    lemma_line_end(s, d.value + 18, d.value_end + 18, 10);
    let part = s.subrange(d.value + 18, d.value_end + 18);
    assert(part =~= pdf.subrange(d.value, d.value_end));
    let n = part.len() as int;
    assert(numeral(part, 0, n)) by {
        assert forall|k: int| 0 <= k < n implies 0x30 <= #[trigger] part[k] <= 0x39 by {
            assert(part[k] == pdf[d.value + k]);
        }
    }
    assert(part.subrange(0, n) =~= part);
    law_lone_number(part, 0, n);
}

/// Entries whose offsets can be moved are moved.
proof fn lemma_entries_move(s: Seq<u8>, at: int, n: int, shift: int)
    requires
        0 <= n,
        0 <= shift,
        plain_entries(s, at, n),
        forall|k: int|
            0 <= k < n ==> (lone_number(#[trigger] offset_field(s, at, k)) matches Some(offset)
                && offset + shift < 10_000_000_000 && offset + shift <= usize::MAX),
    ensures
        moved_entries(s, at, n, shift) is Some,
    decreases n,
{
    if n > 0 {
        assert(offset_field(s, at, 0) =~= s.subrange(at, at + 10));
        let offset = lone_number(offset_field(s, at, 0))->Some_0;
        lemma_ten_digits_hold((offset + shift) as nat);
        let u = moved_entry(s, at, shift)->Some_0;
        lemma_moved_entry(s, at, shift, u);
        lemma_first_entry_moved(s, at, n, shift, u);
        assert forall|k: int| 0 <= k < n - 1 implies (lone_number(
            #[trigger] offset_field(u, at + 20, k),
        ) matches Some(o) && o + shift < 10_000_000_000 && o + shift <= usize::MAX) by {
            assert(offset_field(u, at + 20, k) =~= offset_field(s, at, k + 1));
        }
        lemma_entries_move(u, at + 20, n - 1, shift);
    }
}

/// Ten digits hold every number below ten to the power of ten.
proof fn lemma_ten_digits_hold(n: nat)
    requires
        n < 10_000_000_000,
    ensures
        decimal(n).len() <= 10,
{
    law_decimal_len_monotonic(n, 9_999_999_999);
    assert(decimal(9_999_999_999).len() == 10) by {
        reveal_with_fuel(decimal, 11);
    }
}

/// The entries of the document as they stand in the PDF part.
proof fn lemma_table_moved(pdf: Seq<u8>, d: Layout, shift: int)
    requires
        d.fits(pdf),
        d.can_move(pdf, shift),
    ensures
        ({
            let s = unmoved_suffix(pdf);
            &&& plain_entries(s, d.table + 18, d.count)
            &&& forall|k: int|
                0 <= k < d.count ==> lone_number(#[trigger] offset_field(s, d.table + 18, k))
                    == Some(d.offset(pdf, k))
        }),
{
    let s = unmoved_suffix(pdf);
    lemma_unmoved(pdf);
    assert forall|i: int| d.table + 18 <= i < d.table + 18 + 20 * d.count implies (#[trigger] s[i]
        == 0x0a <==> (i - (d.table + 18)) % 20 == 19) by {
        assert(s[i] == pdf[i - 18]);
        assert((i - 18) - d.table == i - (d.table + 18));
    }
    assert forall|k: int| 0 <= k < d.count implies lone_number(
        #[trigger] offset_field(s, d.table + 18, k),
    ) == Some(d.offset(pdf, k)) by {
        let at = d.entry(k);
        assert(numeral(pdf, at, at + 10));
        let part = pdf.subrange(at, at + 10);
        assert(offset_field(s, d.table + 18, k) =~= part);
        assert(numeral(part, 0, 10)) by {
            assert forall|i: int| 0 <= i < 10 implies 0x30 <= #[trigger] part[i] <= 0x39 by {
                assert(part[i] == pdf[at + i]);
            }
        }
        assert(part.subrange(0, 10) =~= part);
        law_lone_number(part, 0, 10);
    }
}

/// Once the entries are moved, the position can be moved.
proof fn lemma_document_end(pdf: Seq<u8>, d: Layout, s: Seq<u8>, t: Seq<u8>, shift: int)
    requires
        s == unmoved_suffix(pdf),
        d.fits(pdf),
        d.can_move(pdf, shift),
        line_end(s, d.value + 18, 10) == d.value_end + 18,
        number_in_line(s, d.value + 18) == Some(d.position(pdf)),
        t.len() == s.len(),
        forall|i: int|
            0 <= i < s.len() && !in_offset_fields(d.table + 18, d.count, i) ==> #[trigger] t[i]
                == s[i],
    ensures
        number_in_line(t, d.value + 18) == Some(d.position(pdf)),
        moved_start(t, d.value + 18, shift) is Some,
{
    let start = d.value + 18;
    assert(s.len() == pdf.len() + 28) by {
        lemma_unmoved(pdf);
    }
    assert forall|j: int| start <= j < s.len() implies #[trigger] s[j] == t[j] by {
        assert(!in_offset_fields(d.table + 18, d.count, j));
    }
    lemma_next_break_same(s, t, start, true);
    assert(line_end(t, start, 10) == d.value_end + 18);
    assert(s.subrange(start, d.value_end + 18) =~= t.subrange(start, d.value_end + 18));
}

/// The bytes of the PDF part before the position, once everything is moved.
proof fn lemma_bytes_before(
    pdf: Seq<u8>,
    table: int,
    count: int,
    value: int,
    t: Seq<u8>,
    suffix: Seq<u8>,
)
    requires
        0 <= table,
        0 <= count,
        table + 20 * count <= value <= pdf.len(),
        t.len() == pdf.len() + 28,
        suffix.len() == t.len(),
        forall|i: int|
            0 <= i < t.len() && !in_offset_fields(table + 18, count, i) ==> #[trigger] t[i]
                == unmoved_suffix(pdf)[i],
        forall|i: int| 0 <= i < value + 18 ==> #[trigger] suffix[i] == t[i],
    ensures
        suffix.take(18) == seq![
            0x0au8, 0x65, 0x6e, 0x64, 0x73, 0x74, 0x72, 0x65, 0x61, 0x6d, 0x0a, 0x65, 0x6e, 0x64,
            0x6f, 0x62, 0x6a, 0x0a,
        ],
        forall|i: int|
            0 <= i < value && !(table <= i < table + 20 * count && (i - table) % 20 < 10)
                ==> suffix[i + 18] == #[trigger] pdf[i],
{
    let s = unmoved_suffix(pdf);
    lemma_unmoved(pdf);
    lemma_stream_end_text();
    assert forall|i: int|
        0 <= i < value && !(table <= i < table + 20 * count && (i - table) % 20 < 10) implies
        suffix[i + 18] == #[trigger] pdf[i] by {
        assert((i + 18) - (table + 18) == i - table);
        assert(!in_offset_fields(table + 18, count, i + 18));
        assert(s[i + 18] == pdf[i]);
        assert(t[i + 18] == s[i + 18]);
    }
    assert forall|i: int| 0 <= i < 18 implies #[trigger] suffix[i] == stream_end()[i] by {
        assert(!in_offset_fields(table + 18, count, i));
        assert(t[i] == s[i]);
        assert(s.take(18)[i] == s[i]);
    }
    assert(suffix.take(18) =~= stream_end());
}

/// The bytes of the PDF part from the position on, once everything is moved.
proof fn lemma_bytes_behind(
    pdf: Seq<u8>,
    table: int,
    count: int,
    value: int,
    position: int,
    t: Seq<u8>,
    suffix: Seq<u8>,
    shift: int,
)
    requires
        0 <= shift,
        0 <= position,
        0 <= table,
        0 <= count,
        table + 20 * count <= value <= pdf.len(),
        value + decimal((position + shift) as nat).len() + 7 <= pdf.len() + 10,
        t.len() == pdf.len() + 28,
        number_in_line(t, value + 18) == Some(position),
        moved_start(t, value + 18, shift) == Some(suffix),
        forall|i: int|
            0 <= i < t.len() && !in_offset_fields(table + 18, count, i) ==> #[trigger] t[i]
                == unmoved_suffix(pdf)[i],
    ensures
        ({
            let digits = decimal((position + shift) as nat);
            let end = value + 18 + digits.len();
            &&& suffix.len() == pdf.len() + 28
            &&& forall|i: int| 0 <= i < value + 18 ==> #[trigger] suffix[i] == t[i]
            &&& suffix.subrange(value + 18, end) == digits
            &&& suffix.subrange(end, end + 7) == seq![0x0au8, 0x25, 0x25, 0x45, 0x4f, 0x46, 0x0a]
            &&& forall|i: int|
                end + 7 <= i < end + 17 && i < suffix.len() ==> #[trigger] suffix[i] == if i
                    < pdf.len() + 18 {
                    pdf[i - 18]
                } else {
                    0
                }
            &&& forall|i: int| end + 17 <= i < suffix.len() ==> #[trigger] suffix[i] == 0
        }),
{
    let digits = decimal((position + shift) as nat);
    let end = value + 18 + digits.len();
    law_start_moved(t, value + 18, shift, suffix);
    lemma_start_frame(t, value + 18, shift, suffix);
    assert forall|i: int| end + 7 <= i < end + 17 && i < suffix.len() implies #[trigger] suffix[i]
        == if i < pdf.len() + 18 {
        pdf[i - 18]
    } else {
        0
    } by {
        assert(!in_offset_fields(table + 18, count, i));
        assert(suffix[i] == t[i]);
        lemma_room_is_zero(pdf, i);
    }
}

/// The offset field of an entry that is moved.
proof fn lemma_field_moved(t: Seq<u8>, suffix: Seq<u8>, at: int, k: int, end: int, v: nat)
    requires
        0 <= at,
        0 <= k,
        at + 20 * k + 10 <= end <= suffix.len(),
        suffix.len() == t.len(),
        forall|i: int| 0 <= i < end ==> #[trigger] suffix[i] == t[i],
        offset_field(t, at, k) == ten_digits(v),
        v < 10_000_000_000,
        v <= usize::MAX,
    ensures
        numeral(suffix.subrange(at + 20 * k, at + 20 * k + 10), 0, 10),
        digits_value(suffix.subrange(at + 20 * k, at + 20 * k + 10)) == v,
{
    let field = suffix.subrange(at + 20 * k, at + 20 * k + 10);
    assert(field =~= offset_field(t, at, k));
    lemma_ten_digits_hold(v);
    law_ten_digits(v);
    assert forall|i: int| 0 <= i < 10 implies 0x30 <= #[trigger] field[i] <= 0x39 by {
        assert(is_digit(ten_digits(v)[i]));
    }
}

/// What ends the stream object, as bytes.
proof fn lemma_stream_end_text()
    ensures
        stream_end() == seq![
            0x0au8, 0x65, 0x6e, 0x64, 0x73, 0x74, 0x72, 0x65, 0x61, 0x6d, 0x0a, 0x65, 0x6e, 0x64,
            0x6f, 0x62, 0x6a, 0x0a,
        ],
{
    reveal_strlit("\nendstream\nendobj\n");
    assert(stream_end() =~= seq![
        0x0au8, 0x65, 0x6e, 0x64, 0x73, 0x74, 0x72, 0x65, 0x61, 0x6d, 0x0a, 0x65, 0x6e, 0x64,
        0x6f, 0x62, 0x6a, 0x0a,
    ]);
}

/// The room behind the document is zeros.
proof fn lemma_room_is_zero(pdf: Seq<u8>, i: int)
    requires
        18 <= i < pdf.len() + 28,
    ensures
        unmoved_suffix(pdf)[i] == if i < pdf.len() + 18 {
            pdf[i - 18]
        } else {
            0
        },
{
    lemma_mark_lengths();
}

/// How the PDF part comes to be.
proof fn lemma_document_done(pdf: Seq<u8>, d: Layout, out_size: int) -> (r: (Seq<u8>, Seq<u8>))
    requires
        0 <= out_size,
        d.fits(pdf),
        d.can_move(pdf, out_size + 18),
    ensures
        ({
            let (t, suffix) = r;
            let shift = out_size + 18;
            &&& pdf_suffix(pdf, out_size) == Build::Done(suffix)
            &&& t.len() == pdf.len() + 28
            &&& number_in_line(t, d.value + 18) == Some(d.position(pdf))
            &&& moved_start(t, d.value + 18, shift) == Some(suffix)
            &&& forall|i: int|
                0 <= i < t.len() && !in_offset_fields(d.table + 18, d.count, i) ==> #[trigger] t[i]
                    == unmoved_suffix(pdf)[i]
            &&& forall|k: int|
                0 <= k < d.count ==> #[trigger] offset_field(t, d.table + 18, k) == ten_digits(
                    (d.offset(pdf, k) + shift) as nat,
                )
        }),
{
    let s = unmoved_suffix(pdf);
    let shift = out_size + 18;
    let at = d.table + 18;
    lemma_mark_lengths();
    lemma_xref_found(pdf, d);
    lemma_startxref_found(pdf, d);
    assert(numeral(pdf, d.table, d.table + 10)) by {
        assert(numeral(pdf, d.entry(0), d.entry(0) + 10));
    }
    lemma_count_found(pdf, d);
    lemma_position_found(pdf, d);
    lemma_table_moved(pdf, d, shift);
    assert forall|k: int| 0 <= k < d.count implies (lone_number(#[trigger] offset_field(s, at, k))
        matches Some(offset) && offset + shift < 10_000_000_000 && offset + shift
        <= usize::MAX) by {
        assert(numeral(pdf, d.entry(k), d.entry(k) + 10));
    }
    lemma_entries_move(s, at, d.count, shift);
    let t = moved_entries(s, at, d.count, shift)->Some_0;
    law_entries_moved(s, at, d.count, shift, t);
    lemma_document_end(pdf, d, s, t, shift);
    let suffix = moved_start(t, d.value + 18, shift)->Some_0;
    assert forall|k: int| 0 <= k < d.count implies #[trigger] offset_field(t, at, k) == ten_digits(
        (d.offset(pdf, k) + shift) as nat,
    ) by {
        assert(lone_number(offset_field(s, at, k)) == Some(d.offset(pdf, k)));
    }
    (t, suffix)
}

/// A document whose parts stand as they do in PDF documents, and whose offsets
/// can be moved, is moved: the PDF part ends the stream object, and then has the
/// document, in which each entry of the table starts with ten digits for its
/// offset and `out_size + 18` more, and the position of the table is as much
/// more, in digits without a leading zero. Behind it stands `%%EOF` between two
/// newlines, then ten bytes as they were, and then zeros. Nothing else is
/// changed.
pub proof fn law_document(pdf: Seq<u8>, d: Layout, out_size: int)
    requires
        0 <= out_size,
        d.fits(pdf),
        d.can_move(pdf, out_size + 18),
    ensures
        pdf_suffix(pdf, out_size) is Done,
        ({
            let suffix = pdf_suffix(pdf, out_size)->Done_0;
            let shift = out_size + 18;
            let digits = decimal((d.position(pdf) + shift) as nat);
            let end = d.value + 18 + digits.len();
            &&& suffix.len() == pdf.len() + 28
            &&& suffix.take(18) == seq![
                0x0au8, 0x65, 0x6e, 0x64, 0x73, 0x74, 0x72, 0x65, 0x61, 0x6d, 0x0a, 0x65, 0x6e,
                0x64, 0x6f, 0x62, 0x6a, 0x0a,
            ]
            &&& forall|i: int|
                0 <= i < d.value && !(d.table <= i < d.table + 20 * d.count && (i - d.table) % 20
                    < 10) ==> suffix[i + 18] == #[trigger] pdf[i]
            &&& forall|k: int|
                0 <= k < d.count ==> {
                    let field = suffix.subrange(
                        #[trigger] d.entry(k) + 18,
                        d.entry(k) + 28,
                    );
                    &&& numeral(field, 0, 10)
                    &&& digits_value(field) == d.offset(pdf, k) + shift
                }
            &&& suffix.subrange(d.value + 18, end) == digits
            &&& digits_value(digits) == d.position(pdf) + shift
            &&& digits.len() > 1 ==> digits[0] != 0x30
            &&& suffix.subrange(end, end + 7) == seq![0x0au8, 0x25, 0x25, 0x45, 0x4f, 0x46, 0x0a]
            &&& forall|i: int|
                end + 7 <= i < end + 17 && i < suffix.len() ==> #[trigger] suffix[i] == if i
                    < pdf.len() + 18 {
                    pdf[i - 18]
                } else {
                    0
                }
            &&& forall|i: int| end + 17 <= i < suffix.len() ==> #[trigger] suffix[i] == 0
        }),
{
    let shift = out_size + 18;
    let (t, suffix) = lemma_document_done(pdf, d, out_size);
    let n = (d.position(pdf) + shift) as nat;
    lemma_bytes_behind(pdf, d.table, d.count, d.value, d.position(pdf), t, suffix, shift);
    lemma_bytes_before(pdf, d.table, d.count, d.value, t, suffix);
    law_decimal_value(n);
    law_no_leading_zero(n);
    assert forall|k: int| 0 <= k < d.count implies {
        let field = suffix.subrange(#[trigger] d.entry(k) + 18, d.entry(k) + 28);
        &&& numeral(field, 0, 10)
        &&& digits_value(field) == d.offset(pdf, k) + shift
    } by {
        assert(numeral(pdf, d.entry(k), d.entry(k) + 10));
        let v = (d.offset(pdf, k) + shift) as nat;
        assert(offset_field(t, d.table + 18, k) == ten_digits(v));
        lemma_field_moved(t, suffix, d.table + 18, k, d.value + 18, v);
    }
}

/// A word that ends with no zero and stands in the PDF part, behind the end of the
/// stream object, stands in the document.
proof fn lemma_word_in_document(pdf: Seq<u8>, word: Seq<u8>, j: int)
    requires
        17 <= j,
        2 <= word.len(),
        word.last() != 0,
        matches_at(unmoved_suffix(pdf), word, j),
    ensures
        matches_at(seq![0x0au8] + pdf, word, j - 17),
        18 <= j ==> matches_at(pdf, word, j - 18),
{
    let s = unmoved_suffix(pdf);
    let other = seq![0x0au8] + pdf;
    let n = word.len() as int;
    lemma_unmoved(pdf);
    let w = s.subrange(j, j + n);
    assert(w[n - 1] == s[j + n - 1]);
    lemma_room_is_zero(pdf, j + n - 1);
    assert(s[17] == s.take(18)[17]);
    assert(other.subrange(j - 17, j - 17 + n) =~= w);
    if 18 <= j {
        assert(pdf.subrange(j - 18, j - 18 + n) =~= w);
    }
}

/// A document without a line that starts with `xref` is refused, and so is one
/// without a line behind it that starts with `startxref`.
pub proof fn law_document_refused(pdf: Seq<u8>, out_size: int, xref: int)
    requires
        0 <= out_size,
    ensures
        (forall|j: int| 0 <= j ==> !#[trigger] matches_at(seq![0x0au8] + pdf, xref_word(), j))
            ==> pdf_suffix(pdf, out_size) == Build::<Seq<u8>>::Failed(PolyglotError::Xref),
        0 <= xref && matches_at(pdf, xref_word(), xref) && (forall|j: int|
            0 <= j <= xref ==> !#[trigger] matches_at(seq![0x0au8] + pdf, xref_word(), j)) && (
        forall|j: int| xref < j ==> !#[trigger] matches_at(pdf, startxref_word(), j))
            ==> pdf_suffix(pdf, out_size) == Build::<Seq<u8>>::Failed(PolyglotError::StartXref),
{
    let s = unmoved_suffix(pdf);
    let other = seq![0x0au8] + pdf;
    lemma_unmoved(pdf);
    if forall|j: int| 0 <= j ==> !#[trigger] matches_at(other, xref_word(), j) {
        law_first_match(s, xref_word(), 0);
        if let Some(j) = first_match(s, xref_word(), 0) {
            let w = s.subrange(j, j + 5);
            assert(w[0] == 0x0a && w[1] == 0x78);
            assert(s[j] == w[0] && s[j + 1] == w[1]);
            if j < 17 {
                assert(s.take(18)[j] == s[j] && s.take(18)[j + 1] == s[j + 1]);
            } else {
                lemma_word_in_document(pdf, xref_word(), j);
            }
        }
    }
    if 0 <= xref && matches_at(pdf, xref_word(), xref) && (forall|j: int|
        0 <= j <= xref ==> !#[trigger] matches_at(other, xref_word(), j)) && (forall|j: int|
        xref < j ==> !#[trigger] matches_at(pdf, startxref_word(), j)) {
        lemma_first_xref(pdf, xref);
        law_first_match(s, startxref_word(), xref + 19);
        if let Some(j) = first_match(s, startxref_word(), xref + 19) {
            lemma_word_in_document(pdf, startxref_word(), j);
            assert(!matches_at(pdf, startxref_word(), j - 18));
        }
    }
}

} // verus!
