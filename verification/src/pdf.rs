//! The PDF part that follows the media data: the document itself, with the
//! file offsets in its cross-reference table moved to where it stands now.
use crate::bytes::{ascii, ascii_bytes, overwrite, overwritten, zeros};
use crate::error::PolyglotError;
use crate::number::{
    after_white, as_chars, decimal, decimal_string, lemma_ascii, lemma_decimal_digits, lone_number,
    parse_lone_number, parse_second_number, second_number, skip_white,
};
use crate::outcome::Build;
use crate::utils::{find_subarray, first_match, law_first_match, pad_left, padding};
use vstd::prelude::*;
use vstd::utf8::encode_utf8;

verus! {

/// What ends the stream object that the media data is in.
pub open spec fn stream_end() -> Seq<u8> {
    ascii("\nendstream\nendobj\n"@)
}

/// What a cross-reference table starts with, after a newline.
pub open spec fn xref_mark() -> Seq<u8> {
    ascii("\nxref"@)
}

/// What stands, after a newline, before the position of the cross-reference
/// table.
pub open spec fn startxref_mark() -> Seq<u8> {
    ascii("\nstartxref"@)
}

/// What ends a PDF document.
pub open spec fn eof_mark() -> Seq<u8> {
    ascii("\n%%EOF\n"@)
}

/// The first index from `i` on at which a newline stands or, where `cr` is
/// set, a carriage return.
pub open spec fn next_break(s: Seq<u8>, i: int, cr: bool) -> Option<int>
    decreases s.len() - i,
{
    if i < 0 || i >= s.len() {
        None
    } else if s[i] == 0x0a || cr && s[i] == 0x0d {
        Some(i)
    } else {
        next_break(s, i + 1, cr)
    }
}

/// The index behind the line break at index `i`: a carriage return, a newline,
/// both in that order, or nothing.
pub open spec fn skip_break(s: Seq<u8>, i: int) -> int {
    let j = if 0 <= i < s.len() && s[i] == 0x0d {
        i + 1
    } else {
        i
    };
    if 0 <= j < s.len() && s[j] == 0x0a {
        j + 1
    } else {
        j
    }
}

/// `n` in ten decimal digits.
pub open spec fn ten_digits(n: nat) -> Seq<u8> {
    Seq::new((10 - decimal(n).len()) as nat, |i: int| 0x30u8) + decimal(n)
}

/// `s` with `shift` added to the offset in the table entry at index `at`,
/// which is the number that the first ten bytes are. What is no number stays
/// as it is. There is no result if ten digits or a `usize` do not hold the
/// sum.
pub open spec fn moved_entry(s: Seq<u8>, at: int, shift: int) -> Option<Seq<u8>> {
    match lone_number(s.subrange(at, at + 10)) {
        None => Some(s),
        Some(offset) => if offset + shift <= usize::MAX && decimal((offset + shift) as nat).len()
            <= 10 {
            Some(overwritten(s, at, ten_digits((offset + shift) as nat)))
        } else {
            None
        },
    }
}

/// The index of the table entry after the one at index `at`: the next line,
/// or twenty bytes on where no line follows.
pub open spec fn next_entry(s: Seq<u8>, at: int) -> int {
    match next_break(s, at, false) {
        Some(p) => p + 1,
        None => at + 20,
    }
}

/// `s` with `shift` added to the offsets in the `n` table entries from index
/// `at` on, as far as there are twenty bytes for an entry.
pub open spec fn moved_entries(s: Seq<u8>, at: int, n: int, shift: int) -> Option<Seq<u8>>
    decreases n,
{
    if n <= 0 || at + 20 > s.len() {
        Some(s)
    } else {
        match moved_entry(s, at, shift) {
            None => None,
            Some(t) => moved_entries(t, next_entry(t, at), n - 1, shift),
        }
    }
}

/// `s` with zeros from index `from` on.
pub open spec fn cleared(s: Seq<u8>, from: int) -> Seq<u8> {
    Seq::new(
        s.len(),
        |i: int|
            if i >= from {
                0u8
            } else {
                s[i]
            },
    )
}

/// `s` with the digits of `n` at index `at`, the end of the document behind
/// them where there is room for it, and zeros from seventeen bytes behind the
/// digits on.
pub open spec fn ended_with(s: Seq<u8>, at: int, n: nat) -> Seq<u8> {
    let end = at + decimal(n).len();
    let t = overwritten(s, at, decimal(n));
    let u = if end + 7 <= s.len() {
        overwritten(t, end, eof_mark())
    } else {
        t
    };
    cleared(u, end + 17)
}

/// Where the line that starts at index `at` ends; without a line break it is
/// taken to have `len` bytes.
pub open spec fn line_end(s: Seq<u8>, at: int, len: int) -> int {
    match next_break(s, at, true) {
        Some(p) => p,
        None => at + len,
    }
}

/// `s` with `shift` added to the position of the cross-reference table, which
/// is the number in the line at index `at`. What is no number stays as it is.
/// There is no result if that line, or the sum, ends behind `s`, or a `usize`
/// does not hold the sum.
pub open spec fn moved_start(s: Seq<u8>, at: int, shift: int) -> Option<Seq<u8>> {
    let end = line_end(s, at, 10);
    if end > s.len() {
        None
    } else {
        match lone_number(s.subrange(at, end)) {
            None => Some(s),
            Some(offset) => if offset + shift <= usize::MAX && at + decimal(
                (offset + shift) as nat,
            ).len() <= s.len() {
                Some(ended_with(s, at, (offset + shift) as nat))
            } else {
                None
            },
        }
    }
}

/// The end of the stream object, the document, and room for longer offsets.
pub open spec fn unmoved_suffix(pdf: Seq<u8>) -> Seq<u8> {
    stream_end() + pdf + zeros(10)
}

/// `s`, in which the cross-reference table starts at index `xref` and the
/// word `startxref` at index `start`, with `shift` added to its offsets. The
/// position of the table stands behind the word and white space.
pub open spec fn moved_offsets(s: Seq<u8>, xref: int, start: int, shift: int) -> Build<Seq<u8>> {
    let line = skip_break(s, xref + 4);
    let end = line_end(s, line, 20);
    if end > s.len() {
        Build::Undefined
    } else {
        match second_number(s.subrange(line, end)) {
            None => Build::Failed(PolyglotError::XrefCount),
            Some(n) => match moved_entries(s, skip_break(s, end), n, shift) {
                None => Build::Undefined,
                Some(t) => match moved_start(t, skip_white(s, start + 9), shift) {
                    None => Build::Undefined,
                    Some(u) => Build::Done(u),
                },
            },
        }
    }
}

/// What follows `out_size` bytes of media data so that the whole ends as a PDF
/// document: the document, behind the end of the stream object that the media
/// data is in, with its file offsets moved to where it then stands.
pub open spec fn pdf_suffix(pdf: Seq<u8>, out_size: int) -> Build<Seq<u8>> {
    let s = unmoved_suffix(pdf);
    match first_match(s, xref_mark(), 0) {
        None => Build::Failed(PolyglotError::Xref),
        Some(x) => match first_match(s, startxref_mark(), x + 1) {
            None => Build::Failed(PolyglotError::StartXref),
            Some(q) => moved_offsets(s, x + 1, q + 1, out_size + stream_end().len()),
        },
    }
}

/// The lengths of the marks.
pub proof fn lemma_mark_lengths()
    ensures
        stream_end().len() == 18,
        xref_mark().len() == 5,
        startxref_mark().len() == 10,
        eof_mark().len() == 7,
{
    reveal_strlit("\nendstream\nendobj\n");
    reveal_strlit("\nxref");
    reveal_strlit("\nstartxref");
    reveal_strlit("\n%%EOF\n");
}

/// The first index from `i` on at which a line break stands.
fn find_break(s: &[u8], i: usize, cr: bool) -> (r: Option<usize>)
    ensures
        r is Some <==> next_break(s@, i as int, cr) is Some,
        r matches Some(p) ==> next_break(s@, i as int, cr) == Some(p as int) && i <= p < s@.len(),
{
    let mut p: usize = i;
    while p < s.len()
        invariant
            i <= p,
            next_break(s@, i as int, cr) == next_break(s@, p as int, cr),
        decreases s@.len() - p,
    {
        if s[p] == 0x0a || (cr && s[p] == 0x0d) {
            return Some(p);
        }
        p = p + 1;
    }
    None
}

/// The index behind the line break at index `i`.
fn after_break(s: &[u8], i: usize) -> (r: usize)
    requires
        i <= s@.len(),
    ensures
        r == skip_break(s@, i as int),
        i <= r <= s@.len(),
{
    let mut j: usize = i;
    if j < s.len() && s[j] == 0x0d {
        j = j + 1;
    }
    if j < s.len() && s[j] == 0x0a {
        j = j + 1;
    }
    j
}

/// The sum of an offset, a size and the length of the end of the stream.
fn moved(offset: usize, out_size: usize) -> (r: Option<usize>)
    ensures
        r is Some <==> offset + out_size + 18 <= usize::MAX,
        r matches Some(v) ==> v == offset + out_size + 18,
{
    match offset.checked_add(out_size) {
        Some(v) => v.checked_add(18),
        None => None,
    }
}

/// Moves the offset in the table entry at index `at`; `false` if it does not
/// fit, and then nothing is changed.
fn move_entry(s: &mut Vec<u8>, at: usize, out_size: usize) -> (r: bool)
    requires
        at + 20 <= old(s)@.len(),
    ensures
        r == (moved_entry(old(s)@, at as int, out_size + 18) is Some),
        r ==> moved_entry(old(s)@, at as int, out_size + 18) == Some(final(s)@),
        final(s)@.len() == old(s)@.len(),
{
    let len = s.len();
    match parse_lone_number(&s.as_slice()[at..at + 10]) {
        None => true,
        Some(offset) => {
            match moved(offset, out_size) {
                None => false,
                Some(sum) => {
                    let digits = decimal_string(sum);
                    if digits.as_str().as_bytes().len() > 10 {
                        return false;
                    }
                    proof {
                        lemma_ascii(seq![0x30u8]);
                        assert(as_chars(seq![0x30u8]) =~= seq!['0']);
                        assert(padding(digits@, 10) * encode_utf8(seq!['0']).len() == padding(
                            digits@,
                            10,
                        )) by (nonlinear_arith)
                            requires
                                encode_utf8(seq!['0']).len() == 1,
                        ;
                    }
                    let padded = pad_left(digits.as_str(), 10, '0');
                    proof {
                        lemma_decimal_digits(sum as nat);
                        lemma_ascii(ten_digits(sum as nat));
                        assert(padded@ =~= as_chars(ten_digits(sum as nat)));
                    }
                    overwrite(s.as_mut_slice(), at, padded.as_str().as_bytes());
                    true
                },
            }
        },
    }
}

/// Moves the offsets in the `n` table entries from index `at` on; `false` if
/// one does not fit.
fn move_entries(s: &mut Vec<u8>, at: usize, n: usize, out_size: usize) -> (r: bool)
    requires
        at <= old(s)@.len(),
    ensures
        r == (moved_entries(old(s)@, at as int, n as int, out_size + 18) is Some),
        r ==> moved_entries(old(s)@, at as int, n as int, out_size + 18) == Some(final(s)@),
        final(s)@.len() == old(s)@.len(),
{
    let mut curr: usize = at;
    let mut left: usize = n;
    while left > 0 && s.len() - curr >= 20
        invariant
            curr <= s@.len(),
            s@.len() == old(s)@.len(),
            moved_entries(old(s)@, at as int, n as int, out_size + 18) == moved_entries(
                s@,
                curr as int,
                left as int,
                out_size + 18,
            ),
        decreases left,
    {
        if !move_entry(s, curr, out_size) {
            return false;
        }
        curr = match find_break(s.as_slice(), curr, false) {
            Some(p) => p + 1,
            None => curr + 20,
        };
        left = left - 1;
    }
    true
}

/// Where the line that starts at index `at` ends, if it ends within `s`.
fn find_line_end(s: &[u8], at: usize, len: usize) -> (r: Option<usize>)
    requires
        at <= s@.len(),
    ensures
        r is Some <==> line_end(s@, at as int, len as int) <= s@.len(),
        r matches Some(p) ==> p == line_end(s@, at as int, len as int) && at <= p <= s@.len(),
{
    match find_break(s, at, true) {
        Some(p) => Some(p),
        None => if s.len() - at >= len {
            Some(at + len)
        } else {
            None
        },
    }
}

/// Moves the position of the cross-reference table in the line at index `at`;
/// `false` if that cannot be done.
fn move_start(s: &mut Vec<u8>, at: usize, out_size: usize) -> (r: bool)
    requires
        at <= old(s)@.len(),
    ensures
        r == (moved_start(old(s)@, at as int, out_size + 18) is Some),
        r ==> moved_start(old(s)@, at as int, out_size + 18) == Some(final(s)@),
{
    let end: usize = match find_line_end(s.as_slice(), at, 10) {
        Some(p) => p,
        None => return false,
    };
    let offset: usize = match parse_lone_number(&s.as_slice()[at..end]) {
        Some(v) => v,
        None => return true,
    };
    let sum: usize = match moved(offset, out_size) {
        Some(v) => v,
        None => return false,
    };
    let digits = decimal_string(sum);
    let bytes = digits.as_str().as_bytes();
    let len = s.len();
    if len - at < bytes.len() {
        return false;
    }
    let ghost before = s@;
    overwrite(s.as_mut_slice(), at, bytes);
    let digits_end: usize = at + bytes.len();
    if len - digits_end >= 7 {
        proof {
            reveal_strlit("\n%%EOF\n");
        }
        overwrite(s.as_mut_slice(), digits_end, ascii_bytes("\n%%EOF\n"));
    }
    let ghost written = s@;
    if len - digits_end > 17 {
        let mut i: usize = digits_end + 17;
        while i < len
            invariant
                digits_end + 17 <= i <= len == s@.len() == written.len(),
                forall|j: int|
                    0 <= j < len ==> s@[j] == (if digits_end + 17 <= j < i {
                        0u8
                    } else {
                        written[j]
                    }),
            decreases len - i,
        {
            s[i] = 0;
            i = i + 1;
        }
    }
    proof {
        lemma_mark_lengths();
        assert(s@ =~= cleared(written, digits_end + 17));
    }
    true
}

/// Builds what follows `out_size` bytes of media data so that the whole ends
/// as a PDF document, or tells why that cannot be built.
pub fn compose_pdf_suffix(pdf_buf: &[u8], out_size: usize) -> (r: Build<Vec<u8>>)
    requires
        pdf_buf@.len() + 28 <= usize::MAX,
    ensures
        match (r, pdf_suffix(pdf_buf@, out_size as int)) {
            (Build::Done(v), Build::Done(s)) => v@ == s,
            (Build::Failed(e), Build::Failed(f)) => e == f,
            (Build::Undefined, Build::Undefined) => true,
            _ => false,
        },
{
    proof {
        reveal_strlit("\nendstream\nendobj\n");
        reveal_strlit("\nxref");
        reveal_strlit("\nstartxref");
        lemma_mark_lengths();
    }
    let mut s: Vec<u8> = Vec::with_capacity(pdf_buf.len() + 28);
    s.extend_from_slice(ascii_bytes("\nendstream\nendobj\n"));
    s.extend_from_slice(pdf_buf);
    let room: [u8; 10] = [0; 10];
    s.extend_from_slice(&room);
    proof {
        assert(s@ =~= unmoved_suffix(pdf_buf@));
        law_first_match(s@, xref_mark(), 0);
    }
    let xref: usize = match find_subarray(s.as_slice(), ascii_bytes("\nxref"), 0) {
        Some(p) => p + 1,
        None => return Build::Failed(PolyglotError::Xref),
    };
    proof {
        law_first_match(s@, startxref_mark(), xref as int);
        lemma_startxref_before_room(pdf_buf@, xref as int);
    }
    let start: usize = match find_subarray(s.as_slice(), ascii_bytes("\nstartxref"), xref) {
        Some(p) => p + 1,
        None => return Build::Failed(PolyglotError::StartXref),
    };
    let line = after_break(s.as_slice(), xref + 4);
    let end: usize = match find_line_end(s.as_slice(), line, 20) {
        Some(p) => p,
        None => return Build::Undefined,
    };
    let count: usize = match parse_second_number(&s.as_slice()[line..end]) {
        Some(v) => v,
        None => return Build::Failed(PolyglotError::XrefCount),
    };
    let first = after_break(s.as_slice(), end);
    let value = after_white(s.as_slice(), start + 9);
    if !move_entries(&mut s, first, count, out_size) {
        return Build::Undefined;
    }
    if !move_start(&mut s, value, out_size) {
        return Build::Undefined;
    }
    Build::Done(s)
}

/// The word `startxref` stands before the room behind the document.
proof fn lemma_startxref_before_room(pdf: Seq<u8>, from: int)
    requires
        0 <= from,
    ensures
        first_match(unmoved_suffix(pdf), startxref_mark(), from) matches Some(q) ==> q + 10
            <= pdf.len() + 18,
{
    let s = unmoved_suffix(pdf);
    lemma_mark_lengths();
    law_first_match(s, startxref_mark(), from);
    if let Some(q) = first_match(s, startxref_mark(), from) {
        if q + 10 > pdf.len() + 18 {
            reveal_strlit("\nstartxref");
            assert(s.subrange(q, q + 10)[9] == 0);
            assert(startxref_mark()[9] != 0);
        }
    }
}

/// Builds what follows `out_size` bytes of media data so that the whole ends
/// as a PDF document.
pub fn build_pdf_suffix(pdf_buf: &[u8], out_size: usize) -> (r: Result<Vec<u8>, PolyglotError>)
    requires
        pdf_buf@.len() + 28 <= usize::MAX,
        !(pdf_suffix(pdf_buf@, out_size as int) is Undefined),
    ensures
        match pdf_suffix(pdf_buf@, out_size as int) {
            Build::Done(s) => r is Ok && r->Ok_0@ == s,
            Build::Failed(e) => r == Err::<Vec<u8>, PolyglotError>(e),
            Build::Undefined => true,
        },
{
    match compose_pdf_suffix(pdf_buf, out_size) {
        Build::Done(v) => Ok(v),
        Build::Failed(e) => Err(e),
        Build::Undefined => vstd::pervasive::unreached(),
    }
}

} // verus!
