//! Searching bytes, padding text and reading box headers.
use crate::bytes::{be32_at, read_u32_be};
use vstd::prelude::*;
use vstd::utf8::encode_utf8;

verus! {

/// Whether `needle` stands in `haystack` at index `i`.
pub open spec fn matches_at(haystack: Seq<u8>, needle: Seq<u8>, i: int) -> bool {
    &&& 0 <= i
    &&& i + needle.len() <= haystack.len()
    &&& haystack.subrange(i, i + needle.len()) == needle
}

/// The first index, from `start` on, at which `needle` stands in `haystack`.
/// An empty `needle` is nowhere.
pub open spec fn first_match(haystack: Seq<u8>, needle: Seq<u8>, start: int) -> Option<int>
    decreases haystack.len() - start,
{
    if needle.len() == 0 || start < 0 || start + needle.len() > haystack.len() {
        None
    } else if matches_at(haystack, needle, start) {
        Some(start)
    } else {
        first_match(haystack, needle, start + 1)
    }
}

/// The first match is a match, none comes before it, and where there is no
/// first match there is no match at all.
pub proof fn law_first_match(haystack: Seq<u8>, needle: Seq<u8>, start: int)
    requires
        needle.len() > 0,
        0 <= start,
    ensures
        first_match(haystack, needle, start) matches Some(i) ==> {
            &&& start <= i
            &&& matches_at(haystack, needle, i)
            &&& forall|j: int| start <= j < i ==> !matches_at(haystack, needle, j)
        },
        first_match(haystack, needle, start) is None ==> forall|j: int|
            start <= j ==> !matches_at(haystack, needle, j),
    decreases haystack.len() - start,
{
    if start + needle.len() <= haystack.len() && !matches_at(haystack, needle, start) {
        law_first_match(haystack, needle, start + 1);
    }
}

/// A match is all bytes of `needle`, one behind the other; and nothing is found
/// where there is nothing to look for.
pub proof fn law_match(haystack: Seq<u8>, needle: Seq<u8>, i: int)
    ensures
        matches_at(haystack, needle, i) <==> 0 <= i && i + needle.len() <= haystack.len()
            && forall|k: int| 0 <= k < needle.len() ==> haystack[i + k] == #[trigger] needle[k],
        needle.len() == 0 ==> first_match(haystack, needle, i) is None,
{
    if 0 <= i && i + needle.len() <= haystack.len() {
        let part = haystack.subrange(i, i + needle.len());
        if forall|k: int| 0 <= k < needle.len() ==> haystack[i + k] == #[trigger] needle[k] {
            assert(part =~= needle);
        }
        if part == needle {
            assert forall|k: int| 0 <= k < needle.len() implies haystack[i + k]
                == #[trigger] needle[k] by {
                assert(part[k] == haystack[i + k]);
            }
        }
    }
}

/// Whether `needle` stands in `haystack` at no index before `end`.
pub open spec fn no_match_before(haystack: Seq<u8>, needle: Seq<u8>, end: int) -> bool {
    forall|j: int| 0 <= j < end ==> !matches_at(haystack, needle, j)
}

/// A match with none before it is the first match.
pub proof fn law_first_match_unique(haystack: Seq<u8>, needle: Seq<u8>, start: int, i: int)
    requires
        needle.len() > 0,
        0 <= start <= i,
        matches_at(haystack, needle, i),
        forall|j: int| start <= j < i ==> !matches_at(haystack, needle, j),
    ensures
        first_match(haystack, needle, start) == Some(i),
{
    law_first_match(haystack, needle, start);
}

/// Whether two slices hold the same bytes.
pub fn same_bytes(a: &[u8], b: &[u8]) -> (r: bool)
    ensures
        r == (a@ == b@),
{
    if a.len() != b.len() {
        return false;
    }
    let mut i: usize = 0;
    while i < a.len()
        invariant
            i <= a@.len() == b@.len(),
            forall|j: int| 0 <= j < i ==> a@[j] == b@[j],
        decreases a@.len() - i,
    {
        if a[i] != b[i] {
            return false;
        }
        i = i + 1;
    }
    assert(a@ =~= b@);
    true
}

/// The first index, from `start` on, at which `needle` stands in `haystack`.
pub fn find_subarray(haystack: &[u8], needle: &[u8], start: usize) -> (r: Option<usize>)
    ensures
        r is Some <==> first_match(haystack@, needle@, start as int) is Some,
        r matches Some(i) ==> first_match(haystack@, needle@, start as int) == Some(i as int),
{
    if needle.is_empty() || start >= haystack.len() {
        return None;
    }
    let mut i: usize = start;
    while needle.len() <= haystack.len() - i
        invariant
            0 < needle@.len(),
            start <= i <= haystack@.len(),
            first_match(haystack@, needle@, start as int) == first_match(
                haystack@,
                needle@,
                i as int,
            ),
        decreases haystack@.len() - i,
    {
        if same_bytes(&haystack[i..i + needle.len()], needle) {
            return Some(i);
        }
        i = i + 1;
    }
    None
}

/// How many characters `pad_left` puts before `s`.
pub open spec fn padding(s: Seq<char>, target_len: int) -> nat {
    if encode_utf8(s).len() >= target_len {
        0
    } else {
        (target_len - encode_utf8(s).len()) as nat
    }
}

/// As many characters are put before a text as it has bytes too few.
pub proof fn law_padding(s: Seq<char>, target_len: int)
    ensures
        target_len <= encode_utf8(s).len() ==> padding(s, target_len) == 0,
        encode_utf8(s).len() <= target_len ==> padding(s, target_len) + encode_utf8(s).len()
            == target_len,
{
}

/// Appends a character to a string with `String::push`, which panics where the
/// string would be longer than memory can be.
pub assume_specification[ String::push ](s: &mut String, c: char)
    requires
        encode_utf8(old(s)@.push(c)).len() <= isize::MAX,
    ensures
        final(s)@ == old(s)@.push(c),
;

/// The length of `n` copies of a character in UTF-8.
proof fn lemma_copies_len(n: nat, c: char)
    ensures
        encode_utf8(Seq::new(n, |i: int| c)).len() == n * encode_utf8(seq![c]).len(),
    decreases n,
{
    let copies = Seq::new(n, |i: int| c);
    let w = encode_utf8(seq![c]).len();
    if n > 0 {
        lemma_copies_len((n - 1) as nat, c);
        assert(copies.drop_first() =~= Seq::new((n - 1) as nat, |i: int| c));
        assert(seq![c].drop_first() =~= Seq::empty());
        reveal_with_fuel(encode_utf8, 2);
        assert(n * w == (n - 1) * w + w) by (nonlinear_arith);
    } else {
        assert(copies =~= Seq::empty());
        assert(0 * w == 0);
    }
}

/// `s` with copies of `pad_char` before it: as many as `s` has bytes too few
/// for `target_len`.
pub fn pad_left(s: &str, target_len: usize, pad_char: char) -> (r: String)
    requires
        padding(s@, target_len as int) * encode_utf8(seq![pad_char]).len() + encode_utf8(s@).len()
            <= isize::MAX,
    ensures
        r@ == Seq::new(padding(s@, target_len as int), |i: int| pad_char) + s@,
{
    let have = s.as_bytes().len();
    let mut r = String::new();
    let mut left: usize = if have >= target_len {
        0
    } else {
        target_len - have
    };
    let ghost total = left;
    assert(total == padding(s@, target_len as int));
    while left > 0
        invariant
            left <= total,
            total * encode_utf8(seq![pad_char]).len() <= isize::MAX,
            r@ == Seq::new((total - left) as nat, |i: int| pad_char),
        decreases left,
    {
        proof {
            let n = (total - left + 1) as nat;
            let w = encode_utf8(seq![pad_char]).len();
            lemma_copies_len(n, pad_char);
            assert(r@.push(pad_char) =~= Seq::new(n, |i: int| pad_char));
            assert(n * w <= total * w) by (nonlinear_arith)
                requires
                    n <= total,
            ;
        }
        r.push(pad_char);
        left = left - 1;
        assert(r@ =~= Seq::new((total - left) as nat, |i: int| pad_char));
    }
    r.append(s);
    r
}

/// The size that the box header at index `at` gives.
pub open spec fn box_size(data: Seq<u8>, at: int) -> int {
    be32_at(data, at)
}

/// The type that the box header at index `at` gives.
pub open spec fn box_type(data: Seq<u8>, at: int) -> Seq<u8> {
    data.subrange(at + 4, at + 8)
}

/// The size and the type in the box header at index `offset`, if `data` holds
/// all eight bytes of it.
pub fn read_box_header(data: &[u8], offset: usize) -> (r: Option<(u64, [u8; 4])>)
    requires
        offset + 8 <= usize::MAX,
    ensures
        r is Some <==> offset + 8 <= data@.len(),
        r matches Some((size, kind)) ==> {
            &&& size == box_size(data@, offset as int)
            &&& kind@ == box_type(data@, offset as int)
        },
{
    if offset + 8 > data.len() {
        return None;
    }
    let size = match read_u32_be(&data[offset..offset + 4]) {
        Some(v) => v as u64,
        None => return None,
    };
    let kind: [u8; 4] = [data[offset + 4], data[offset + 5], data[offset + 6], data[offset + 7]];
    assert(kind@ =~= box_type(data@, offset as int));
    Some((size, kind))
}

} // verus!
