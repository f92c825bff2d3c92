//! The header of the PDF stream object that the media data is in.
use crate::bytes::{ascii, ascii_bytes};
use crate::number::{
    decimal, decimal_string, law_decimal_len_monotonic, lemma_decimal_digits,
};
use vstd::prelude::*;

verus! {

/// The header of a PDF stream object that is `len` bytes long.
pub open spec fn stream_header(len: nat) -> Seq<u8> {
    ascii("\n1 0 obj\n<</Length "@) + decimal(len) + ascii(">>\nstream\n"@)
}

/// Whether a stream of `len` bytes and its header fill `room` bytes.
pub open spec fn stream_fills(len: nat, room: int) -> bool {
    len + stream_header(len).len() == room
}

/// The length of a stream header is 29 and the number of digits in it.
pub proof fn lemma_stream_header_len(len: nat)
    ensures
        stream_header(len).len() == 29 + decimal(len).len(),
{
    reveal_strlit("\n1 0 obj\n<</Length ");
    reveal_strlit(">>\nstream\n");
}

/// There is at most one length with which a stream and its header fill a given
/// room.
pub proof fn law_stream_len_unique(a: nat, b: nat, room: int)
    requires
        stream_fills(a, room),
        stream_fills(b, room),
    ensures
        a == b,
{
    lemma_stream_header_len(a);
    lemma_stream_header_len(b);
    if a < b {
        law_decimal_len_monotonic(a, b);
    } else {
        law_decimal_len_monotonic(b, a);
    }
}

/// The length of the stream that, with its header, fills `room` bytes of a
/// file of `total` bytes. There is none if `room` is shorter than a header
/// with as many digits as `total` has, or if the digits of each length that
/// would do are one too few or one too many.
pub open spec fn stream_len(room: int, total: nat) -> Option<nat> {
    if room < 29 + decimal(total).len() || !exists|l: nat| stream_fills(l, room) {
        None
    } else {
        Some(choose|l: nat| stream_fills(l, room))
    }
}

/// The length that is found is the one that, with 29 bytes and its own digits,
/// makes up the room; and one that does is found, if there is room for as many
/// digits as the size of the file has.
pub proof fn law_stream_len(room: int, total: nat, l: nat)
    requires
        29 + decimal(total).len() <= room,
    ensures
        stream_len(room, total) == Some(l) <==> l + 29 + decimal(l).len() == room,
{
    lemma_stream_header_len(l);
    if l + 29 + decimal(l).len() == room {
        assert(stream_fills(l, room));
        let c = choose|c: nat| stream_fills(c, room);
        law_stream_len_unique(c, l, room);
    }
}

/// The header of a stream object tells how long the stream is.
pub proof fn law_stream_header(len: nat)
    ensures
        ({
            let h = stream_header(len);
            let n = decimal(len).len() as int;
            &&& h.len() == 29 + n
            &&& h.take(19) == "\n1 0 obj\n<</Length "@.map(|i: int, c: char| c as u8)
            &&& h.subrange(19, 19 + n) == decimal(len)
            &&& h.skip(19 + n) == ">>\nstream\n"@.map(|i: int, c: char| c as u8)
        }),
{
    reveal_strlit("\n1 0 obj\n<</Length ");
    reveal_strlit(">>\nstream\n");
    let h = stream_header(len);
    let n = decimal(len).len() as int;
    assert(h.take(19) =~= "\n1 0 obj\n<</Length "@.map(|i: int, c: char| c as u8));
    assert(h.subrange(19, 19 + n) =~= decimal(len));
    assert(h.skip(19 + n) =~= ">>\nstream\n"@.map(|i: int, c: char| c as u8));
}

/// The length of the stream that, with its header, fills the bytes of a file
/// of `total` bytes from index `place` on.
pub fn find_stream_len(place: usize, total: usize) -> (r: Option<usize>)
    ensures
        r is Some <==> stream_len(total - place, total as nat) is Some,
        r matches Some(l) ==> stream_len(total - place, total as nat) == Some(l as nat),
{
    let digits: usize = decimal_string(total).as_str().as_bytes().len();
    if place > total || total - place < 29 || total - place - 29 < digits {
        return None;
    }
    let room: usize = total - place;
    let mut head: usize = 29 + digits;
    proof {
        lemma_decimal_digits(total as nat);
    }
    loop
        invariant
            digits == decimal(total as nat).len(),
            room == total - place,
            29 + digits <= room <= total,
            30 <= head <= 29 + digits,
            forall|h: int|
                head < h <= 29 + digits ==> h > 29 + (#[trigger] decimal((room - h) as nat)).len(),
        decreases head,
    {
        let len: usize = room - head;
        let needed: usize = decimal_string(len).as_str().as_bytes().len();
        proof {
            lemma_stream_header_len(len as nat);
            lemma_decimal_digits(len as nat);
        }
        if head - 29 == needed {
            proof {
                assert(stream_fills(len as nat, room as int));
                let l = choose|l: nat| stream_fills(l, room as int);
                law_stream_len_unique(l, len as nat, room as int);
            }
            return Some(len);
        }
        if head - 29 < needed {
            proof {
                assert forall|l: nat| !stream_fills(l, room as int) by {
                    lemma_stream_header_len(l);
                    if stream_fills(l, room as int) {
                        let h = room - l;
                        law_decimal_len_monotonic(l, total as nat);
                        if h > head {
                            assert(decimal((room - h) as nat).len() == decimal(l).len());
                        } else if h < head {
                            law_decimal_len_monotonic(len as nat, l);
                        }
                    }
                }
            }
            return None;
        }
        head = head - 1;
    }
}

/// The header of a PDF stream object that is `len` bytes long.
pub fn build_stream_header(len: usize) -> (r: Vec<u8>)
    ensures
        r@ == stream_header(len as nat),
{
    proof {
        reveal_strlit("\n1 0 obj\n<</Length ");
        reveal_strlit(">>\nstream\n");
    }
    let mut r: Vec<u8> = Vec::new();
    r.extend_from_slice(ascii_bytes("\n1 0 obj\n<</Length "));
    r.extend_from_slice(decimal_string(len).as_str().as_bytes());
    r.extend_from_slice(ascii_bytes(">>\nstream\n"));
    assert(r@ =~= stream_header(len as nat));
    r
}

} // verus!
