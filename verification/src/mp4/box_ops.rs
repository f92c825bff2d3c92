//! Finding boxes, and putting boxes into a file.
use crate::bytes::{be32_bytes, law_be32_low_bits, write_u32_be};
use crate::error::PolyglotError;
use crate::utils::{
    box_size, box_type, find_subarray, first_match, law_first_match_unique, no_match_before,
    read_box_header, same_bytes,
};
use vstd::prelude::*;

verus! {

/// The box type `ftyp`.
pub const FTYP: [u8; 4] = [0x66, 0x74, 0x79, 0x70];

/// The box type `mdat`: media data, which holds no boxes.
pub const MDAT: [u8; 4] = [0x6d, 0x64, 0x61, 0x74];

/// The box type `skip`: data that readers of the file pass over.
pub const SKIP: [u8; 4] = [0x73, 0x6b, 0x69, 0x70];

/// The box type `stco`: a table of 32-bit file offsets.
pub const STCO: [u8; 4] = [0x73, 0x74, 0x63, 0x6f];

/// The box type `co64`: a table of 64-bit file offsets.
pub const CO64: [u8; 4] = [0x63, 0x6f, 0x36, 0x34];

/// Whether a whole box stands at index `at`, ending at `end` at the latest.
pub open spec fn whole_box_at(data: Seq<u8>, at: int, end: int) -> bool {
    &&& 0 <= at
    &&& at + 8 <= end
    &&& at + 8 <= data.len()
    &&& 8 <= box_size(data, at)
    &&& at + box_size(data, at) <= end
}

/// Whether a box of type `kind` is searched for boxes inside it.
pub open spec fn may_hold_boxes(kind: Seq<u8>) -> bool {
    kind != MDAT@ && kind != SKIP@
}

/// The boxes of type `target`, each as its size and its index, that a walk
/// over the boxes from index `pos` to `end` comes by. The walk looks inside
/// boxes of other types that may hold boxes, and it stops where no whole box
/// stands.
pub open spec fn boxes_in(data: Seq<u8>, pos: int, end: int, target: Seq<u8>) -> Seq<(u64, usize)>
    decreases end - pos, 1int,
{
    if !whole_box_at(data, pos, end) {
        Seq::empty()
    } else {
        let size = box_size(data, pos);
        boxes_here(data, pos, end, target) + boxes_in(data, pos + size, end, target)
    }
}

/// What the walk of `boxes_in` comes by in the first box of its range.
pub open spec fn boxes_here(data: Seq<u8>, pos: int, end: int, target: Seq<u8>) -> Seq<
    (u64, usize),
>
    decreases end - pos, 0int,
{
    let size = box_size(data, pos);
    if box_type(data, pos) == target {
        seq![(size as u64, pos as usize)]
    } else if may_hold_boxes(box_type(data, pos)) && 8 < size <= end - pos {
        boxes_in(data, pos + 8, pos + size, target)
    } else {
        Seq::empty()
    }
}

/// Whether the boxes listed in `found` are boxes of type `target` that stand
/// one behind the other between the indices `pos` and `end`.
pub open spec fn boxes_in_order(
    data: Seq<u8>,
    pos: int,
    end: int,
    target: Seq<u8>,
    found: Seq<(u64, usize)>,
) -> bool {
    &&& forall|k: int|
        0 <= k < found.len() ==> {
            let at = (#[trigger] found[k]).1 as int;
            &&& pos <= at
            &&& found[k].0 == box_size(data, at)
            &&& box_type(data, at) == target
            &&& whole_box_at(data, at, end)
        }
    &&& forall|j: int, k: int|
        0 <= j < k < found.len() ==> (#[trigger] found[j]).1 + found[j].0 <= (
        #[trigger] found[k]).1
}

/// What a search finds are whole boxes of the type searched for, in the order
/// in which they stand, and none of them overlap.
pub proof fn law_boxes_in_order(data: Seq<u8>, pos: int, end: int, target: Seq<u8>)
    requires
        0 <= pos,
        end <= usize::MAX,
    ensures
        boxes_in_order(data, pos, end, target, boxes_in(data, pos, end, target)),
    decreases end - pos,
{
    if whole_box_at(data, pos, end) {
        let size = box_size(data, pos);
        let here = boxes_here(data, pos, end, target);
        let rest = boxes_in(data, pos + size, end, target);
        law_boxes_in_order(data, pos + size, end, target);
        if box_type(data, pos) != target && may_hold_boxes(box_type(data, pos)) && size > 8 {
            law_boxes_in_order(data, pos + 8, pos + size, target);
        }
        assert(boxes_in_order(data, pos, pos + size, target, here));
        let all = here + rest;
        assert forall|k: int| 0 <= k < all.len() implies {
            let at = (#[trigger] all[k]).1 as int;
            &&& pos <= at
            &&& all[k].0 == box_size(data, at)
            &&& box_type(data, at) == target
            &&& whole_box_at(data, at, end)
        } by {
            if k < here.len() {
                assert(all[k] == here[k]);
            } else {
                assert(all[k] == rest[k - here.len()]);
            }
        }
        assert forall|j: int, k: int| 0 <= j < k < all.len() implies (#[trigger] all[j]).1
            + all[j].0 <= (#[trigger] all[k]).1 by {
            if k < here.len() {
                assert(all[j] == here[j] && all[k] == here[k]);
            } else if j < here.len() {
                assert(all[j] == here[j] && all[k] == rest[k - here.len()]);
            } else {
                assert(all[j] == rest[j - here.len()] && all[k] == rest[k - here.len()]);
            }
        }
    }
}

/// Appends to `results` the boxes of type `target` that a walk over the boxes
/// from index `pos` to `end` comes by.
pub fn find_boxes_recursive(
    data: &[u8],
    pos: usize,
    end: usize,
    target: &[u8; 4],
    results: &mut Vec<(u64, usize)>,
)
    ensures
        final(results)@ == old(results)@ + boxes_in(data@, pos as int, end as int, target@),
    decreases (if pos <= end { end - pos } else { 0 }),
{
    let ghost before = results@;
    let mut p: usize = pos;
    assert(before + boxes_in(data@, pos as int, end as int, target@) =~= results@ + boxes_in(
        data@,
        p as int,
        end as int,
        target@,
    ));
    while p <= end && end - p >= 8
        invariant
            pos <= p,
            pos <= end ==> p <= end,
            before + boxes_in(data@, pos as int, end as int, target@) == results@ + boxes_in(
                data@,
                p as int,
                end as int,
                target@,
            ),
        ensures
            boxes_in(data@, p as int, end as int, target@) == Seq::<(u64, usize)>::empty(),
        decreases end - p,
    {
        match read_box_header(data, p) {
            Some((size, kind)) => {
                if size < 8 || size > (end - p) as u64 {
                    break ;
                }
                let next: usize = p + size as usize;
                let ghost so_far = results@;
                if same_bytes(&kind, target) {
                    results.push((size, p));
                } else if !same_bytes(&kind, &MDAT) && !same_bytes(&kind, &SKIP) && size > 8 {
                    find_boxes_recursive(data, p + 8, next, target, results);
                }
                assert(results@ =~= so_far + boxes_here(data@, p as int, end as int, target@));
                assert(so_far + (boxes_here(data@, p as int, end as int, target@) + boxes_in(
                    data@,
                    next as int,
                    end as int,
                    target@,
                )) =~= results@ + boxes_in(data@, next as int, end as int, target@));
                p = next;
            },
            None => {
                break ;
            },
        }
    }
    assert(results@ + Seq::<(u64, usize)>::empty() =~= results@);
}

/// The boxes of type `target` in `data`, each as its size and its index.
pub fn find_all_boxes(data: &[u8], target: &[u8; 4]) -> (r: Vec<(u64, usize)>)
    ensures
        r@ == boxes_in(data@, 0, data@.len() as int, target@),
{
    let mut results: Vec<(u64, usize)> = Vec::new();
    find_boxes_recursive(data, 0, data.len(), target, &mut results);
    assert(results@ =~= boxes_in(data@, 0, data@.len() as int, target@));
    results
}

/// Whether the first box of `mp4`, if its header is there, ends within `mp4`.
pub open spec fn first_box_fits(mp4: Seq<u8>) -> bool {
    mp4.len() >= 8 ==> box_size(mp4, 0) <= mp4.len()
}

/// `mp4` with `new_ftyp` in place of its first box.
pub fn replace_ftyp_box(mp4: &[u8], new_ftyp: &[u8]) -> (r: Result<Vec<u8>, PolyglotError>)
    requires
        first_box_fits(mp4@),
        mp4@.len() >= 8 ==> mp4@.len() - box_size(mp4@, 0) + new_ftyp@.len() <= usize::MAX,
    ensures
        r is Ok <==> mp4@.len() >= 8,
        r matches Ok(v) ==> v@ == new_ftyp@ + mp4@.skip(box_size(mp4@, 0)),
        r matches Err(e) ==> e == PolyglotError::FtypHeader,
{
    let ftyp_end: usize = match read_box_header(mp4, 0) {
        Some((size, _)) => size as usize,
        None => return Err(PolyglotError::FtypHeader),
    };
    let mut result: Vec<u8> = Vec::with_capacity(mp4.len() - ftyp_end + new_ftyp.len());
    result.extend_from_slice(new_ftyp);
    result.extend_from_slice(&mp4[ftyp_end..mp4.len()]);
    assert(result@ =~= new_ftyp@ + mp4@.skip(ftyp_end as int));
    Ok(result)
}

/// `mp4` with `new_box` put in after its first box.
pub fn insert_box_after_ftyp(mp4: &[u8], new_box: &[u8]) -> (r: Result<Vec<u8>, PolyglotError>)
    requires
        first_box_fits(mp4@),
        mp4@.len() + new_box@.len() <= usize::MAX,
    ensures
        r is Ok <==> mp4@.len() >= 8,
        r matches Ok(v) ==> v@ == mp4@.take(box_size(mp4@, 0)) + new_box@ + mp4@.skip(
            box_size(mp4@, 0),
        ),
        r matches Err(e) ==> e == PolyglotError::FtypHeader,
{
    let ftyp_end: usize = match read_box_header(mp4, 0) {
        Some((size, _)) => size as usize,
        None => return Err(PolyglotError::FtypHeader),
    };
    let mut result: Vec<u8> = Vec::with_capacity(mp4.len() + new_box.len());
    result.extend_from_slice(&mp4[0..ftyp_end]);
    result.extend_from_slice(new_box);
    result.extend_from_slice(&mp4[ftyp_end..mp4.len()]);
    assert(result@ =~= mp4@.take(ftyp_end as int) + new_box@ + mp4@.skip(ftyp_end as int));
    Ok(result)
}

/// The header of the `skip` box that carries a payload of `len` bytes. Its
/// size field holds the low 32 bits of the size.
pub open spec fn skip_header(len: int) -> Seq<u8> {
    be32_bytes(len + 8) + SKIP@
}

/// The `skip` box that carries an HTML part and an image.
pub open spec fn skip_box(html_bytes: Seq<u8>, png_data: Seq<u8>) -> Seq<u8> {
    skip_header((html_bytes.len() + png_data.len()) as int) + html_bytes + png_data
}

/// The `skip` box that carries an HTML part and an image.
pub fn build_skip_box(html_bytes: &[u8], png_data: &[u8]) -> (r: std::io::Result<Vec<u8>>)
    requires
        html_bytes@.len() + png_data@.len() + 8 <= usize::MAX,
    ensures
        r matches Ok(v) && v@ == skip_box(html_bytes@, png_data@),
{
    let payload_len: usize = html_bytes.len() + png_data.len();
    let mut head: [u8; 4] = [0; 4];
    match write_u32_be(&mut head, low_32_bits(payload_len + 8)) {
        Ok(_) => {},
        Err(e) => return Err(e),
    }
    proof {
        law_be32_low_bits(payload_len + 8);
    }
    let mut skip_buffer: Vec<u8> = Vec::with_capacity(payload_len + 8);
    skip_buffer.extend_from_slice(&head);
    skip_buffer.extend_from_slice(&SKIP);
    skip_buffer.extend_from_slice(html_bytes);
    skip_buffer.extend_from_slice(png_data);
    assert(skip_buffer@ =~= skip_box(html_bytes@, png_data@));
    Ok(skip_buffer)
}

/// The index of the image in `mp4_data`: behind the first occurrence of the
/// header of its `skip` box, and behind the HTML part.
pub open spec fn png_offset_in(mp4_data: Seq<u8>, html_len: int, png_len: int) -> Option<int> {
    match first_match(mp4_data, skip_header(html_len + png_len), 0) {
        Some(p) => Some(p + 8 + html_len),
        None => None,
    }
}

/// The index of the image in `mp4_data`, if the header of its `skip` box is
/// found there.
pub fn find_png_offset(mp4_data: &[u8], html_bytes: &[u8], png_data: &[u8]) -> (r: Option<usize>)
    requires
        html_bytes@.len() + png_data@.len() + 8 <= usize::MAX,
        mp4_data@.len() + html_bytes@.len() <= usize::MAX,
    ensures
        r is Some <==> png_offset_in(
            mp4_data@,
            html_bytes@.len() as int,
            png_data@.len() as int,
        ) is Some,
        r matches Some(p) ==> png_offset_in(
            mp4_data@,
            html_bytes@.len() as int,
            png_data@.len() as int,
        ) == Some(p as int),
{
    let payload_len: usize = html_bytes.len() + png_data.len();
    let mut skip_head: [u8; 8] = [0, 0, 0, 0, SKIP[0], SKIP[1], SKIP[2], SKIP[3]];
    let _written = write_u32_be(&mut skip_head, low_32_bits(payload_len + 8));
    proof {
        law_be32_low_bits(payload_len + 8);
        assert(skip_head@ =~= skip_header(payload_len as int));
        crate::utils::law_first_match(mp4_data@, skip_head@, 0);
    }
    match find_subarray(mp4_data, &skip_head, 0) {
        Some(p) => Some(p + 8 + html_bytes.len()),
        None => None,
    }
}

/// In a file in which the `skip` box with an HTML part and an image stands, and
/// the header of that box nowhere before it, the image stands at the index that
/// is found.
pub proof fn law_png_found(before: Seq<u8>, html: Seq<u8>, png: Seq<u8>, behind: Seq<u8>)
    requires
        no_match_before(
            before + skip_box(html, png) + behind,
            skip_header((html.len() + png.len()) as int),
            before.len() as int,
        ),
    ensures
        ({
            let data = before + skip_box(html, png) + behind;
            let at = before.len() as int + 8 + html.len();
            &&& png_offset_in(data, html.len() as int, png.len() as int) == Some(at)
            &&& at + png.len() <= data.len()
            &&& data.subrange(at, at + png.len()) == png
        }),
{
    let header = skip_header((html.len() + png.len()) as int);
    let data = before + skip_box(html, png) + behind;
    let at = before.len() as int;
    assert(header.len() == 8);
    assert(data.subrange(at, at + 8) =~= header);
    law_first_match_unique(data, header, 0, at);
    assert(data.subrange(at + 8 + html.len(), at + 8 + html.len() + png.len()) =~= png);
}

/// The low 32 bits of a length.
pub fn low_32_bits(n: usize) -> (r: u32)
    ensures
        r == n as int % 0x1_0000_0000,
{
    let wide: u64 = n as u64;
    assert(wide as u32 == wide % 0x1_0000_0000) by (bit_vector);
    wide as u32
}

} // verus!
