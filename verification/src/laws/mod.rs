//! What holds of every polyglot file that is built: how it reads as an icon,
//! as a video, as an HTML page and as a PDF document.
use crate::bytes::{be32_at, be32_bytes, byte_of, law_be32_round_trip, le32_bytes, overwritten};
use crate::mp4::box_ops::{
    boxes_here, boxes_in, law_boxes_in_order, png_offset_in, skip_box, skip_header, whole_box_at,
    CO64, FTYP, SKIP, STCO,
};
use crate::mp4::media::lemma_types_differ;
use crate::mp4::offset::{lemma_shifted_tables_frame, shifted_kind, shifted_offsets};
use crate::outcome::Build;
use crate::polyglot::{
    comment_open, draft_header, icon_directory, lemma_boxes_behind_ftyp, lemma_draft_is_ftyp,
    lemma_ftyp_kept, plain_header, starts_with_ftyp, Parts, ISOM_BOX,
};
use crate::number::{decimal, law_decimal_len_64_bits, law_decimal_len_monotonic};
use crate::pdf::pdf_suffix;
use crate::stream::{lemma_stream_header_len, stream_fills, stream_header, stream_len};
use crate::utils::{box_size, box_type, law_first_match_unique, matches_at};
use vstd::prelude::*;

pub mod boxes;
pub mod document;
pub mod layout;
pub mod media;
pub mod pdf;

verus! {

impl Parts {
    /// Whether 32 bits hold the size of the box with the HTML part and the
    /// image, and the index of the image.
    pub open spec fn fits_32_bits(self) -> bool {
        296 + self.html_part().len() + self.png.len() <= u32::MAX
    }

    /// Whether the first box of the MP4 file ends within it.
    pub open spec fn has_first_box(self) -> bool {
        8 <= self.mp4.len() && box_size(self.mp4, 0) <= self.mp4.len()
    }

    /// How many bytes the file has, without the PDF document.
    pub open spec fn file_size(self) -> int {
        296 + self.html_part().len() + self.png.len() + self.mp4.len() - box_size(self.mp4, 0)
    }

    /// Where the text in the header ends, in a file of `total` bytes: the extra
    /// file, the start of a comment, and the start of a PDF document.
    pub open spec fn header_text_end(self, total: nat) -> int {
        let extra = self.extra_part().len() as int;
        match self.pdf {
            None => 26 + extra,
            Some(_) => match stream_len(total - (36 + extra), total) {
                Some(l) => 36 + extra + stream_header(l).len(),
                None => 36 + extra,
            },
        }
    }

    /// The MP4 file with the box that carries the HTML part and the image, and
    /// the file offsets not yet moved past that box.
    pub open spec fn carrier_put_in(self) -> Seq<u8> {
        let mp4 = self.with_new_ftyp();
        mp4.take(288) + self.carrier() + mp4.skip(288)
    }
}

/// Whether a file starts with a `ftyp` box of 288 bytes and then `carrier`,
/// which is a `skip` box.
pub open spec fn starts_with_carrier(data: Seq<u8>, carrier: Seq<u8>) -> bool {
    &&& starts_with_ftyp(data)
    &&& 8 <= carrier.len()
    &&& 288 + carrier.len() <= data.len()
    &&& data.subrange(288, 288 + carrier.len() as int) == carrier
    &&& box_size(data, 288) == carrier.len()
    &&& box_type(data, 288) == SKIP@
}

/// What a search for tables comes by in a file that starts in this way stands
/// behind the `skip` box.
pub proof fn lemma_boxes_behind_carrier(data: Seq<u8>, carrier: Seq<u8>, target: Seq<u8>)
    requires
        starts_with_carrier(data, carrier),
        target == STCO@ || target == CO64@,
    ensures
        boxes_in(data, 0, data.len() as int, target) == boxes_in(
            data,
            288 + carrier.len() as int,
            data.len() as int,
            target,
        ),
{
    lemma_boxes_behind_ftyp(data, target);
    lemma_types_differ();
    assert(whole_box_at(data, 288, data.len() as int));
    assert(boxes_here(data, 288, data.len() as int, target) =~= Seq::empty());
    assert(boxes_in(data, 288, data.len() as int, target) =~= boxes_in(
        data,
        288 + carrier.len() as int,
        data.len() as int,
        target,
    ));
}

/// Moving the file offsets of one kind of table leaves the start of such a
/// file as it is.
proof fn lemma_kind_keeps_carrier(data: Seq<u8>, carrier: Seq<u8>, wide: bool, delta: int)
    requires
        starts_with_carrier(data, carrier),
        data.len() <= usize::MAX,
    ensures
        shifted_kind(data, wide, delta).len() == data.len(),
        shifted_kind(data, wide, delta).take(288 + carrier.len() as int) == data.take(
            288 + carrier.len() as int,
        ),
        starts_with_carrier(shifted_kind(data, wide, delta), carrier),
{
    let kind = if wide {
        CO64@
    } else {
        STCO@
    };
    let from = 288 + carrier.len() as int;
    let len = data.len() as int;
    let moved = shifted_kind(data, wide, delta);
    lemma_boxes_behind_carrier(data, carrier, kind);
    law_boxes_in_order(data, from, len, kind);
    lemma_shifted_tables_frame(data, boxes_in(data, from, len, kind), wide, delta, from);
    assert(moved.take(from) =~= data.take(from));
    assert(box_type(moved, 0) =~= box_type(data, 0));
    assert(box_type(moved, 288) =~= box_type(data, 288));
    assert(moved.subrange(288, from) =~= data.subrange(288, from));
}

/// Moving the file offsets leaves the start of such a file as it is.
proof fn lemma_carrier_kept(data: Seq<u8>, carrier: Seq<u8>, delta: int)
    requires
        starts_with_carrier(data, carrier),
        data.len() <= usize::MAX,
    ensures
        shifted_offsets(data, delta).len() == data.len(),
        shifted_offsets(data, delta).take(288 + carrier.len() as int) == data.take(288 + carrier.len() as int),
        starts_with_carrier(shifted_offsets(data, delta), carrier),
{
    lemma_kind_keeps_carrier(data, carrier, false, delta);
    lemma_kind_keeps_carrier(shifted_kind(data, false, delta), carrier, true, delta);
}

/// The header of a `skip` box tells its size and its type.
pub proof fn lemma_skip_box_head(first: Seq<u8>, second: Seq<u8>)
    requires
        first.len() + second.len() + 8 <= u32::MAX,
    ensures
        skip_box(first, second).len() == first.len() + second.len() + 8,
        be32_at(skip_box(first, second), 0) == skip_box(first, second).len(),
        skip_box(first, second).subrange(4, 8) == SKIP@,
{
    let c = skip_box(first, second);
    let n = (first.len() + second.len() + 8) as int;
    law_be32_round_trip(n);
    let head = be32_bytes(n);
    assert(c.take(4) =~= head);
    assert(c.subrange(4, 8) =~= SKIP@);
    assert(c[0] == c.take(4)[0] && c[1] == c.take(4)[1] && c[2] == c.take(4)[2] && c[3] == c.take(
        4,
    )[3]);
}

/// A box that stands at an index of a file tells there its size and its type.
proof fn lemma_box_in_place(data: Seq<u8>, at: int, c: Seq<u8>)
    requires
        0 <= at,
        8 <= c.len(),
        at + c.len() <= data.len(),
        data.subrange(at, at + c.len()) == c,
    ensures
        box_size(data, at) == be32_at(c, 0),
        box_type(data, at) == c.subrange(4, 8),
{
    assert(c[0] == data[at] && c[1] == data[at + 1] && c[2] == data[at + 2] && c[3] == data[at
        + 3]);
    assert(box_type(data, at) =~= c.subrange(4, 8));
}

/// A `skip` box that is put behind a `ftyp` box of 288 bytes stands there.
proof fn lemma_carrier_inserted(data: Seq<u8>, c: Seq<u8>)
    requires
        starts_with_ftyp(data),
        8 <= c.len(),
        be32_at(c, 0) == c.len(),
        c.subrange(4, 8) == SKIP@,
    ensures
        (data.take(288) + c + data.skip(288)).take(288) == data.take(288),
        starts_with_carrier(data.take(288) + c + data.skip(288), c),
{
    let r = data.take(288) + c + data.skip(288);
    assert(r.take(288) =~= data.take(288));
    assert(r.subrange(288, 288 + c.len() as int) =~= c);
    assert(box_type(r, 0) =~= box_type(data, 0));
    lemma_box_in_place(r, 288, c);
}

/// The boxes at the start of the MP4 file once its parts are put in.
pub proof fn lemma_boxes_placed(parts: Parts)
    requires
        parts.sizes_fit(),
        parts.fits_32_bits(),
        parts.has_first_box(),
    ensures
        parts.with_new_ftyp().len() == parts.mp4.len() - box_size(parts.mp4, 0) + 288,
        starts_with_carrier(parts.carrier_put_in(), parts.carrier()),
        starts_with_carrier(parts.with_carrier(), parts.carrier()),
        parts.with_carrier().len() == parts.mp4.len() - box_size(parts.mp4, 0) + 288
            + parts.carrier().len(),
        parts.with_carrier().take(288) == draft_header(parts.png.len() as int),
{
    let draft = draft_header(parts.png.len() as int);
    let tail = parts.mp4.skip(box_size(parts.mp4, 0));
    let s0 = draft + tail;
    let carrier = parts.carrier();
    let n = carrier.len() as int;
    lemma_draft_is_ftyp(parts.png.len() as int, tail);
    lemma_ftyp_kept(s0, parts.ftyp_delta());
    assert(s0.take(288) =~= draft);
    lemma_skip_box_head(parts.html_part(), parts.png);
    lemma_carrier_inserted(parts.with_new_ftyp(), carrier);
    let s2 = parts.carrier_put_in();
    lemma_carrier_kept(s2, carrier, n);
    let s3 = parts.with_carrier();
    assert(s3.take(288) =~= s3.take(288 + n).take(288));
    assert(s2.take(288) =~= s2.take(288 + n).take(288));
}

/// No byte of the `ftyp` box is an `s` that a `k` follows.
proof fn lemma_isom_box_bytes(k: int)
    requires
        0 <= k < 32,
        ISOM_BOX@[k] == 0x73,
    ensures
        k + 1 < 32,
        ISOM_BOX@[k + 1] == 0x6f,
{
    let b = ISOM_BOX@;
    assert(b[0] == 0x00 && b[1] == 0x00 && b[2] == 0x00 && b[3] == 0x20 && b[4] == 0x66 && b[5]
        == 0x74 && b[6] == 0x79 && b[7] == 0x70 && b[8] == 0x69 && b[9] == 0x73 && b[10] == 0x6f
        && b[11] == 0x6d && b[12] == 0x00 && b[13] == 0x00 && b[14] == 0x02 && b[15] == 0x00);
    assert(b[16] == 0x69 && b[17] == 0x73 && b[18] == 0x6f && b[19] == 0x6d && b[20] == 0x69
        && b[21] == 0x73 && b[22] == 0x6f && b[23] == 0x32 && b[24] == 0x61 && b[25] == 0x76
        && b[26] == 0x63 && b[27] == 0x31 && b[28] == 0x6d && b[29] == 0x70 && b[30] == 0x34
        && b[31] == 0x31);
}

/// The bytes of the draft of the header.
proof fn lemma_draft_bytes(png_len: int)
    ensures
        draft_header(png_len).len() == 288,
        forall|i: int| 0 <= i < 14 ==> #[trigger] draft_header(png_len)[i] != 0x73,
        draft_header(png_len)[10] == 0,
        draft_header(png_len)[11] == 0,
        draft_header(png_len)[12] == 32,
        draft_header(png_len)[13] == 0,
        draft_header(png_len)[17] == le32_bytes(png_len)[3],
        forall|i: int| 18 <= i < 256 ==> #[trigger] draft_header(png_len)[i] == 0,
        forall|i: int| 256 <= i < 288 ==> #[trigger] draft_header(png_len)[i] == ISOM_BOX@[i - 256],
{
}

/// In a file that starts with the draft of the header and the header of a
/// `skip` box, the latter stands nowhere before index 288.
proof fn lemma_no_earlier_match(s: Seq<u8>, h: Seq<u8>, png_len: int, n: int, j: int)
    requires
        296 <= s.len(),
        0 <= png_len <= n,
        n + 8 <= u32::MAX,
        h == skip_header(n),
        forall|i: int| 0 <= i < 288 ==> #[trigger] s[i] == draft_header(png_len)[i],
        forall|i: int| 288 <= i < 296 ==> #[trigger] s[i] == h[i - 288],
        0 <= j < 288,
    ensures
        !matches_at(s, h, j),
{
    if matches_at(s, h, j) {
        let w = s.subrange(j, j + 8);
        assert(h.len() == 8);
        assert(w == h);
        assert(h[4] == 0x73 && h[5] == 0x6b && h[6] == 0x69 && h[7] == 0x70);
        assert(s[j] == w[0] && s[j + 1] == w[1] && s[j + 2] == w[2] && s[j + 3] == w[3]);
        assert(s[j + 4] == w[4] && s[j + 5] == w[5] && s[j + 6] == w[6] && s[j + 7] == w[7]);
        lemma_draft_bytes(png_len);
        let i = j + 4;
        if i == 14 {
            assert(s[10] == 0 && s[11] == 0 && s[12] == 32 && s[13] == 0 && s[17] == 0x70);
            lemma_le32_is_skip(png_len);
            law_be32_round_trip(n + 8);
            assert(be32_at(be32_bytes(n + 8), 0) == be32_at(h, 0));
            assert(be32_at(h, 0) == 0x2000);
        } else if i < 14 {
            assert(s[i] != 0x73);
        } else if i < 18 {
            assert(s[18] == 0);
        } else if i < 256 {
            assert(s[i] == 0);
        } else if i < 288 {
            lemma_isom_box_bytes(i - 256);
            assert(s[i + 1] == 0x6f);
        } else if i == 288 {
            assert(s[284] == ISOM_BOX@[28]);
            assert(ISOM_BOX@[28] == 0x6d);
            assert(s[288] == h[0]);
        } else {
            assert(s[292] == h[4]);
        }
    }
}

/// The bytes at the start of a file, one by one.
proof fn lemma_start_bytes(s: Seq<u8>, first: Seq<u8>, second: Seq<u8>, head: Seq<u8>)
    requires
        s.take(288) == first,
        8 <= second.len(),
        288 + second.len() <= s.len(),
        s.subrange(288, 288 + second.len() as int) == second,
        second.take(8) == head,
    ensures
        forall|i: int| 0 <= i < 288 ==> #[trigger] s[i] == first[i],
        forall|i: int| 288 <= i < 296 ==> #[trigger] s[i] == head[i - 288],
        matches_at(s, head, 288),
{
    assert forall|i: int| 288 <= i < 296 implies #[trigger] s[i] == head[i - 288] by {
        assert(second[i - 288] == s[i]);
    }
    assert(s.subrange(288, 296) =~= head);
}

/// The header of the `skip` box stands nowhere before index 288.
proof fn lemma_no_earlier_header(parts: Parts, j: int)
    requires
        parts.sizes_fit(),
        parts.fits_32_bits(),
        parts.has_first_box(),
        0 <= j < 288,
    ensures
        !matches_at(
            parts.with_carrier(),
            skip_header((parts.html_part().len() + parts.png.len()) as int),
            j,
        ),
{
    lemma_boxes_placed(parts);
    let s = parts.with_carrier();
    let n = (parts.html_part().len() + parts.png.len()) as int;
    let h = skip_header(n);
    assert(h.len() == 8);
    assert(parts.carrier().take(8) == h) by {
        assert(skip_box(parts.html_part(), parts.png).take(8) =~= h);
    }
    lemma_start_bytes(s, draft_header(parts.png.len() as int), parts.carrier(), h);
    lemma_no_earlier_match(s, h, parts.png.len() as int, n, j);
}

/// A 32-bit length whose bytes, the lowest first, spell `skip` is no small
/// number.
proof fn lemma_le32_is_skip(v: int)
    requires
        0 <= v <= u32::MAX,
    ensures
        le32_bytes(v)[3] == 0x70 ==> v >= 0x7000_0000,
{
    reveal(byte_of);
}

/// The image stands behind the `ftyp` box, the header of the `skip` box and
/// the HTML part.
pub proof fn law_png_offset(parts: Parts)
    requires
        parts.sizes_fit(),
        parts.fits_32_bits(),
        parts.has_first_box(),
    ensures
        png_offset_in(
            parts.with_carrier(),
            parts.html_part().len() as int,
            parts.png.len() as int,
        ) == Some(296 + parts.html_part().len() as int),
{
    lemma_boxes_placed(parts);
    let s = parts.with_carrier();
    let n = (parts.html_part().len() + parts.png.len()) as int;
    let h = skip_header(n);
    let carrier = parts.carrier();
    assert(matches_at(s, h, 288)) by {
        assert(h.len() == 8);
        assert(s.subrange(288, 296) =~= s.subrange(288, 288 + carrier.len() as int).take(8));
        assert(carrier.take(8) =~= h);
    }
    assert forall|j: int| 0 <= j < 288 implies !matches_at(s, h, j) by {
        lemma_no_earlier_header(parts, j);
    }
    law_first_match_unique(s, h, 0, 288);
}

/// The length of a header, and the bytes of it that no text is put over.
proof fn lemma_plain_header(png_len: int, png_offset: int)
    ensures
        plain_header(png_len, png_offset).len() == 288,
        plain_header(png_len, png_offset).take(22) == icon_directory(png_len, png_offset),
        plain_header(png_len, png_offset).subrange(256, 288) == ISOM_BOX@,
        comment_open().len() == 4,
{
    reveal_strlit("isomiso2avc1mp41");
    reveal_strlit("<!--");
    let h = plain_header(png_len, png_offset);
    assert(h.take(22) =~= icon_directory(png_len, png_offset));
    assert(h.subrange(256, 288) =~= ISOM_BOX@);
}

/// What is put over a part of a sequence stands there, and nothing else is
/// changed.
proof fn lemma_overwritten(s: Seq<u8>, at: int, t: Seq<u8>)
    requires
        0 <= at,
        at + t.len() <= s.len(),
    ensures
        overwritten(s, at, t).len() == s.len(),
        overwritten(s, at, t).subrange(at, at + t.len()) == t,
        forall|i: int|
            0 <= i < s.len() && (i < at || at + t.len() <= i) ==> #[trigger] overwritten(s, at, t)[i]
                == s[i],
{
    assert(overwritten(s, at, t).subrange(at, at + t.len()) =~= t);
}

/// What the header of a file holds.
pub proof fn lemma_header(parts: Parts, png_offset: int, total: nat, h: Seq<u8>)
    requires
        parts.header(png_offset, total) == Build::Done(h),
    ensures
        ({
            let extra = parts.extra_part();
            let e = extra.len() as int;
            let end = parts.header_text_end(total);
            &&& h.len() == 288
            &&& 26 + e <= end <= 288
            &&& h.take(22) == icon_directory(parts.png.len() as int, png_offset)
            &&& h.subrange(22, 22 + e) == extra
            &&& h.subrange(22 + e, 26 + e) == comment_open()
            &&& parts.pdf matches Some(pdf) ==> {
                &&& 9 <= pdf.len()
                &&& h.subrange(26 + e, 36 + e) == seq![0x0au8] + pdf.take(9)
                &&& stream_len(total - (36 + e), total) matches Some(l)
                    && stream_fills(l, total - (36 + e)) && h.subrange(36 + e, end)
                    == stream_header(l)
            }
            &&& end <= 256 ==> h.subrange(256, 288) == ISOM_BOX@
            &&& forall|i: int|
                end <= i < 288 ==> #[trigger] h[i] == plain_header(
                    parts.png.len() as int,
                    png_offset,
                )[i]
        }),
{
    let base = plain_header(parts.png.len() as int, png_offset);
    let extra = parts.extra_part();
    let e = extra.len() as int;
    let end = parts.header_text_end(total);
    lemma_plain_header(parts.png.len() as int, png_offset);
    let h1 = overwritten(base, 22, extra + comment_open());
    lemma_overwritten(base, 22, extra + comment_open());
    assert(h1.subrange(22, 26 + e) == extra + comment_open());
    assert(h1.subrange(22, 22 + e) =~= h1.subrange(22, 26 + e).take(e));
    assert(h1.subrange(22 + e, 26 + e) =~= h1.subrange(22, 26 + e).skip(e));
    assert((extra + comment_open()).take(e) =~= extra);
    assert((extra + comment_open()).skip(e) =~= comment_open());
    match parts.pdf {
        None => {},
        Some(pdf) => {
            let line = seq![0x0au8] + pdf.take(9);
            let h2 = overwritten(h1, 26 + e, line);
            assert(line.len() == 10);
            lemma_overwritten(h1, 26 + e, line);
            let place = 36 + e;
            let l = stream_len(total - place, total)->Some_0;
            assert(stream_fills(l, total - place));
            lemma_overwritten(h2, place, stream_header(l));
            assert(h == overwritten(h2, place, stream_header(l)));
            assert(h.subrange(26 + e, 36 + e) =~= h2.subrange(26 + e, 36 + e));
            assert(h.subrange(22, 22 + e) =~= h1.subrange(22, 22 + e));
            assert(h.subrange(22 + e, 26 + e) =~= h1.subrange(22 + e, 26 + e));
        },
    }
    assert(h.take(22) =~= base.take(22));
    assert forall|i: int| end <= i < 288 implies #[trigger] h[i] == base[i] by {
        assert(h1[i] == base[i]);
    }
    if end <= 256 {
        assert(h.subrange(256, 288) =~= base.subrange(256, 288));
    }
}

/// How a file that is built is put together.
pub proof fn lemma_built(parts: Parts, data: Seq<u8>, suffix: Option<Seq<u8>>) -> (h: Seq<u8>)
    requires
        parts.sizes_fit(),
        parts.fits_32_bits(),
        parts.polyglot() == Build::Done((data, suffix)),
    ensures
        parts.has_first_box(),
        h.len() == 288,
        parts.header(296 + parts.html_part().len() as int, parts.with_carrier().len())
            == Build::Done(h),
        data == h + parts.with_carrier().skip(288),
        data.len() == parts.with_carrier().len(),
        data.len() == parts.mp4.len() - box_size(parts.mp4, 0) + 288 + parts.carrier().len(),
        parts.with_suffix(data) == Build::Done((data, suffix)),
{
    law_png_offset(parts);
    lemma_boxes_placed(parts);
    let total = parts.with_carrier().len();
    let off = 296 + parts.html_part().len() as int;
    match parts.header(off, total) {
        Build::Done(h) => {
            lemma_header(parts, off, total, h);
            h
        },
        _ => Seq::empty(),
    }
}

/// As an icon file, the polyglot file has a directory with one image, and at
/// the index and with the length that the directory gives stands the image.
pub proof fn law_reads_as_icon(parts: Parts, data: Seq<u8>, suffix: Option<Seq<u8>>)
    requires
        parts.sizes_fit(),
        parts.fits_32_bits(),
        parts.polyglot() == Build::Done((data, suffix)),
    ensures
        ({
            let at = 296 + parts.html_part().len() as int;
            &&& data.take(22) == icon_directory(parts.png.len() as int, at)
            &&& at + parts.png.len() <= data.len()
            &&& data.subrange(at, at + parts.png.len()) == parts.png
        }),
{
    let h = lemma_built(parts, data, suffix);
    let at = 296 + parts.html_part().len() as int;
    lemma_header(parts, at, parts.with_carrier().len(), h);
    lemma_boxes_placed(parts);
    assert(data.take(22) =~= h.take(22));
    lemma_carrier_bytes(parts, data, h);
}

/// The box with the HTML part and the image stands in the file.
pub proof fn lemma_carrier_bytes(parts: Parts, data: Seq<u8>, h: Seq<u8>)
    requires
        h.len() == 288,
        starts_with_carrier(parts.with_carrier(), parts.carrier()),
        data == h + parts.with_carrier().skip(288),
    ensures
        ({
            let n = parts.html_part().len() as int;
            let m = parts.png.len() as int;
            &&& parts.carrier().len() == 8 + n + m
            &&& 296 + n + m <= data.len()
            &&& data.subrange(288, 296 + n + m) == parts.carrier()
            &&& data.subrange(296, 296 + n) == parts.html_part()
            &&& data.subrange(296 + n, 296 + n + m) == parts.png
        }),
{
    let s = parts.with_carrier();
    let html = parts.html_part();
    let c = parts.carrier();
    let n = html.len() as int;
    let m = parts.png.len() as int;
    assert(c.len() == 8 + n + m);
    assert(data.subrange(288, 296 + n + m) =~= s.subrange(288, 296 + n + m));
    assert(c.subrange(8, 8 + n) =~= html);
    assert(c.subrange(8 + n, 8 + n + m) =~= parts.png);
    assert(data.subrange(296, 296 + n) =~= data.subrange(288, 296 + n + m).subrange(8, 8 + n));
    assert(data.subrange(296 + n, 296 + n + m) =~= data.subrange(288, 296 + n + m).subrange(
        8 + n,
        8 + n + m,
    ));
}

/// The extra file stands near the start of the polyglot file, right behind the
/// directory of the icon.
pub proof fn law_extra_near_start(parts: Parts, data: Seq<u8>, suffix: Option<Seq<u8>>)
    requires
        parts.sizes_fit(),
        parts.fits_32_bits(),
        parts.polyglot() == Build::Done((data, suffix)),
    ensures
        22 + parts.extra_part().len() <= data.len(),
        data.subrange(22, 22 + parts.extra_part().len() as int) == parts.extra_part(),
{
    let h = lemma_built(parts, data, suffix);
    let at = 296 + parts.html_part().len() as int;
    lemma_header(parts, at, parts.with_carrier().len(), h);
    let e = parts.extra_part().len() as int;
    assert(data.subrange(22, 22 + e) =~= h.subrange(22, 22 + e));
}

/// As an HTML page, the polyglot file opens a comment behind the extra file,
/// and the HTML part, which ends that comment and opens another, stands in it
/// as it is.
pub proof fn law_reads_as_html(parts: Parts, data: Seq<u8>, suffix: Option<Seq<u8>>)
    requires
        parts.sizes_fit(),
        parts.fits_32_bits(),
        parts.polyglot() == Build::Done((data, suffix)),
    ensures
        ({
            let e = parts.extra_part().len() as int;
            let n = parts.html_part().len() as int;
            &&& 26 + e <= 288
            &&& 296 + n <= data.len()
            &&& data.subrange(22 + e, 26 + e) == comment_open()
            &&& data.subrange(296, 296 + n) == parts.html_part()
        }),
{
    let h = lemma_built(parts, data, suffix);
    let at = 296 + parts.html_part().len() as int;
    lemma_header(parts, at, parts.with_carrier().len(), h);
    lemma_boxes_placed(parts);
    lemma_carrier_bytes(parts, data, h);
    let e = parts.extra_part().len() as int;
    assert(data.subrange(22 + e, 26 + e) =~= h.subrange(22 + e, 26 + e));
}

/// The `ftyp` box tells its size and its type.
proof fn lemma_isom_box_head()
    ensures
        be32_at(ISOM_BOX@, 0) == 32,
        ISOM_BOX@.subrange(4, 8) == FTYP@,
{
    assert(ISOM_BOX@.subrange(4, 8) =~= FTYP@);
}

/// To a reader of MP4 files, the directory of an icon starts a box of 256
/// bytes.
proof fn lemma_icon_as_box(data: Seq<u8>, png_len: int, png_offset: int)
    requires
        22 <= data.len(),
        data.take(22) == icon_directory(png_len, png_offset),
    ensures
        box_size(data, 0) == 256,
{
    let d = icon_directory(png_len, png_offset);
    assert(d[0] == 0 && d[1] == 0 && d[2] == 1 && d[3] == 0);
    assert(data[0] == data.take(22)[0] && data[1] == data.take(22)[1] && data[2] == data.take(
        22,
    )[2] && data[3] == data.take(22)[3]);
}

/// As an MP4 file, the polyglot file starts with a box of 256 bytes, a `ftyp`
/// box of 32 bytes, and the `skip` box with the HTML part and the image, as
/// long as the text in the header leaves the `ftyp` box alone.
pub proof fn law_reads_as_mp4(parts: Parts, data: Seq<u8>, suffix: Option<Seq<u8>>)
    requires
        parts.sizes_fit(),
        parts.fits_32_bits(),
        parts.polyglot() == Build::Done((data, suffix)),
        parts.header_text_end(data.len()) <= 256,
    ensures
        ({
            let c = parts.carrier();
            &&& 288 + c.len() <= data.len()
            &&& box_size(data, 0) == 256
            &&& data.subrange(256, 288) == ISOM_BOX@
            &&& box_size(data, 256) == 32
            &&& box_type(data, 256) == FTYP@
            &&& data.subrange(288, 288 + c.len() as int) == c
            &&& box_size(data, 288) == c.len()
            &&& box_type(data, 288) == SKIP@
        }),
{
    let h = lemma_built(parts, data, suffix);
    let at = 296 + parts.html_part().len() as int;
    lemma_header(parts, at, parts.with_carrier().len(), h);
    lemma_boxes_placed(parts);
    lemma_carrier_bytes(parts, data, h);
    lemma_skip_box_head(parts.html_part(), parts.png);
    lemma_box_in_place(data, 288, parts.carrier());
    assert(data.subrange(256, 288) =~= h.subrange(256, 288));
    lemma_box_in_place(data, 256, ISOM_BOX@);
    lemma_isom_box_head();
    assert(data.take(22) =~= h.take(22));
    lemma_icon_as_box(data, parts.png.len() as int, at);
}

/// Without a PDF document, a file is built of every MP4 file whose first box
/// ends within it and every extra file that the header has room for.
pub proof fn law_is_built(parts: Parts)
    requires
        parts.sizes_fit(),
        parts.fits_32_bits(),
        parts.has_first_box(),
        parts.pdf is None,
        parts.extra_part().len() <= 262,
    ensures
        parts.polyglot() is Done,
{
    law_png_offset(parts);
}

/// With a PDF document, too, a file is built of every extra file of less than
/// 200 bytes, unless the document itself cannot be moved or no length of the
/// stream object fits the file.
pub proof fn law_short_extra_accepted(parts: Parts)
    requires
        parts.sizes_fit(),
        parts.fits_32_bits(),
        parts.has_first_box(),
        parts.extra_part().len() < 200,
        parts.pdf matches Some(pdf) ==> {
            &&& 9 <= pdf.len()
            &&& stream_len(
                parts.file_size() - (36 + parts.extra_part().len()),
                parts.file_size() as nat,
            ) is Some
            &&& pdf_suffix(pdf, parts.file_size()) is Done
        },
    ensures
        parts.polyglot() is Done,
{
    law_png_offset(parts);
    lemma_boxes_placed(parts);
    lemma_skip_box_head(parts.html_part(), parts.png);
    let total = parts.with_carrier().len();
    let at = 296 + parts.html_part().len() as int;
    let e = parts.extra_part().len() as int;
    assert(total == parts.file_size());
    law_decimal_len_64_bits(total);
    lemma_plain_header(parts.png.len() as int, at);
    let base = plain_header(parts.png.len() as int, at);
    lemma_overwritten(base, 22, parts.extra_part() + comment_open());
    if let Some(pdf) = parts.pdf {
        let h1 = overwritten(base, 22, parts.extra_part() + comment_open());
        lemma_overwritten(h1, 26 + e, seq![0x0au8] + pdf.take(9));
        let room = total - (36 + e);
        let l = stream_len(room, total)->Some_0;
        assert(stream_fills(l, room));
        lemma_stream_header_len(l);
        law_decimal_len_64_bits(l);
        let h2 = overwritten(h1, 26 + e, seq![0x0au8] + pdf.take(9));
        lemma_overwritten(h2, 36 + e, stream_header(l));
        let h = overwritten(h2, 36 + e, stream_header(l));
        assert(parts.header(at, total) == Build::Done(h));
        assert((h + parts.with_carrier().skip(288)).len() == total);
    }
}

/// The text in the header leaves the `ftyp` box alone as long as the extra file
/// is no longer than 230 bytes; with a PDF document, no longer than 191 less
/// the number of digits that the size of the file has.
pub proof fn law_text_before_ftyp(parts: Parts, data: Seq<u8>, suffix: Option<Seq<u8>>)
    requires
        parts.sizes_fit(),
        parts.fits_32_bits(),
        parts.polyglot() == Build::Done((data, suffix)),
        parts.pdf is None ==> parts.extra_part().len() <= 230,
        parts.pdf is Some ==> parts.extra_part().len() + decimal(data.len()).len() <= 191,
    ensures
        parts.header_text_end(data.len()) <= 256,
{
    let h = lemma_built(parts, data, suffix);
    let at = 296 + parts.html_part().len() as int;
    lemma_header(parts, at, parts.with_carrier().len(), h);
    if parts.pdf is Some {
        let l = stream_len(data.len() - (36 + parts.extra_part().len()), data.len())->Some_0;
        lemma_stream_header_len(l);
        law_decimal_len_monotonic(l, data.len());
    }
}

/// The file, without the PDF document, has as many bytes as its header, the box
/// with the HTML part and the image, and what follows the first box of the MP4
/// file.
pub proof fn law_file_size(parts: Parts, data: Seq<u8>, suffix: Option<Seq<u8>>)
    requires
        parts.sizes_fit(),
        parts.fits_32_bits(),
        parts.polyglot() == Build::Done((data, suffix)),
    ensures
        data.len() == parts.file_size(),
{
    let h = lemma_built(parts, data, suffix);
    lemma_skip_box_head(parts.html_part(), parts.png);
}

} // verus!
