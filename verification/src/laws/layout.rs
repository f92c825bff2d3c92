//! What stands where in a polyglot file, told by its bytes and those of its
//! parts.
use crate::bytes::{ascii, law_le32_round_trip, law_overwritten, le32_bytes, overwritten};
use crate::error::PolyglotError;
use crate::laws::boxes::{kind_at, law_skip_box, word_at};
use crate::laws::{
    law_file_size, law_is_built, law_png_offset, law_reads_as_icon, law_short_extra_accepted,
    lemma_boxes_placed, lemma_built, lemma_carrier_bytes, lemma_header, lemma_skip_box_head,
};
use crate::number::{
    decimal, digits_value, is_digit, law_decimal_len_64_bits, law_decimal_value,
    law_no_leading_zero, lemma_decimal_digits,
};
use crate::outcome::Build;
use crate::pdf::pdf_suffix;
use crate::polyglot::{
    comment_open, html_close, html_open, icon_directory, plain_header, with_stream_header, Parts,
    PolyglotConfig, ISOM_BOX,
};
use crate::stream::{law_stream_len, lemma_stream_header_len, stream_header, stream_len};
use crate::wasm_api::whole_file;
use vstd::prelude::*;
use vstd::utf8::encode_utf8;

verus! {

/// The codes of the characters of a text.
pub open spec fn text(t: Seq<char>) -> Seq<u8> {
    Seq::new(t.len(), |i: int| t[i] as u8)
}

/// The number that the four bytes from index `at` on are, the lowest first.
pub open spec fn low_word_at(data: Seq<u8>, at: int) -> int {
    data[at] + 0x100 * data[at + 1] + 0x1_0000 * data[at + 2] + 0x100_0000 * data[at + 3]
}

/// The page that a polyglot file shows: the HTML document, in between the end of
/// a comment and the start of another.
pub open spec fn page(parts: Parts) -> Seq<u8> {
    match parts.html {
        Some(h) => text("--><style>body{font-size:0}</style><div style=font-size:initial>"@)
            + encode_utf8(h) + text("</div><!--"@),
        None => Seq::empty(),
    }
}

/// The extra file, if there is one.
pub open spec fn extra(parts: Parts) -> Seq<u8> {
    match parts.extra {
        Some(e) => e,
        None => Seq::empty(),
    }
}

/// Byte `i` of the header where no text is put over it: zeros, brands of video
/// files, and a `ftyp` box.
pub open spec fn bare_byte(i: int) -> u8 {
    if i < 240 {
        0
    } else if i < 256 {
        text("isomiso2avc1mp41"@)[i - 240]
    } else {
        seq![
            0u8, 0, 0, 32, 0x66, 0x74, 0x79, 0x70, 0x69, 0x73, 0x6f, 0x6d, 0, 0, 2, 0, 0x69, 0x73,
            0x6f, 0x6d, 0x69, 0x73, 0x6f, 0x32, 0x61, 0x76, 0x63, 0x31, 0x6d, 0x70, 0x34, 0x31,
        ][i - 256]
    }
}

/// Whether the sizes that come up in a build are ones that a `usize` holds and,
/// where the file tells them, ones that 32 bits hold.
pub open spec fn sizes_hold(parts: Parts) -> bool {
    &&& parts.mp4.len() + parts.png.len() + 2 * page(parts).len() + 296 <= usize::MAX
    &&& parts.pdf matches Some(pdf) ==> pdf.len() + 28 <= usize::MAX
    &&& 296 + page(parts).len() + parts.png.len() <= u32::MAX
}

/// The parts that a build has are the files it is given.
pub proof fn law_parts(config: PolyglotConfig)
    ensures
        config@.png == config.png_data@,
        config@.mp4 == config.mp4_data@,
        config.html_content is None <==> config@.html is None,
        config.html_content matches Some(h) ==> config@.html == Some(h@),
        config.pdf_data is None <==> config@.pdf is None,
        config.pdf_data matches Some(p) ==> config@.pdf == Some(p@),
        config.extra_data is None <==> config@.extra is None,
        config.extra_data matches Some(e) ==> config@.extra == Some(e@),
{
}

/// What the parts that are put together hold.
pub proof fn law_page_and_extra(parts: Parts)
    ensures
        parts.html_part() == page(parts),
        parts.extra_part() == extra(parts),
        sizes_hold(parts) ==> parts.sizes_fit() && parts.fits_32_bits(),
{
    if let Some(h) = parts.html {
        let a = "--><style>body{font-size:0}</style><div style=font-size:initial>"@;
        let b = "</div><!--"@;
        assert(html_open() =~= text(a));
        assert(html_close() =~= text(b));
    }
}

/// A header without text is the directory of an icon and the bare bytes.
proof fn lemma_bare_bytes(png_len: int, at: int, i: int)
    requires
        22 <= i < 288,
    ensures
        plain_header(png_len, at).len() == 288,
        plain_header(png_len, at)[i] == bare_byte(i),
{
    reveal_strlit("isomiso2avc1mp41");
    let brands = "isomiso2avc1mp41"@;
    assert(ascii(brands) =~= text(brands));
    let b = seq![
        0u8, 0, 0, 32, 0x66, 0x74, 0x79, 0x70, 0x69, 0x73, 0x6f, 0x6d, 0, 0, 2, 0, 0x69, 0x73,
        0x6f, 0x6d, 0x69, 0x73, 0x6f, 0x32, 0x61, 0x76, 0x63, 0x31, 0x6d, 0x70, 0x34, 0x31,
    ];
    assert(ISOM_BOX@ =~= b);
}

/// The file starts with the directory of an icon with one image of 32 bits for a
/// pixel. The length in it is that of the image, and at the index in it stands
/// the image.
pub proof fn law_icon_directory(parts: Parts, data: Seq<u8>, suffix: Option<Seq<u8>>)
    requires
        sizes_hold(parts),
        parts.outcome() == Build::Done((data, suffix)),
    ensures
        22 <= data.len(),
        data.take(14) == seq![0u8, 0, 1, 0, 1, 0, 0, 0, 0, 0, 0, 0, 32, 0],
        low_word_at(data, 14) == parts.png.len(),
        low_word_at(data, 18) + parts.png.len() <= data.len(),
        data.subrange(low_word_at(data, 18), low_word_at(data, 18) + parts.png.len()) == parts.png,
{
    law_page_and_extra(parts);
    law_reads_as_icon(parts, data, suffix);
    law_file_size(parts, data, suffix);
    let at = 296 + parts.html_part().len() as int;
    lemma_directory(data, parts.png.len() as int, at);
}

/// The bytes of the directory.
proof fn lemma_directory(data: Seq<u8>, n: int, at: int)
    requires
        22 <= data.len(),
        data.take(22) == icon_directory(n, at),
        0 <= n <= u32::MAX,
        0 <= at <= u32::MAX,
    ensures
        data.take(14) == seq![0u8, 0, 1, 0, 1, 0, 0, 0, 0, 0, 0, 0, 32, 0],
        low_word_at(data, 14) == n,
        low_word_at(data, 18) == at,
{
    let d = icon_directory(n, at);
    assert forall|i: int| 0 <= i < 22 implies #[trigger] data[i] == d[i] by {
        assert(data.take(22)[i] == data[i]);
    }
    assert(data.take(14) =~= seq![0u8, 0, 1, 0, 1, 0, 0, 0, 0, 0, 0, 0, 32, 0]);
    law_le32_round_trip(n);
    law_le32_round_trip(at);
    assert(d[14] == le32_bytes(n)[0] && d[15] == le32_bytes(n)[1] && d[16] == le32_bytes(n)[2]
        && d[17] == le32_bytes(n)[3]);
    assert(d[18] == le32_bytes(at)[0] && d[19] == le32_bytes(at)[1] && d[20] == le32_bytes(at)[2]
        && d[21] == le32_bytes(at)[3]);
}

/// Behind the directory stand the extra file and the start of an HTML comment;
/// with a PDF document, then its first nine bytes in a line of their own, and
/// the header of a stream object that goes on to the end of the file: the digits
/// in it are the number of bytes from there on. The rest of the 288 bytes of the
/// header is bare.
pub proof fn law_header_text(parts: Parts, data: Seq<u8>, suffix: Option<Seq<u8>>) -> (digits: Seq<
    u8,
>)
    requires
        sizes_hold(parts),
        parts.outcome() == Build::Done((data, suffix)),
    ensures
        ({
            let e = extra(parts).len() as int;
            let line = text("\n1 0 obj\n<</Length "@) + digits + text(">>\nstream\n"@);
            &&& 288 <= data.len()
            &&& data.subrange(22, 22 + e) == extra(parts)
            &&& data.subrange(22 + e, 26 + e) == text("<!--"@)
            &&& parts.pdf is None ==> 26 + e <= 288 && forall|i: int|
                26 + e <= i < 288 ==> #[trigger] data[i] == bare_byte(i)
            &&& parts.pdf matches Some(pdf) ==> {
                let end = 36 + e + line.len();
                &&& 9 <= pdf.len()
                &&& end <= 288
                &&& data[26 + e] == 0x0a
                &&& data.subrange(27 + e, 36 + e) == pdf.take(9)
                &&& data.subrange(36 + e, end) == line
                &&& 0 < digits.len()
                &&& forall|i: int| 0 <= i < digits.len() ==> is_digit(#[trigger] digits[i])
                &&& digits.len() > 1 ==> digits[0] != 0x30
                &&& end + digits_value(digits) == data.len()
                &&& forall|i: int| end <= i < 288 ==> #[trigger] data[i] == bare_byte(i)
            }
        }),
{
    law_page_and_extra(parts);
    let h = lemma_built(parts, data, suffix);
    let at = 296 + parts.html_part().len() as int;
    let n = parts.png.len() as int;
    let total = parts.with_carrier().len();
    lemma_header(parts, at, total, h);
    let e = extra(parts).len() as int;
    let end = parts.header_text_end(total);
    let open = "<!--"@;
    assert(comment_open() =~= text(open));
    assert(data.subrange(22, 22 + e) =~= h.subrange(22, 22 + e));
    assert(data.subrange(22 + e, 26 + e) =~= h.subrange(22 + e, 26 + e));
    assert forall|i: int| end <= i < 288 implies #[trigger] data[i] == bare_byte(i) by {
        assert(data[i] == h[i]);
        lemma_bare_bytes(n, at, i);
    }
    match parts.pdf {
        None => Seq::empty(),
        Some(pdf) => {
            let l = stream_len(total - (36 + e), total)->Some_0;
            let digits = decimal(l);
            lemma_decimal_digits(l);
            law_decimal_value(l);
            law_no_leading_zero(l);
            lemma_stream_line(l);
            assert(data.subrange(36 + e, end) =~= h.subrange(36 + e, end));
            lemma_first_line(data, h, pdf, e);
            digits
        },
    }
}

/// The header of a stream object, as text.
proof fn lemma_stream_line(l: nat)
    ensures
        stream_header(l) == text("\n1 0 obj\n<</Length "@) + decimal(l) + text(
            ">>\nstream\n"@,
        ),
{
    let a = "\n1 0 obj\n<</Length "@;
    let b = ">>\nstream\n"@;
    assert(ascii(a) =~= text(a));
    assert(ascii(b) =~= text(b));
}

/// The first line of the document in the header.
proof fn lemma_first_line(data: Seq<u8>, h: Seq<u8>, pdf: Seq<u8>, e: int)
    requires
        0 <= e,
        36 + e <= 288,
        h.len() == 288,
        288 <= data.len(),
        9 <= pdf.len(),
        forall|i: int| 0 <= i < 288 ==> #[trigger] data[i] == h[i],
        h.subrange(26 + e, 36 + e) == seq![0x0au8] + pdf.take(9),
    ensures
        data[26 + e] == 0x0a,
        data.subrange(27 + e, 36 + e) == pdf.take(9),
{
    let line = seq![0x0au8] + pdf.take(9);
    assert(h.subrange(26 + e, 36 + e)[0] == line[0]);
    assert forall|i: int| 0 <= i < 9 implies data[27 + e + i] == pdf[i] by {
        assert(h.subrange(26 + e, 36 + e)[i + 1] == line[i + 1]);
    }
    assert(data.subrange(27 + e, 36 + e) =~= pdf.take(9));
}

/// Behind the header stands a `skip` box with the page and the image, and then
/// as many bytes as follow the first box of the MP4 file.
pub proof fn law_boxes_of_file(parts: Parts, data: Seq<u8>, suffix: Option<Seq<u8>>)
    requires
        sizes_hold(parts),
        parts.outcome() == Build::Done((data, suffix)),
    ensures
        ({
            let n = page(parts).len() as int;
            let m = parts.png.len() as int;
            &&& 8 <= parts.mp4.len()
            &&& word_at(parts.mp4, 0) <= parts.mp4.len()
            &&& data.len() == 296 + n + m + parts.mp4.len() - word_at(parts.mp4, 0)
            &&& word_at(data, 288) == 8 + n + m
            &&& kind_at(data, 288) == seq![0x73u8, 0x6b, 0x69, 0x70]
            &&& data.subrange(296, 296 + n) == page(parts)
            &&& data.subrange(296 + n, 296 + n + m) == parts.png
        }),
{
    law_page_and_extra(parts);
    let h = lemma_built(parts, data, suffix);
    lemma_boxes_placed(parts);
    lemma_carrier_bytes(parts, data, h);
    law_skip_box(page(parts), parts.png);
    lemma_head_of_box(data, parts.carrier());
}

/// The head of a box that stands at index 288.
proof fn lemma_head_of_box(data: Seq<u8>, b: Seq<u8>)
    requires
        8 <= b.len(),
        288 + b.len() <= data.len(),
        data.subrange(288, 288 + b.len() as int) == b,
    ensures
        word_at(data, 288) == word_at(b, 0),
        kind_at(data, 288) == kind_at(b, 0),
{
    assert(data[288] == b[0] && data[289] == b[1] && data[290] == b[2] && data[291] == b[3]
        && data[292] == b[4] && data[293] == b[5] && data[294] == b[6] && data[295] == b[7]);
}

/// Without a PDF document, a file is built of every MP4 file whose first box ends
/// within it and every extra file of at most 262 bytes.
pub proof fn law_builds(parts: Parts)
    requires
        sizes_hold(parts),
        8 <= parts.mp4.len(),
        word_at(parts.mp4, 0) <= parts.mp4.len(),
        parts.pdf is None,
        extra(parts).len() <= 262,
    ensures
        parts.outcome() matches Build::Done((data, suffix)) && suffix is None,
{
    law_page_and_extra(parts);
    law_is_built(parts);
}

/// With a PDF document, a file is built with every extra file of less than 200
/// bytes, if the document can be moved and the length of the stream object, with
/// its digits and 29 bytes, can make up what is left of the file.
pub proof fn law_builds_with_document(parts: Parts, l: nat)
    requires
        sizes_hold(parts),
        8 <= parts.mp4.len(),
        word_at(parts.mp4, 0) <= parts.mp4.len(),
        extra(parts).len() < 200,
        ({
            let size = 296 + page(parts).len() + parts.png.len() + parts.mp4.len() - word_at(
                parts.mp4,
                0,
            );
            &&& parts.pdf matches Some(pdf) && 9 <= pdf.len() && pdf_suffix(pdf, size) is Done
            &&& l + 29 + decimal(l).len() == size - 36 - extra(parts).len()
        }),
    ensures
        parts.outcome() matches Build::Done((data, suffix)) && suffix is Some,
{
    law_page_and_extra(parts);
    let size = parts.file_size();
    law_decimal_len_64_bits(size as nat);
    law_stream_len(size - (36 + extra(parts).len()), size as nat, l);
    law_short_extra_accepted(parts);
}

/// An MP4 file that is too short for the header of a box is refused.
pub proof fn law_short_video_refused(parts: Parts)
    requires
        sizes_hold(parts),
        parts.mp4.len() < 8,
    ensures
        parts.outcome() == Build::<(Seq<u8>, Option<Seq<u8>>)>::Failed(PolyglotError::FtypSize),
{
    law_page_and_extra(parts);
}

/// What follows the data of a file is its PDF document, moved by the length of
/// the data, and nothing if it has none.
pub proof fn law_document_follows(parts: Parts, data: Seq<u8>, suffix: Option<Seq<u8>>)
    requires
        sizes_hold(parts),
        parts.outcome() == Build::Done((data, suffix)),
    ensures
        parts.pdf is None ==> suffix is None,
        parts.pdf matches Some(pdf) ==> suffix is Some && pdf_suffix(pdf, data.len() as int)
            == Build::Done(suffix->Some_0),
{
    law_page_and_extra(parts);
    let h = lemma_built(parts, data, suffix);
}

/// The whole file starts with the data; without a PDF document it ends there, and
/// otherwise the PDF part stands behind it.
pub proof fn law_whole_file(data: Seq<u8>, suffix: Option<Seq<u8>>)
    ensures
        whole_file(data, suffix).take(data.len() as int) == data,
        suffix is None ==> whole_file(data, suffix).len() == data.len(),
        suffix matches Some(s) ==> whole_file(data, suffix).skip(data.len() as int) == s,
{
    assert(whole_file(data, suffix).take(data.len() as int) =~= data);
    if let Some(s) = suffix {
        assert(whole_file(data, suffix).skip(data.len() as int) =~= s);
    }
}

/// A PDF document with an extra file that leaves the header of the stream object
/// no room in the 288 bytes of the header is refused.
pub proof fn law_long_extra_refused(parts: Parts, l: nat)
    requires
        sizes_hold(parts),
        8 <= parts.mp4.len(),
        word_at(parts.mp4, 0) <= parts.mp4.len(),
        parts.pdf matches Some(pdf) && 9 <= pdf.len(),
        ({
            let e = extra(parts).len();
            let size = 296 + page(parts).len() + parts.png.len() + parts.mp4.len() - word_at(
                parts.mp4,
                0,
            );
            &&& 36 + e <= 288
            &&& 288 < 36 + e + 29 + decimal(l).len()
            &&& 29 + decimal(size as nat).len() <= size - 36 - e
            &&& l + 29 + decimal(l).len() == size - 36 - e
        }),
    ensures
        parts.outcome() == Build::<(Seq<u8>, Option<Seq<u8>>)>::Failed(PolyglotError::PdfObject),
{
    law_page_and_extra(parts);
    law_png_offset(parts);
    lemma_boxes_placed(parts);
    lemma_skip_box_head(parts.html_part(), parts.png);
    let total = parts.with_carrier().len();
    let at = 296 + parts.html_part().len() as int;
    let e = extra(parts).len() as int;
    law_stream_len(total - (36 + e), total, l);
    lemma_stream_header_len(l);
    lemma_header_len(parts, at, total);
}

/// The length of a header with an extra file and the first line of a document.
proof fn lemma_header_len(parts: Parts, at: int, total: nat)
    requires
        parts.pdf matches Some(pdf) && 9 <= pdf.len(),
        36 + parts.extra_part().len() <= 288,
    ensures
        ({
            let e = parts.extra_part().len() as int;
            parts.header(at, total) == with_stream_header(
                overwritten(
                    overwritten(
                        plain_header(parts.png.len() as int, at),
                        22,
                        parts.extra_part() + comment_open(),
                    ),
                    26 + e,
                    seq![0x0au8] + parts.pdf->Some_0.take(9),
                ),
                36 + e,
                total,
            )
        }),
        ({
            let e = parts.extra_part().len() as int;
            overwritten(
                overwritten(
                    plain_header(parts.png.len() as int, at),
                    22,
                    parts.extra_part() + comment_open(),
                ),
                26 + e,
                seq![0x0au8] + parts.pdf->Some_0.take(9),
            ).len() == 288
        }),
{
    reveal_strlit("<!--");
    let e = parts.extra_part().len() as int;
    let base = plain_header(parts.png.len() as int, at);
    lemma_bare_bytes(parts.png.len() as int, at, 22);
    law_overwritten(base, 22, parts.extra_part() + comment_open());
    let h1 = overwritten(base, 22, parts.extra_part() + comment_open());
    law_overwritten(h1, 26 + e, seq![0x0au8] + parts.pdf->Some_0.take(9));
}

} // verus!
