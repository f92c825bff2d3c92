//! Building the file: an icon header over the first bytes of an MP4 file, the
//! image and the HTML part in a box that video players pass over, and the
//! start of a PDF document.
use crate::bytes::{
    ascii, ascii_bytes, byte_of, law_be32_low_bits, le32_bytes, overwrite, overwritten, zeros,
};
use crate::error::PolyglotError;
use crate::mp4::box_ops::{
    boxes_here, boxes_in, build_skip_box, find_png_offset, insert_box_after_ftyp,
    law_boxes_in_order, low_32_bits, png_offset_in, replace_ftyp_box, skip_box, CO64, FTYP, MDAT,
    SKIP, STCO,
};
use crate::mp4::offset::{
    lemma_shifted_tables_frame, shifted_kind, shifted_offsets, update_stco_offsets,
};
use crate::outcome::Build;
use crate::pdf::{compose_pdf_suffix, pdf_suffix};
use crate::stream::{build_stream_header, find_stream_len, stream_header, stream_len};
use crate::utils::{box_size, box_type, read_box_header};
use vstd::prelude::*;
use vstd::utf8::encode_utf8;

verus! {

/// The files that a polyglot file is made of.
pub struct PolyglotConfig {
    /// The image, in PNG format.
    pub png_data: Vec<u8>,
    /// The video, in MP4 format.
    pub mp4_data: Vec<u8>,
    /// An HTML document.
    pub html_content: Option<String>,
    /// A PDF document.
    pub pdf_data: Option<Vec<u8>>,
    /// A short file to stand near the start.
    pub extra_data: Option<Vec<u8>>,
}

/// A polyglot file.
pub struct PolyglotResult {
    /// The file, without the PDF document.
    pub data: Vec<u8>,
    /// The PDF document, which follows the rest of the file.
    pub pdf_suffix: Option<Vec<u8>>,
}

/// What the files of a `PolyglotConfig` hold.
pub struct Parts {
    pub png: Seq<u8>,
    pub mp4: Seq<u8>,
    pub html: Option<Seq<char>>,
    pub pdf: Option<Seq<u8>>,
    pub extra: Option<Seq<u8>>,
}

impl View for PolyglotConfig {
    type V = Parts;

    open spec fn view(&self) -> Parts {
        Parts {
            png: self.png_data@,
            mp4: self.mp4_data@,
            html: match self.html_content {
                Some(h) => Some(h@),
                None => None,
            },
            pdf: match self.pdf_data {
                Some(p) => Some(p@),
                None => None,
            },
            extra: match self.extra_data {
                Some(e) => Some(e@),
                None => None,
            },
        }
    }
}

/// The `ftyp` box that video players find in the file.
pub const ISOM_BOX: [u8; 32] = [
    0x00, 0x00, 0x00, 0x20, 0x66, 0x74, 0x79, 0x70, 0x69, 0x73, 0x6f, 0x6d, 0x00, 0x00, 0x02,
    0x00, 0x69, 0x73, 0x6f, 0x6d, 0x69, 0x73, 0x6f, 0x32, 0x61, 0x76, 0x63, 0x31, 0x6d, 0x70,
    0x34, 0x31,
];

/// What stands before the HTML document: the end of a comment, and styles
/// that hide everything but the document.
pub open spec fn html_open() -> Seq<u8> {
    ascii("--><style>body{font-size:0}</style><div style=font-size:initial>"@)
}

/// What stands behind the HTML document: the start of a comment.
pub open spec fn html_close() -> Seq<u8> {
    ascii("</div><!--"@)
}

/// What starts a comment in HTML.
pub open spec fn comment_open() -> Seq<u8> {
    ascii("<!--"@)
}

impl Parts {
    /// The HTML document and what is put around it, in UTF-8.
    pub open spec fn html_part(self) -> Seq<u8> {
        match self.html {
            Some(h) => html_open() + encode_utf8(h) + html_close(),
            None => Seq::empty(),
        }
    }

    /// The extra file; without one, no bytes.
    pub open spec fn extra_part(self) -> Seq<u8> {
        match self.extra {
            Some(e) => e,
            None => Seq::empty(),
        }
    }

    /// The box that carries the HTML part and the image.
    pub open spec fn carrier(self) -> Seq<u8> {
        skip_box(self.html_part(), self.png)
    }

    /// Whether a `usize` holds the sizes that come up in a build.
    pub open spec fn sizes_fit(self) -> bool {
        &&& self.mp4.len() + self.png.len() + 2 * self.html_part().len() + 296 <= usize::MAX
        &&& self.pdf matches Some(p) ==> p.len() + 28 <= usize::MAX
    }

    /// How far the media data moves when its first box makes way for 288
    /// bytes, modulo two to the power of 64.
    pub open spec fn ftyp_delta(self) -> int {
        (288 - box_size(self.mp4, 0)) % 0x1_0000_0000_0000_0000
    }

    /// The MP4 file with 288 bytes in place of its first box.
    pub open spec fn with_new_ftyp(self) -> Seq<u8> {
        shifted_offsets(
            draft_header(self.png.len() as int) + self.mp4.skip(box_size(self.mp4, 0)),
            self.ftyp_delta(),
        )
    }

    /// The MP4 file with 288 bytes in place of its first box, and the box that
    /// carries the HTML part and the image behind them.
    pub open spec fn with_carrier(self) -> Seq<u8> {
        let mp4 = self.with_new_ftyp();
        shifted_offsets(
            mp4.take(288) + self.carrier() + mp4.skip(288),
            self.carrier().len() as int,
        )
    }

    /// The first 288 bytes of the file, in which the image stands at index
    /// `png_offset` and which is `total` bytes long.
    pub open spec fn header(self, png_offset: int, total: nat) -> Build<Seq<u8>> {
        let base = plain_header(self.png.len() as int, png_offset);
        let extra = self.extra_part();
        if 26 + extra.len() > 288 {
            Build::Undefined
        } else {
            let with_extra = overwritten(base, 22, extra + comment_open());
            match self.pdf {
                None => Build::Done(with_extra),
                Some(pdf) => if pdf.len() < 9 || 36 + extra.len() > 288 {
                    Build::Undefined
                } else {
                    with_stream_header(
                        overwritten(
                            with_extra,
                            26 + extra.len() as int,
                            seq![0x0au8] + pdf.take(9),
                        ),
                        36 + extra.len() as int,
                        total,
                    )
                },
            }
        }
    }

    /// The polyglot file: its data and the PDF document that follows it.
    pub open spec fn polyglot(self) -> Build<(Seq<u8>, Option<Seq<u8>>)> {
        if self.mp4.len() < 8 {
            Build::Failed(PolyglotError::FtypSize)
        } else if box_size(self.mp4, 0) > self.mp4.len() {
            Build::Undefined
        } else {
            let mp4 = self.with_carrier();
            match png_offset_in(mp4, self.html_part().len() as int, self.png.len() as int) {
                None => Build::Failed(PolyglotError::PngOffset),
                Some(png_offset) => match self.header(png_offset, mp4.len()) {
                    Build::Failed(e) => Build::Failed(e),
                    Build::Undefined => Build::Undefined,
                    Build::Done(header) => self.with_suffix(header + mp4.skip(288)),
                },
            }
        }
    }

    /// What comes of a build. It comes to nothing where sizes do not fit.
    pub open spec fn outcome(self) -> Build<(Seq<u8>, Option<Seq<u8>>)> {
        if self.sizes_fit() {
            self.polyglot()
        } else {
            Build::Undefined
        }
    }

    /// The file with the PDF document that follows it.
    pub open spec fn with_suffix(self, data: Seq<u8>) -> Build<(Seq<u8>, Option<Seq<u8>>)> {
        match self.pdf {
            None => Build::Done((data, None)),
            Some(pdf) => match pdf_suffix(pdf, data.len() as int) {
                Build::Done(s) => Build::Done((data, Some(s))),
                Build::Failed(e) => Build::Failed(e),
                Build::Undefined => Build::Undefined,
            },
        }
    }
}

/// The 288 bytes that stand in place of the first box of the MP4 file while
/// the index of the image is not yet known. They are one `ftyp` box.
pub open spec fn draft_header(png_len: int) -> Seq<u8> {
    seq![0u8, 0, 1, 32] + FTYP@ + zeros(4) + seq![32u8, 0] + le32_bytes(png_len) + zeros(238)
        + ISOM_BOX@
}

/// The directory of an icon file with one image: `png_len` bytes, of 32 bits
/// for a pixel, at index `png_offset`.
pub open spec fn icon_directory(png_len: int, png_offset: int) -> Seq<u8> {
    seq![0u8, 0, 1, 0, 1, 0, 0, 0, 0, 0, 0, 0, 32, 0] + le32_bytes(png_len) + le32_bytes(png_offset)
}

/// The first 288 bytes of a file without an extra file, HTML or PDF. To a
/// video player the first 256 of them are one box of an unknown type.
pub open spec fn plain_header(png_len: int, png_offset: int) -> Seq<u8> {
    icon_directory(png_len, png_offset) + zeros(218) + ascii("isomiso2avc1mp41"@) + ISOM_BOX@
}

/// `header` with the header of a PDF stream object at index `place`, in a
/// file of `total` bytes that the stream object goes on to the end of.
pub open spec fn with_stream_header(header: Seq<u8>, place: int, total: nat) -> Build<Seq<u8>> {
    match stream_len(total - place, total) {
        None => Build::Undefined,
        Some(len) => if place + stream_header(len).len() > header.len() {
            Build::Failed(PolyglotError::PdfObject)
        } else {
            Build::Done(overwritten(header, place, stream_header(len)))
        },
    }
}

/// Whether a file starts with a `ftyp` box of 288 bytes in which no box is
/// found.
pub open spec fn starts_with_ftyp(data: Seq<u8>) -> bool {
    &&& data.len() >= 288
    &&& box_size(data, 0) == 288
    &&& box_type(data, 0) == FTYP@
    &&& box_size(data, 8) == 0
}

/// A file that starts with the draft of the header starts with a `ftyp` box.
pub proof fn lemma_draft_is_ftyp(png_len: int, rest: Seq<u8>)
    ensures
        draft_header(png_len).len() == 288,
        starts_with_ftyp(draft_header(png_len) + rest),
{
    let data = draft_header(png_len) + rest;
    assert(box_type(data, 0) =~= FTYP@);
}

/// What a search comes by in a file that starts with a `ftyp` box of 288
/// bytes stands behind that box.
pub proof fn lemma_boxes_behind_ftyp(data: Seq<u8>, target: Seq<u8>)
    requires
        starts_with_ftyp(data),
        target == STCO@ || target == CO64@,
    ensures
        boxes_in(data, 0, data.len() as int, target) == boxes_in(
            data,
            288,
            data.len() as int,
            target,
        ),
{
    assert(FTYP@[0] != STCO@[0] && FTYP@[0] != CO64@[0] && FTYP@[0] != MDAT@[0] && FTYP@[0]
        != SKIP@[0]);
    assert(boxes_in(data, 8, 288, target) =~= Seq::empty());
    assert(boxes_here(data, 0, data.len() as int, target) =~= Seq::empty());
    assert(boxes_in(data, 0, data.len() as int, target) =~= boxes_in(
        data,
        288,
        data.len() as int,
        target,
    ));
}

/// Moving the file offsets of a file that starts with a `ftyp` box of 288
/// bytes leaves that box as it is.
pub proof fn lemma_ftyp_kept(data: Seq<u8>, delta: int)
    requires
        starts_with_ftyp(data),
        data.len() <= usize::MAX,
    ensures
        shifted_offsets(data, delta).len() == data.len(),
        shifted_offsets(data, delta).take(288) == data.take(288),
        starts_with_ftyp(shifted_offsets(data, delta)),
{
    let d1 = shifted_kind(data, false, delta);
    lemma_kind_keeps_ftyp(data, false, delta);
    lemma_kind_keeps_ftyp(d1, true, delta);
}

/// Moving the file offsets of one kind of table leaves a `ftyp` box of 288
/// bytes at the start as it is.
proof fn lemma_kind_keeps_ftyp(data: Seq<u8>, wide: bool, delta: int)
    requires
        starts_with_ftyp(data),
        data.len() <= usize::MAX,
    ensures
        shifted_kind(data, wide, delta).len() == data.len(),
        shifted_kind(data, wide, delta).take(288) == data.take(288),
        starts_with_ftyp(shifted_kind(data, wide, delta)),
{
    let kind = if wide {
        CO64@
    } else {
        STCO@
    };
    let moved = shifted_kind(data, wide, delta);
    lemma_boxes_behind_ftyp(data, kind);
    law_boxes_in_order(data, 288, data.len() as int, kind);
    lemma_shifted_tables_frame(
        data,
        boxes_in(data, 288, data.len() as int, kind),
        wide,
        delta,
        288,
    );
    assert(moved.take(288) =~= data.take(288));
    assert(box_type(moved, 0) =~= box_type(data, 0));
}

/// The `ftyp` box at the start of a file is one whatever follows it.
proof fn lemma_ftyp_prefix(data: Seq<u8>, rest: Seq<u8>)
    requires
        starts_with_ftyp(data),
    ensures
        starts_with_ftyp(data.take(288) + rest),
{
    let other = data.take(288) + rest;
    assert(box_type(other, 0) =~= box_type(data, 0));
}

/// The low 32 bits of `n`, least significant byte first.
fn le32(n: usize) -> (r: [u8; 4])
    ensures
        r@ == le32_bytes(n as int),
{
    let v: u32 = low_32_bits(n);
    let r: [u8; 4] = [
        (v % 0x100) as u8,
        (v / 0x100 % 0x100) as u8,
        (v / 0x1_0000 % 0x100) as u8,
        (v / 0x100_0000 % 0x100) as u8,
    ];
    proof {
        assert(r@ =~= le32_bytes(v as int)) by {
            reveal(byte_of);
        }
        law_be32_low_bits(n as int);
    }
    r
}

/// The HTML document and what is put around it.
fn build_html_part(html: &Option<String>) -> (r: Vec<u8>)
    requires
        html matches Some(h) ==> html_open().len() + encode_utf8(h@).len() + html_close().len()
            <= usize::MAX,
    ensures
        r@ == (match *html {
            Some(h) => html_open() + encode_utf8(h@) + html_close(),
            None => Seq::empty(),
        }),
{
    let mut r: Vec<u8> = Vec::new();
    match html {
        Some(h) => {
            proof {
                reveal_strlit("--><style>body{font-size:0}</style><div style=font-size:initial>");
                reveal_strlit("</div><!--");
            }
            r.extend_from_slice(
                ascii_bytes("--><style>body{font-size:0}</style><div style=font-size:initial>"),
            );
            r.extend_from_slice(h.as_str().as_bytes());
            r.extend_from_slice(ascii_bytes("</div><!--"));
            assert(r@ =~= html_open() + encode_utf8(h@) + html_close());
        },
        None => {},
    }
    r
}

/// The 288 bytes that stand in place of the first box of the MP4 file while
/// the index of the image is not yet known.
fn build_draft_header(png_len: usize) -> (r: Vec<u8>)
    ensures
        r@ == draft_header(png_len as int),
{
    let mut r: Vec<u8> = vec![0u8; 288];
    r[2] = 1;
    r[3] = 32;
    overwrite(r.as_mut_slice(), 4, &FTYP);
    r[12] = 32;
    overwrite(r.as_mut_slice(), 14, &le32(png_len));
    overwrite(r.as_mut_slice(), 256, &ISOM_BOX);
    assert(r@ =~= draft_header(png_len as int));
    r
}

/// The first 288 bytes of a file without an extra file, HTML or PDF.
fn build_plain_header(png_len: usize, png_offset: usize) -> (r: Vec<u8>)
    ensures
        r@ == plain_header(png_len as int, png_offset as int),
{
    let mut r: Vec<u8> = vec![0u8; 288];
    r[2] = 1;
    r[4] = 1;
    r[12] = 32;
    overwrite(r.as_mut_slice(), 14, &le32(png_len));
    overwrite(r.as_mut_slice(), 18, &le32(png_offset));
    proof {
        reveal_strlit("isomiso2avc1mp41");
    }
    overwrite(r.as_mut_slice(), 240, ascii_bytes("isomiso2avc1mp41"));
    overwrite(r.as_mut_slice(), 256, &ISOM_BOX);
    assert(r@ =~= plain_header(png_len as int, png_offset as int));
    r
}

/// The first 288 bytes of the file, in which the image stands at index
/// `png_offset` and which is `total` bytes long.
fn compose_header(
    png_len: usize,
    png_offset: usize,
    extra: &[u8],
    pdf: &Option<Vec<u8>>,
    total: usize,
    Ghost(parts): Ghost<Parts>,
) -> (r: Build<Vec<u8>>)
    requires
        parts.png.len() == png_len,
        parts.extra_part() == extra@,
        parts.pdf == (match *pdf {
            Some(p) => Some(p@),
            None => None,
        }),
    ensures
        match (r, parts.header(png_offset as int, total as nat)) {
            (Build::Done(v), Build::Done(s)) => v@ == s && s.len() == 288,
            (Build::Failed(e), Build::Failed(f)) => e == f,
            (Build::Undefined, Build::Undefined) => true,
            _ => false,
        },
{
    let mut header = build_plain_header(png_len, png_offset);
    proof {
        reveal_strlit("isomiso2avc1mp41");
        reveal_strlit("<!--");
    }
    let extra_len = extra.len();
    if extra_len > 262 {
        return Build::Undefined;
    }
    let ghost base = header@;
    overwrite(header.as_mut_slice(), 22, extra);
    overwrite(header.as_mut_slice(), 22 + extra_len, ascii_bytes("<!--"));
    assert(header@ =~= overwritten(base, 22, extra@ + comment_open()));
    let pdf_buf: &[u8] = match pdf {
        Some(p) => p.as_slice(),
        None => return Build::Done(header),
    };
    if pdf_buf.len() < 9 || extra_len > 252 {
        return Build::Undefined;
    }
    let ghost with_extra = header@;
    let start = 26 + extra_len;
    header[start] = 0x0a;
    overwrite(header.as_mut_slice(), start + 1, &pdf_buf[0..9]);
    assert(header@ =~= overwritten(
        with_extra,
        26 + extra_len as int,
        seq![0x0au8] + pdf_buf@.take(9),
    ));
    let place: usize = 36 + extra_len;
    match find_stream_len(place, total) {
        None => Build::Undefined,
        Some(len) => {
            let object = build_stream_header(len);
            if object.len() > header.len() || place > header.len() - object.len() {
                return Build::Failed(PolyglotError::PdfObject);
            }
            overwrite(header.as_mut_slice(), place, object.as_slice());
            Build::Done(header)
        },
    }
}

/// Whether a `usize` holds the sizes that come up in a build.
fn sizes_fit(config: &PolyglotConfig) -> (r: bool)
    ensures
        r == config@.sizes_fit(),
{
    proof {
        reveal_strlit("--><style>body{font-size:0}</style><div style=font-size:initial>");
        reveal_strlit("</div><!--");
    }
    let html: u128 = match &config.html_content {
        Some(h) => h.as_str().as_bytes().len() as u128 + 74,
        None => 0,
    };
    assert(html == config@.html_part().len());
    let sum: u128 = config.mp4_data.len() as u128 + config.png_data.len() as u128 + 2 * html + 296;
    let pdf: u128 = match &config.pdf_data {
        Some(p) => p.len() as u128 + 28,
        None => 0,
    };
    sum <= usize::MAX as u128 && pdf <= usize::MAX as u128
}

/// The MP4 file with 288 bytes in place of its first box, and the box that
/// carries the HTML part and the image behind them.
fn compose_boxes(
    mp4_data: &[u8],
    html_bytes: &[u8],
    png_data: &[u8],
    Ghost(parts): Ghost<Parts>,
) -> (r: Vec<u8>)
    requires
        parts.sizes_fit(),
        parts.mp4 == mp4_data@,
        parts.png == png_data@,
        parts.html_part() == html_bytes@,
        8 <= mp4_data@.len(),
        box_size(mp4_data@, 0) <= mp4_data@.len(),
    ensures
        r@ == parts.with_carrier(),
        r@.len() == mp4_data@.len() - box_size(mp4_data@, 0) + 296 + html_bytes@.len()
            + png_data@.len(),
        starts_with_ftyp(r@),
{
    let ftyp_size: u64 = match read_box_header(mp4_data, 0) {
        Some((size, _)) => size,
        None => 0,
    };
    let draft = build_draft_header(png_data.len());
    proof {
        lemma_draft_is_ftyp(png_data@.len() as int, mp4_data@.skip(box_size(mp4_data@, 0)));
    }
    let mut step1: Vec<u8> = match replace_ftyp_box(mp4_data, draft.as_slice()) {
        Ok(v) => v,
        Err(_) => vstd::pervasive::unreached(),
    };
    let ftyp_delta: u64 = 288u64.wrapping_sub(ftyp_size);
    assert(ftyp_delta == parts.ftyp_delta());
    proof {
        lemma_ftyp_kept(step1@, ftyp_delta as int);
    }
    update_stco_offsets(step1.as_mut_slice(), ftyp_delta);
    assert(step1@ == parts.with_new_ftyp());
    let carrier: Vec<u8> = match build_skip_box(html_bytes, png_data) {
        Ok(v) => v,
        Err(_) => vstd::pervasive::unreached(),
    };
    assert(carrier@ == parts.carrier());
    let mut step2: Vec<u8> = match insert_box_after_ftyp(step1.as_slice(), carrier.as_slice()) {
        Ok(v) => v,
        Err(_) => vstd::pervasive::unreached(),
    };
    proof {
        lemma_ftyp_prefix(step1@, carrier@ + step1@.skip(288));
        assert(step2@ =~= step1@.take(288) + (carrier@ + step1@.skip(288)));
        lemma_ftyp_kept(step2@, carrier@.len() as int);
    }
    update_stco_offsets(step2.as_mut_slice(), carrier.len() as u64);
    step2
}

/// Builds a polyglot file, or tells why it cannot be built.
pub fn compose_polyglot(config: &PolyglotConfig) -> (r: Build<PolyglotResult>)
    ensures
        match (r, config@.outcome()) {
            (Build::Done(v), Build::Done(s)) => v.data@ == s.0 && (match v.pdf_suffix {
                Some(t) => s.1 == Some(t@),
                None => s.1 is None,
            }),
            (Build::Failed(e), Build::Failed(f)) => e == f,
            (Build::Undefined, Build::Undefined) => true,
            _ => false,
        },
{
    let ghost parts = config@;
    if !sizes_fit(config) {
        return Build::Undefined;
    }
    let html_bytes = build_html_part(&config.html_content);
    let mp4_data: &[u8] = config.mp4_data.as_slice();
    let png_data: &[u8] = config.png_data.as_slice();
    let ftyp_size: u64 = match read_box_header(mp4_data, 0) {
        Some((size, _)) => size,
        None => return Build::Failed(PolyglotError::FtypSize),
    };
    if ftyp_size > mp4_data.len() as u64 {
        return Build::Undefined;
    }
    let step2 = compose_boxes(mp4_data, html_bytes.as_slice(), png_data, Ghost(parts));
    let png_offset: usize = match find_png_offset(
        step2.as_slice(),
        html_bytes.as_slice(),
        png_data,
    ) {
        Some(p) => p,
        None => return Build::Failed(PolyglotError::PngOffset),
    };
    let no_extra: [u8; 0] = [];
    let extra: &[u8] = match &config.extra_data {
        Some(e) => e.as_slice(),
        None => &no_extra,
    };
    assert(parts.extra_part() =~= extra@);
    let header: Vec<u8> = match compose_header(
        png_data.len(),
        png_offset,
        extra,
        &config.pdf_data,
        step2.len(),
        Ghost(parts),
    ) {
        Build::Done(v) => v,
        Build::Failed(e) => return Build::Failed(e),
        Build::Undefined => return Build::Undefined,
    };
    let data: Vec<u8> = match replace_ftyp_box(step2.as_slice(), header.as_slice()) {
        Ok(v) => v,
        Err(e) => return Build::Failed(e),
    };
    match &config.pdf_data {
        None => Build::Done(PolyglotResult { data, pdf_suffix: None }),
        Some(pdf) => match compose_pdf_suffix(pdf.as_slice(), data.len()) {
            Build::Done(s) => Build::Done(PolyglotResult { data, pdf_suffix: Some(s) }),
            Build::Failed(e) => Build::Failed(e),
            Build::Undefined => Build::Undefined,
        },
    }
}

/// Builds a polyglot file.
pub fn build_polyglot(config: &PolyglotConfig) -> (r: Result<PolyglotResult, PolyglotError>)
    requires
        !(config@.outcome() is Undefined),
    ensures
        match config@.outcome() {
            Build::Done((data, suffix)) => r matches Ok(v) && v.data@ == data && (
            match v.pdf_suffix {
                Some(t) => suffix == Some(t@),
                None => suffix is None,
            }),
            Build::Failed(e) => r matches Err(f) && f == e,
            Build::Undefined => true,
        },
{
    match compose_polyglot(config) {
        Build::Done(v) => Ok(v),
        Build::Failed(e) => Err(e),
        Build::Undefined => vstd::pervasive::unreached(),
    }
}

} // verus!
