use beheader::error::PolyglotError;
use beheader::mp4::box_ops::find_all_boxes;
use beheader::outcome::Build;
use beheader::pdf::{build_pdf_suffix, compose_pdf_suffix};
use beheader::polyglot::{compose_polyglot, ISOM_BOX};
use beheader::utils::read_box_header;
use beheader::wasm_api::wasm_build_polyglot;
use beheader::{build_polyglot, PolyglotConfig};

fn boxed(kind: &[u8; 4], payload: &[u8]) -> Vec<u8> {
    let mut r = ((payload.len() + 8) as u32).to_be_bytes().to_vec();
    r.extend_from_slice(kind);
    r.extend_from_slice(payload);
    r
}

/// A video whose first box takes `first` bytes, with one table of each kind
/// that leads to the bytes `media` and `tail`.
fn video(first: usize) -> Vec<u8> {
    let mut data = boxed(b"ftyp", &vec![b'f'; first - 8]);
    let media = (first + 8 + 24 + 24 + 8) as u32;
    let mut narrow = vec![0, 0, 0, 0, 0, 0, 0, 2];
    narrow.extend_from_slice(&media.to_be_bytes());
    narrow.extend_from_slice(&(media + 5).to_be_bytes());
    let mut wide = vec![0, 0, 0, 0, 0, 0, 0, 1];
    wide.extend_from_slice(&(media as u64 + 5).to_be_bytes());
    let mut moov = boxed(b"stco", &narrow);
    moov.extend_from_slice(&boxed(b"co64", &wide));
    data.extend_from_slice(&boxed(b"moov", &moov));
    data.extend_from_slice(&boxed(b"mdat", b"mediatail"));
    data
}

fn config(mp4: Vec<u8>) -> PolyglotConfig {
    PolyglotConfig {
        png_data: b"an image".to_vec(),
        mp4_data: mp4,
        html_content: None,
        pdf_data: None,
        extra_data: None,
    }
}

fn document() -> Vec<u8> {
    let mut pdf = b"%PDF-1.4\n1 0 obj\n<</Type /Catalog>>\nendobj\n".to_vec();
    let xref = pdf.len();
    pdf.extend_from_slice(b"xref\n0 2\n0000000000 65535 f \n0000000009 00000 n \n");
    pdf.extend_from_slice(b"trailer\n<</Size 2 /Root 1 0 R>>\nstartxref\r\n");
    pdf.extend_from_slice(format!("{xref}\n%%EOF\n").as_bytes());
    pdf
}

fn le32_at(data: &[u8], at: usize) -> usize {
    u32::from_le_bytes(data[at..at + 4].try_into().unwrap()) as usize
}

fn be32_in(data: &[u8], at: usize) -> usize {
    u32::from_be_bytes(data[at..at + 4].try_into().unwrap()) as usize
}

fn index_of(data: &[u8], text: &[u8]) -> usize {
    data.windows(text.len()).position(|w| w == text).unwrap()
}

#[test]
fn reads_as_icon() {
    let mut c = config(video(24));
    c.html_content = Some("<p>é</p>".to_string());
    let data = build_polyglot(&c).unwrap().data;
    assert_eq!(&data[..14], &[0, 0, 1, 0, 1, 0, 0, 0, 0, 0, 0, 0, 32, 0]);
    assert_eq!(le32_at(&data, 14), 8);
    let at = le32_at(&data, 18);
    assert_eq!(&data[at..at + 8], b"an image");
}

#[test]
fn reads_as_html() {
    let mut c = config(video(24));
    c.html_content = Some("<p>é</p>".to_string());
    let data = build_polyglot(&c).unwrap().data;
    let html = "--><style>body{font-size:0}</style><div style=font-size:initial><p>é</p></div><!--";
    assert_eq!(&data[22..26], b"<!--");
    assert_eq!(&data[296..296 + html.len()], html.as_bytes());
    assert_eq!(le32_at(&data, 18), 296 + html.len());
}

#[test]
fn reads_as_mp4() {
    let data = build_polyglot(&config(video(24))).unwrap().data;
    assert_eq!(read_box_header(&data, 0), Some((256, [1, 0, 0, 0])));
    assert_eq!(&data[240..256], b"isomiso2avc1mp41");
    assert_eq!(&data[256..288], &ISOM_BOX);
    assert_eq!(read_box_header(&data, 256), Some((32, *b"ftyp")));
    assert_eq!(read_box_header(&data, 288), Some((16, *b"skip")));
    assert_eq!(&data[296..304], b"an image");
    assert_eq!(read_box_header(&data, 304), Some((56, *b"moov")));
}

#[test]
fn file_offsets_lead_to_the_media_data() {
    for first in [8, 24, 288, 400] {
        let mp4 = video(first);
        let data = build_polyglot(&config(mp4.clone())).unwrap().data;
        assert_eq!(data.len(), mp4.len() - first + 304);
        let narrow = find_all_boxes(&data, b"stco");
        let wide = find_all_boxes(&data, b"co64");
        assert_eq!(narrow.len(), 1);
        assert_eq!(wide.len(), 1);
        let one = be32_in(&data, narrow[0].1 + 16);
        let two = be32_in(&data, narrow[0].1 + 20);
        assert_eq!(be32_in(&data, wide[0].1 + 16), 0);
        let three = be32_in(&data, wide[0].1 + 20);
        assert_eq!(&data[one..one + 5], b"media");
        assert_eq!(&data[two..two + 4], b"tail");
        assert_eq!(&data[three..], b"tail");
    }
}

#[test]
fn extra_file_stands_near_the_start() {
    let mut c = config(video(24));
    c.extra_data = Some(b"#!/bin/sh\n".to_vec());
    let data = build_polyglot(&c).unwrap().data;
    assert_eq!(&data[22..32], b"#!/bin/sh\n");
    assert_eq!(&data[32..36], b"<!--");
    c.extra_data = Some(vec![b'x'; 199]);
    let long = build_polyglot(&c).unwrap().data;
    assert_eq!(read_box_header(&long, 256), Some((32, *b"ftyp")));
    c.extra_data = Some(vec![b'x'; 262]);
    let longest = build_polyglot(&c).unwrap().data;
    assert_eq!(&longest[284..288], b"<!--");
    c.extra_data = Some(vec![b'x'; 263]);
    assert!(matches!(compose_polyglot(&c), Build::Undefined));
}

#[test]
fn extra_file_and_document_together() {
    let mut c = config(b"\0\0\0\x08ftyp".to_vec());
    c.png_data = vec![0; 704];
    c.pdf_data = Some(
        b"%PDF-1.4\nxref\n0 1\n0000000000 65535 f \nstartxref\r\n9\r\n%%EOF\n".to_vec(),
    );
    for n in [0, 1, 150, 187, 188, 199] {
        c.extra_data = Some(vec![b'x'; n]);
        let data = build_polyglot(&c).unwrap().data;
        assert_eq!(data.len(), 1000);
        assert_eq!(&data[22..22 + n], &vec![b'x'; n][..]);
        assert_eq!(&data[22 + n..36 + n], b"<!--\n%PDF-1.4\n");
        let length = 1000 - (36 + n) - 32;
        let header = format!("\n1 0 obj\n<</Length {length}>>\nstream\n");
        assert_eq!(&data[36 + n..36 + n + header.len()], header.as_bytes());
        let kept = read_box_header(&data, 256) == Some((32, *b"ftyp"));
        assert_eq!(kept, n <= 188);
    }
}

#[test]
fn a_file_without_video_is_built() {
    let data = build_polyglot(&config(ISOM_BOX.to_vec())).unwrap().data;
    assert_eq!(data.len(), 304);
    assert_eq!(read_box_header(&data, 256), Some((32, *b"ftyp")));
}

#[test]
fn reads_as_pdf() {
    let mut c = config(video(24));
    let pdf = document();
    c.pdf_data = Some(pdf.clone());
    let result = build_polyglot(&c).unwrap();
    let data = result.data;
    assert_eq!(&data[26..36], b"\n%PDF-1.4\n");
    let length = data.len() - 36 - 32;
    assert_eq!(
        &data[36..68],
        format!("\n1 0 obj\n<</Length {length}>>\nstream\n").as_bytes()
    );
    let suffix = result.pdf_suffix.unwrap();
    assert_eq!(suffix.len(), pdf.len() + 28);
    assert_eq!(&suffix[..18], b"\nendstream\nendobj\n");
    let mut whole = data.clone();
    whole.extend_from_slice(&suffix);
    let shift = data.len() + 18;
    let xref = index_of(&pdf, b"xref");
    assert_eq!(&whole[shift..shift + xref + 9], &pdf[..xref + 9]);
    let entry = shift + xref + 9 + 20;
    let text = std::str::from_utf8(&whole[entry..entry + 20]).unwrap();
    assert_eq!(text, format!("{:010} 00000 n \n", 9 + shift));
    let object: usize = text[..10].parse().unwrap();
    assert!(whole[object..].starts_with(b"1 0 obj\n<</Type /Catalog>>"));
    let start = data.len() + index_of(&suffix, b"startxref\r\n") + 11;
    let end = start + whole[start..].iter().position(|b| *b == b'\n').unwrap();
    let value: usize = std::str::from_utf8(&whole[start..end]).unwrap().parse().unwrap();
    assert_eq!(value, xref + shift);
    assert!(whole[value..].starts_with(b"xref\n"));
    assert!(whole[end..].starts_with(b"\n%%EOF\n"));
}

#[test]
fn document_with_other_line_breaks() {
    let pdf = b"%PDF-1.4\nx\nxref\r\n0 1\r\n0000000003 00000 n\r\ntrailer\nstartxref\r\n11\r\n%%EOF";
    let suffix = build_pdf_suffix(pdf, 1000).unwrap();
    let at = index_of(&suffix, b"0 1\r\n") + 5;
    assert_eq!(&suffix[at..at + 20], b"0000001021 00000 n\r\n");
    let start = index_of(&suffix, b"startxref\r\n") + 11;
    assert_eq!(&suffix[start..start + 11], b"1029\n%%EOF\n");
    assert_eq!(suffix.len(), pdf.len() + 28);
}

#[test]
fn position_stands_behind_white_space() {
    let pdf = b"%PDF-1.4\nxref\n0 1\n0000000000 65535 f \nstartxref\n9\n%%EOF\n";
    let suffix = build_pdf_suffix(pdf, 1000).unwrap();
    assert_eq!(&suffix[27..31], b"xref");
    assert_eq!(&suffix[56..71], b"startxref\n1027\n");
    for end in ["\n", "\r", "\r\n", " \n", "\n\n", " \r\n", " ", "\t \n \n", ""] {
        let pdf = format!("a\nxref\n0 0\nstartxref{end}345\n%%EOF\n");
        let suffix = build_pdf_suffix(pdf.as_bytes(), 1000).unwrap();
        let start = index_of(&suffix, b"startxref") + 9 + end.len();
        assert_eq!(&suffix[start..start + 11], b"1363\n%%EOF\n");
    }
}

#[test]
fn what_is_no_number_stays() {
    let pdf = b"a\nxref\n0 1\nabcdefghij 00000 n \nstartxref\nnone\n%%EOF\n";
    let suffix = build_pdf_suffix(pdf, 1000).unwrap();
    assert_eq!(&suffix[18..18 + pdf.len()], &pdf[..]);
    assert_eq!(&suffix[18 + pdf.len()..], &[0; 10]);
}

#[test]
fn zeros_follow_the_end_of_the_document() {
    let mut pdf = b"a\nxref\n0 0\nstartxref\r\n2\n%%EOF\n".to_vec();
    pdf.extend_from_slice(&[b'z'; 40]);
    let suffix = build_pdf_suffix(&pdf, 1000).unwrap();
    let start = index_of(&suffix, b"startxref\r\n") + 11;
    assert_eq!(&suffix[start..start + 11], b"1020\n%%EOF\n");
    assert_eq!(&suffix[start + 11..start + 21], &[b'z'; 10]);
    assert!(suffix[start + 21..].iter().all(|b| *b == 0));
}

#[test]
fn documents_that_are_refused() {
    assert_eq!(build_pdf_suffix(b"no table", 0), Err(PolyglotError::Xref));
    assert_eq!(build_pdf_suffix(b"\nxref\n0 1\n", 0), Err(PolyglotError::StartXref));
    assert_eq!(
        build_pdf_suffix(b"\nxref\n0\nstartxref\n0\n", 0),
        Err(PolyglotError::XrefCount)
    );
    assert!(matches!(compose_pdf_suffix(b"\nxref\n0 1", 0), Build::Failed(PolyglotError::StartXref)));
    let pdf = b"\nxref\n0 1\n9999999999 00000 n \nstartxref\n0\n";
    assert!(matches!(compose_pdf_suffix(pdf, 1000), Build::Undefined));
}

#[test]
fn builds_that_are_refused() {
    assert!(matches!(build_polyglot(&config(vec![0; 7])), Err(PolyglotError::FtypSize)));
    assert!(matches!(compose_polyglot(&config(vec![0xff; 8])), Build::Undefined));
    let mut c = config(video(24));
    c.pdf_data = Some(document());
    c.extra_data = Some(vec![b'x'; 221]);
    assert!(build_polyglot(&c).is_ok());
    c.extra_data = Some(vec![b'x'; 222]);
    assert!(matches!(build_polyglot(&c), Err(PolyglotError::PdfObject)));
    c.extra_data = None;
    c.pdf_data = Some(b"%PDF-1.4\n without a table".to_vec());
    assert!(matches!(build_polyglot(&c), Err(PolyglotError::Xref)));
    c.pdf_data = Some(b"%PDF".to_vec());
    assert!(matches!(compose_polyglot(&c), Build::Undefined));
}

#[test]
fn whole_file_in_one_call() {
    let mut c = config(video(24));
    c.pdf_data = Some(document());
    let result = build_polyglot(&c).unwrap();
    let mut expected = result.data;
    expected.extend_from_slice(&result.pdf_suffix.unwrap());
    let whole = wasm_build_polyglot(c.png_data, c.mp4_data, None, c.pdf_data, None);
    assert_eq!(whole, Ok(expected));
    assert_eq!(
        wasm_build_polyglot(vec![], vec![], None, None, None),
        Err(PolyglotError::FtypSize)
    );
}

#[test]
fn errors_have_texts() {
    assert_eq!(PolyglotError::FtypSize.message(), "Failed to read original ftyp size");
    assert_eq!(PolyglotError::FtypHeader.message(), "Failed to read ftyp box header");
    assert_eq!(PolyglotError::PngOffset.message(), "Failed to find PNG offset");
    assert_eq!(PolyglotError::PdfObject.message(), "PDF object exceeds ftyp buffer");
    assert_eq!(PolyglotError::Xref.message(), "Failed to find xref");
    assert_eq!(PolyglotError::StartXref.message(), "Failed to find startxref");
    assert_eq!(PolyglotError::XrefCount.message(), "Failed to parse xref count");
}
