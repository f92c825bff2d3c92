use beheader::bytes::overwrite;
use beheader::error::PolyglotError;
use beheader::mp4::box_ops::{
    build_skip_box, find_all_boxes, find_boxes_recursive, find_png_offset, insert_box_after_ftyp,
    low_32_bits, replace_ftyp_box,
};
use beheader::mp4::offset::update_stco_offsets;
use beheader::utils::{find_subarray, pad_left, read_box_header, same_bytes};

fn a_box(kind: &[u8; 4], payload: &[u8]) -> Vec<u8> {
    let mut r = ((payload.len() + 8) as u32).to_be_bytes().to_vec();
    r.extend_from_slice(kind);
    r.extend_from_slice(payload);
    r
}

fn narrow_table(entries: &[u32]) -> Vec<u8> {
    let mut p = vec![0u8; 4];
    p.extend_from_slice(&(entries.len() as u32).to_be_bytes());
    for e in entries {
        p.extend_from_slice(&e.to_be_bytes());
    }
    a_box(b"stco", &p)
}

fn wide_table(entries: &[u64]) -> Vec<u8> {
    let mut p = vec![0u8; 4];
    p.extend_from_slice(&(entries.len() as u32).to_be_bytes());
    for e in entries {
        p.extend_from_slice(&e.to_be_bytes());
    }
    a_box(b"co64", &p)
}

#[test]
fn box_header_is_read() {
    let b = a_box(b"moov", &[1, 2, 3]);
    assert_eq!(read_box_header(&b, 0), Some((11, *b"moov")));
    assert_eq!(read_box_header(&b, 3), Some((0x0b6d6f6f, [0x76, 1, 2, 3])));
    assert_eq!(read_box_header(&b, 4), None);
    assert_eq!(read_box_header(&b, 1000), None);
    assert_eq!(read_box_header(&[], 0), None);
}

#[test]
fn boxes_are_found_in_order_and_inside_boxes() {
    let table1 = narrow_table(&[1]);
    let table2 = narrow_table(&[2, 3]);
    let inner = a_box(b"minf", &table1);
    let mut moov = inner.clone();
    moov.extend_from_slice(&table2);
    let mut data = a_box(b"ftyp", b"isom");
    data.extend_from_slice(&a_box(b"moov", &moov));
    assert_eq!(find_all_boxes(&data, b"stco"), vec![(20, 28), (24, 48)]);
    assert_eq!(find_all_boxes(&data, b"ftyp"), vec![(12, 0)]);
    assert_eq!(find_all_boxes(&data, b"free"), vec![]);
}

#[test]
fn media_and_skip_boxes_are_not_searched() {
    let table = narrow_table(&[1]);
    let mut data = a_box(b"mdat", &table);
    data.extend_from_slice(&a_box(b"skip", &table));
    data.extend_from_slice(&a_box(b"free", &table));
    assert_eq!(find_all_boxes(&data, b"stco"), vec![(20, 64)]);
    assert_eq!(find_all_boxes(&data, b"skip"), vec![(28, 28)]);
}

#[test]
fn search_stops_at_a_broken_box() {
    let table = narrow_table(&[1]);
    let mut data = vec![0, 0, 0, 7];
    data.extend_from_slice(b"free");
    data.extend_from_slice(&table);
    assert_eq!(find_all_boxes(&data, b"stco"), vec![]);
    let mut long = vec![0, 0, 1, 0];
    long.extend_from_slice(b"free");
    long.extend_from_slice(&table);
    assert_eq!(find_all_boxes(&long, b"stco"), vec![]);
    assert_eq!(find_all_boxes(&[], b"stco"), vec![]);
}

#[test]
fn found_boxes_are_appended() {
    let data = a_box(b"stco", &[0; 8]);
    let mut found = vec![(1u64, 2usize)];
    find_boxes_recursive(&data, 0, data.len(), b"stco", &mut found);
    assert_eq!(found, vec![(1, 2), (16, 0)]);
    find_boxes_recursive(&data, 0, 15, b"stco", &mut found);
    assert_eq!(found.len(), 2);
    find_boxes_recursive(&data, 0, 1000, b"stco", &mut found);
    assert_eq!(found.len(), 3);
}

#[test]
fn first_box_is_replaced() {
    let mut data = a_box(b"ftyp", b"isom");
    data.extend_from_slice(b"rest");
    assert_eq!(replace_ftyp_box(&data, b"new"), Ok(b"newrest".to_vec()));
    assert_eq!(replace_ftyp_box(&[0; 7], b"new"), Err(PolyglotError::FtypHeader));
}

#[test]
fn box_is_inserted_behind_the_first() {
    let mut data = a_box(b"ftyp", b"isom");
    let ftyp = data.clone();
    data.extend_from_slice(b"rest");
    let mut expected = ftyp;
    expected.extend_from_slice(b"newrest");
    assert_eq!(insert_box_after_ftyp(&data, b"new"), Ok(expected));
    assert_eq!(insert_box_after_ftyp(&[], b"new"), Err(PolyglotError::FtypHeader));
}

#[test]
fn skip_box_and_the_offset_of_the_image() {
    let b = build_skip_box(b"html", b"image").unwrap();
    assert_eq!(b, b"\x00\x00\x00\x11skiphtmlimage".to_vec());
    let mut data = b"before".to_vec();
    data.extend_from_slice(&b);
    assert_eq!(find_png_offset(&data, b"html", b"image"), Some(6 + 8 + 4));
    data.extend_from_slice(b"behind");
    let at = find_png_offset(&data, b"html", b"image").unwrap();
    assert_eq!(at, 18);
    assert_eq!(&data[at..at + 5], b"image");
    assert_eq!(find_png_offset(&data, b"html", b"images"), None);
    assert_eq!(find_png_offset(&[], b"", b""), None);
    assert_eq!(low_32_bits(77), 77);
}

#[test]
fn offsets_of_both_kinds_are_moved() {
    let mut data = a_box(b"ftyp", b"isom");
    let mut moov = narrow_table(&[10, u32::MAX]);
    moov.extend_from_slice(&wide_table(&[20, u64::MAX]));
    data.extend_from_slice(&a_box(b"moov", &moov));
    let mut expected = a_box(b"ftyp", b"isom");
    let mut moved = narrow_table(&[15, 4]);
    moved.extend_from_slice(&wide_table(&[25, 4]));
    expected.extend_from_slice(&a_box(b"moov", &moved));
    update_stco_offsets(&mut data, 5);
    assert_eq!(data, expected);
    update_stco_offsets(&mut data, 5u64.wrapping_neg());
    let mut back = a_box(b"ftyp", b"isom");
    back.extend_from_slice(&a_box(b"moov", &moov));
    assert_eq!(data, back);
}

#[test]
fn entries_behind_the_end_are_left_alone() {
    let mut table = narrow_table(&[10, 20]);
    table[15] = 3;
    let mut data = table.clone();
    data.extend_from_slice(&[0, 0]);
    update_stco_offsets(&mut data, 1);
    let mut expected = narrow_table(&[11, 21]);
    expected[15] = 3;
    expected.extend_from_slice(&[0, 0]);
    assert_eq!(data, expected);
    let mut short = a_box(b"stco", &[0, 0, 0, 0]);
    let before = short.clone();
    update_stco_offsets(&mut short, 1);
    assert_eq!(short, before);
}

#[test]
fn bytes_are_put_over_others() {
    let mut o = *b"abcdef";
    overwrite(&mut o, 2, b"XY");
    assert_eq!(&o, b"abXYef");
}

#[test]
fn subarrays_are_found() {
    let hay = b"abcabcd";
    for start in 0..9 {
        for needle in [&b""[..], b"a", b"abc", b"abcd", b"cd", b"x", b"abcabcd", b"abcabcde"] {
            let expected = if needle.is_empty() || start >= hay.len() {
                None
            } else {
                hay[start..].windows(needle.len()).position(|w| w == needle).map(|i| start + i)
            };
            assert_eq!(find_subarray(hay, needle, start), expected);
        }
    }
    assert!(same_bytes(b"ab", b"ab"));
    assert!(!same_bytes(b"ab", b"ac"));
    assert!(!same_bytes(b"ab", b"a"));
}

#[test]
fn text_is_padded_by_its_bytes() {
    assert_eq!(pad_left("17", 5, '0'), "00017");
    assert_eq!(pad_left("17", 2, '0'), "17");
    assert_eq!(pad_left("12345", 2, '0'), "12345");
    assert_eq!(pad_left("", 3, 'é'), "ééé");
    assert_eq!(pad_left("é", 3, '-'), "-é");
    assert_eq!(pad_left("", 0, '-'), "");
}
