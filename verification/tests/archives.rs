use beheader::append_zip_to_output;
use beheader::archive::{merge_items, ArchiveError, ArchiveStage, ReadItem};
use std::io::{Cursor, Read, Write};
use zip::write::SimpleFileOptions;
use zip::{CompressionMethod, ZipArchive, ZipWriter};

fn archive_of(entries: &[(&str, &[u8])]) -> Vec<u8> {
    let mut w = ZipWriter::new(Cursor::new(Vec::new()));
    let options = SimpleFileOptions::default().compression_method(CompressionMethod::Stored);
    for (name, data) in entries {
        w.start_file(*name, options).unwrap();
        w.write_all(data).unwrap();
    }
    w.finish().unwrap().into_inner()
}

fn entries_of(file: &[u8]) -> Vec<(String, Vec<u8>)> {
    let mut a = ZipArchive::new(Cursor::new(file.to_vec())).unwrap();
    let mut r = Vec::new();
    for i in 0..a.len() {
        let mut e = a.by_index(i).unwrap();
        let mut data = Vec::new();
        e.read_to_end(&mut data).unwrap();
        assert_eq!(e.compression(), CompressionMethod::Deflated);
        r.push((e.name().to_string(), data));
    }
    r
}

fn refused(r: Option<Result<(), ArchiveError>>) -> ArchiveError {
    match r {
        Some(Err(e)) => e,
        _ => panic!("no error"),
    }
}

#[test]
fn archives_are_merged_and_the_first_entry_is_kept() {
    let first = archive_of(&[("a.txt", b"one"), ("dir/", b""), ("b.txt", &[7; 5000])]);
    let second = archive_of(&[("b.txt", b"other"), ("c.txt", b""), ("a.txt", b"x"), ("d", b"y")]);
    let mut out = b"what stands before".to_vec();
    let before = out.clone();
    let archives = vec![first, second];
    assert!(matches!(append_zip_to_output(&mut out, &archives), Some(Ok(()))));
    assert_eq!(&out[..before.len()], &before[..]);
    let expected: Vec<(String, Vec<u8>)> = vec![
        ("a.txt".to_string(), b"one".to_vec()),
        ("dir/".to_string(), vec![]),
        ("b.txt".to_string(), vec![7; 5000]),
        ("c.txt".to_string(), vec![]),
        ("d".to_string(), b"y".to_vec()),
    ];
    assert_eq!(entries_of(&out[before.len()..]), expected);
    assert_eq!(entries_of(&out), expected);
    let n = out.len();
    assert_eq!(&out[n - 22..n - 18], b"PK\x05\x06");
    assert_eq!(&out[n - 12..n - 10], &[5, 0]);
    assert_eq!(&out[n - 2..], &[0, 0]);
}

#[test]
fn no_archives_make_an_empty_one() {
    let mut out = vec![1, 2, 3];
    assert!(matches!(append_zip_to_output(&mut out, &vec![]), Some(Ok(()))));
    assert_eq!(&out[..3], &[1, 2, 3]);
    assert_eq!(out.len(), 25);
    assert_eq!(entries_of(&out[3..]), vec![]);
}

#[test]
fn what_is_no_archive_is_refused() {
    let mut out = vec![1, 2, 3];
    let archives = vec![archive_of(&[("a", b"b")]), b"no archive".to_vec()];
    let e = refused(append_zip_to_output(&mut out, &archives));
    assert_eq!(e.stage, ArchiveStage::Archive);
    assert_eq!(e.text, ZipArchive::new(Cursor::new(b"no archive")).unwrap_err().to_string());
    assert_eq!(out, vec![1, 2, 3]);
}

#[test]
fn encrypted_entry_is_refused() {
    let mut file = archive_of(&[("a", b"b")]);
    let at = file.windows(4).position(|w| w == b"PK\x01\x02").unwrap();
    file[at + 8] |= 1;
    let mut out = vec![9];
    let e = refused(append_zip_to_output(&mut out, &vec![file]));
    assert_eq!(e.stage, ArchiveStage::Entry);
    assert_eq!(e.text, "unsupported Zip archive: Password required to decrypt file");
    assert_eq!(out, vec![9]);
}

#[test]
fn damaged_data_is_refused() {
    let mut file = archive_of(&[("a", b"data that is damaged")]);
    let at = file.windows(4).position(|w| w == b"data").unwrap();
    file[at] = b'D';
    let mut out = vec![9];
    let e = refused(append_zip_to_output(&mut out, &vec![file.clone()]));
    assert_eq!(e.stage, ArchiveStage::Data);
    assert_eq!(e.text, "Invalid checksum");
    assert_eq!(out, vec![9]);
    let whole = archive_of(&[("a", b"whole")]);
    assert!(matches!(append_zip_to_output(&mut out, &vec![whole, file]), Some(Ok(()))));
    assert_eq!(entries_of(&out[1..]), vec![("a".to_string(), b"whole".to_vec())]);
}

#[test]
fn name_that_no_archive_holds() {
    let name = "a".repeat(40000);
    let mut file = archive_of(&[(name.as_str(), b"")]);
    let mut i = 0;
    while i < file.len() {
        if file[i..].starts_with(&[b'a'; 100]) {
            while i < file.len() && file[i] == b'a' {
                file[i] = 0xb0;
                i += 1;
            }
        } else {
            i += 1;
        }
    }
    let mut out = vec![9];
    assert_eq!(append_zip_to_output(&mut out, &vec![file]), None);
    assert_eq!(out, vec![9]);
}

fn named(name: &str, data: &[u8]) -> ReadItem {
    ReadItem::Named(name.to_string(), Ok(data.to_vec()))
}

fn unreadable(name: &str, text: &str) -> ReadItem {
    ReadItem::Named(name.to_string(), Err(text.to_string()))
}

#[test]
fn items_are_merged() {
    let items = vec![named("a", b"1"), named("b", b"2"), named("a", b"3"), unreadable("b", "x")];
    let kept = merge_items(items).unwrap();
    let expected = vec![("a".to_string(), b"1".to_vec()), ("b".to_string(), b"2".to_vec())];
    assert_eq!(kept, expected);
    assert_eq!(merge_items(vec![]), Ok(vec![]));
}

#[test]
fn first_error_of_the_items_is_given() {
    let stop = ArchiveError { stage: ArchiveStage::Entry, text: "stop".to_string() };
    let items = vec![named("a", b"1"), unreadable("b", "bad"), ReadItem::Refused(stop)];
    let bad = ArchiveError { stage: ArchiveStage::Data, text: "bad".to_string() };
    assert_eq!(merge_items(items), Err(bad));
    let stop = ArchiveError { stage: ArchiveStage::Archive, text: "stop".to_string() };
    let items = vec![named("a", b"1"), ReadItem::Refused(stop), unreadable("b", "bad")];
    let e = merge_items(items).unwrap_err();
    assert_eq!(e.stage, ArchiveStage::Archive);
    assert_eq!(e.text, "stop");
}

#[test]
fn merged_archive_merges_to_itself() {
    let first = archive_of(&[("é.txt", b"one"), ("b", b"two")]);
    let second = archive_of(&[("b", b"three"), ("a", b"four")]);
    let mut merged = Vec::new();
    assert!(matches!(append_zip_to_output(&mut merged, &vec![first, second]), Some(Ok(()))));
    let mut again = Vec::new();
    assert!(matches!(append_zip_to_output(&mut again, &vec![merged.clone()]), Some(Ok(()))));
    assert_eq!(entries_of(&again), entries_of(&merged));
    assert_eq!(entries_of(&again).len(), 3);
    assert_eq!(entries_of(&again)[0].0, "é.txt");
}
