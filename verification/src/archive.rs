//! Merging ZIP archives into one that stands at the end of a file.
use std::io::{Cursor, Read, Write};
use vstd::prelude::*;
use vstd::utf8::encode_utf8;
use zip::result::ZipError;
use zip::write::SimpleFileOptions;
use zip::{CompressionMethod, ZipArchive, ZipWriter};

verus! {

/// What was done when merging archives went wrong.
#[derive(Debug, Clone, Copy, PartialEq, Eq, Structural)]
pub enum ArchiveStage {
    /// An archive was opened.
    Archive,
    /// An entry of an archive was looked up.
    Entry,
    /// The data of an entry was read.
    Data,
    /// An entry was added to the merged archive.
    Start,
    /// The data of an entry was written to the merged archive.
    Write,
    /// The merged archive was completed.
    Finish,
}

/// Why archives could not be merged.
#[derive(Debug, PartialEq, Eq)]
pub struct ArchiveError {
    /// What was done.
    pub stage: ArchiveStage,
    /// What the library for archives says of it.
    pub text: String,
}

/// What reading archives comes by, one after the other.
pub enum ReadItem {
    /// An archive, or an entry of one, that cannot be read.
    Refused(ArchiveError),
    /// An entry: its name, and its data or why that cannot be read.
    Named(String, Result<Vec<u8>, String>),
}

/// What a `ReadItem` holds.
pub enum Item {
    Refused(ArchiveStage, Seq<char>),
    Named(Seq<char>, Result<Seq<u8>, Seq<char>>),
}

impl View for ReadItem {
    type V = Item;

    open spec fn view(&self) -> Item {
        match *self {
            ReadItem::Refused(e) => Item::Refused(e.stage, e.text@),
            ReadItem::Named(name, Ok(data)) => Item::Named(name@, Ok(data@)),
            ReadItem::Named(name, Err(text)) => Item::Named(name@, Err(text@)),
        }
    }
}

/// `zip::ZipArchive`, an archive that is read.
#[verifier::external_type_specification]
#[verifier::external_body]
#[verifier::reject_recursive_types(R)]
pub struct ExZipArchive<R>(ZipArchive<R>);

/// `std::io::Cursor`, bytes with a position among them.
#[verifier::external_type_specification]
#[verifier::external_body]
#[verifier::reject_recursive_types(T)]
pub struct ExCursor<T>(std::io::Cursor<T>);

/// `zip::result::ZipError`, what goes wrong with archives.
#[verifier::external_type_specification]
#[verifier::external_body]
pub struct ExZipError(ZipError);

/// An archive that is written: a `zip::ZipWriter` over bytes in memory.
#[verifier::external_body]
pub struct ArchiveWriter {
    inner: ZipWriter<Cursor<Vec<u8>>>,
}

/// The entries of the archive that a file is, if it is one. An entry that
/// cannot be looked up is `None`; any other is its name and, if its data can be
/// read, its data.
pub uninterp spec fn archive_entries(file: Seq<u8>) -> Option<
    Seq<Option<(Seq<char>, Option<Seq<u8>>)>>,
>;

/// The entries of an archive that is read, in the same form.
pub uninterp spec fn zip_entries(archive: ZipArchive<Cursor<Vec<u8>>>) -> Seq<
    Option<(Seq<char>, Option<Seq<u8>>)>,
>;

/// The entries of an archive that is written, each as its name and the data
/// that it has so far.
pub uninterp spec fn zip_contents(writer: ArchiveWriter) -> Seq<(Seq<char>, Seq<u8>)>;

/// Whether the last entry of an archive that is written is still open, so that
/// data can be added to it.
pub uninterp spec fn entry_begun(writer: ArchiveWriter) -> bool;

/// The file that an archive that is written comes to.
pub uninterp spec fn zip_file(writer: ArchiveWriter) -> Seq<u8>;

/// Whether a file ends with the record that ends a ZIP archive of `n` entries
/// without a comment. The record has two bytes for the number of entries, and
/// holds the greatest number that fits where there are more.
pub open spec fn ends_archive(file: Seq<u8>, n: nat) -> bool {
    let at = file.len() - 22;
    &&& 0 <= at
    &&& file[at] == 0x50
    &&& file[at + 1] == 0x4b
    &&& file[at + 2] == 0x05
    &&& file[at + 3] == 0x06
    &&& file[at + 10] + 0x100 * file[at + 11] == if n < 0xffff {
        n as int
    } else {
        0xffff
    }
    &&& file[at + 20] == 0
    &&& file[at + 21] == 0
}

/// Entries that can all be read.
pub open spec fn readable(entries: Seq<(Seq<char>, Seq<u8>)>) -> Seq<
    Option<(Seq<char>, Option<Seq<u8>>)>,
> {
    Seq::new(entries.len(), |i: int| Some((entries[i].0, Some(entries[i].1))))
}

/// Whether a file reads as an archive of these entries, where their number and
/// the size of the file are below what a ZIP archive without the extension for
/// large files can tell.
pub open spec fn reads_back(file: Seq<u8>, entries: Seq<(Seq<char>, Seq<u8>)>) -> bool {
    entries.len() < 0xffff && file.len() < 0xffff_ffff ==> archive_entries(file) == Some(
        readable(entries),
    )
}

/// The bytes of the names and the data of entries, and a hundred for each entry.
pub open spec fn room_taken(entries: Seq<(Seq<char>, Seq<u8>)>) -> nat
    decreases entries.len(),
{
    if entries.len() == 0 {
        0
    } else {
        room_taken(entries.drop_last()) + encode_utf8(entries.last().0).len()
            + entries.last().1.len() + 100
    }
}

/// Whether entries take no more than 1.75 GiB. A code in compressed data has at
/// most 15 bits, so that the data takes no more than twice what it took before,
/// and little for each of its blocks. An archive of such entries stays below the
/// 4 GiB that a ZIP archive without the extension for large files can have.
pub open spec fn below_limit(entries: Seq<(Seq<char>, Seq<u8>)>) -> bool {
    room_taken(entries) <= 0x7000_0000
}

/// Whether one of the entries has the name.
pub open spec fn has_name(entries: Seq<(Seq<char>, Seq<u8>)>, name: Seq<char>) -> bool {
    exists|k: int| 0 <= k < entries.len() && (#[trigger] entries[k]).0 == name
}

/// The entries with more data at the end of the last of them.
pub open spec fn with_more_data(entries: Seq<(Seq<char>, Seq<u8>)>, data: Seq<u8>) -> Seq<
    (Seq<char>, Seq<u8>),
> {
    entries.drop_last().push((entries.last().0, entries.last().1 + data))
}

/// Reads an archive. Calls `zip::ZipArchive::new`, which finds the directory at
/// the end of the file and reads the names of the entries from it. Whether it
/// does, and the entries, depend on the bytes of the file alone.
#[verifier::external_body]
fn open_archive(file: &[u8]) -> (r: Result<ZipArchive<Cursor<Vec<u8>>>, ZipError>)
    ensures
        match r {
            Ok(a) => archive_entries(file@) == Some(zip_entries(a)),
            Err(_) => archive_entries(file@) is None,
        },
{
    ZipArchive::new(Cursor::new(file.to_vec()))
}

/// The number of entries. Calls `zip::ZipArchive::len`.
#[verifier::external_body]
fn entry_count(archive: &ZipArchive<Cursor<Vec<u8>>>) -> (r: usize)
    ensures
        r == zip_entries(*archive).len(),
{
    archive.len()
}

/// The name of entry `i`. Calls `zip::ZipArchive::by_index`, which fails on
/// entries that cannot be looked up, such as encrypted ones, and takes the name
/// of the entry that it gives. The archive keeps its entries.
#[verifier::external_body]
fn entry_name(archive: &mut ZipArchive<Cursor<Vec<u8>>>, i: usize) -> (r: Result<String, ZipError>)
    requires
        i < zip_entries(*old(archive)).len(),
    ensures
        zip_entries(*final(archive)) == zip_entries(*old(archive)),
        match r {
            Ok(name) => zip_entries(*old(archive))[i as int] is Some && name@ == zip_entries(
                *old(archive),
            )[i as int]->Some_0.0,
            Err(_) => zip_entries(*old(archive))[i as int] is None,
        },
{
    Ok(archive.by_index(i)?.name().to_string())
}

/// The data of entry `i`. Calls `read_to_end` of `std::io::Read` on the entry
/// that `zip::ZipArchive::by_index` gives, which uncompresses the data, and
/// fails where it is damaged. The archive keeps its entries.
#[verifier::external_body]
fn entry_data(archive: &mut ZipArchive<Cursor<Vec<u8>>>, i: usize) -> (r: std::io::Result<Vec<u8>>)
    requires
        i < zip_entries(*old(archive)).len(),
        zip_entries(*old(archive))[i as int] is Some,
    ensures
        zip_entries(*final(archive)) == zip_entries(*old(archive)),
        match r {
            Ok(data) => zip_entries(*old(archive))[i as int]->Some_0.1 == Some(data@),
            Err(_) => zip_entries(*old(archive))[i as int]->Some_0.1 is None,
        },
{
    let mut data = Vec::new();
    archive.by_index(i)?.read_to_end(&mut data)?;
    Ok(data)
}

/// An archive without entries. Calls `zip::ZipWriter::new`.
#[verifier::external_body]
fn new_archive() -> (r: ArchiveWriter)
    ensures
        zip_contents(r).len() == 0,
{
    ArchiveWriter { inner: ZipWriter::new(Cursor::new(Vec::new())) }
}

/// Adds an entry without data, to be compressed with the method `Deflated`.
/// Calls `zip::ZipWriter::start_file`, which keeps the entries before it. It
/// succeeds with a new name as long as sizes stay below the limit of archives
/// without the extension for large files, and panics on a name that is longer
/// than two bytes can tell. Above 1.75 GiB, when it fails is left unsaid.
#[verifier::external_body]
fn start_entry(writer: &mut ArchiveWriter, name: &str) -> (r: Result<(), ZipError>)
    requires
        encode_utf8(name@).len() <= 0xffff,
    ensures
        r is Ok ==> zip_contents(*final(writer)) == zip_contents(*old(writer)).push(
            (name@, Seq::empty()),
        ) && entry_begun(*final(writer)),
        !has_name(zip_contents(*old(writer)), name@) && below_limit(
            zip_contents(*old(writer)).push((name@, Seq::empty())),
        ) ==> r is Ok,
{
    let options = SimpleFileOptions::default().compression_method(CompressionMethod::Deflated);
    writer.inner.start_file(name, options)
}

/// Adds data to the last entry, which is still open. Calls `write_all` of
/// `std::io::Write` on the `zip::ZipWriter`, which succeeds as long as four bytes
/// can tell how much data the entry has, and keeps the entry open.
#[verifier::external_body]
fn write_entry(writer: &mut ArchiveWriter, data: &[u8]) -> (r: std::io::Result<()>)
    requires
        entry_begun(*old(writer)),
        zip_contents(*old(writer)).len() > 0,
    ensures
        r is Ok ==> zip_contents(*final(writer)) == with_more_data(
            zip_contents(*old(writer)),
            data@,
        ) && entry_begun(*final(writer)),
        r is Ok == (with_more_data(zip_contents(*old(writer)), data@).last().1.len()
            <= 0xffff_ffff),
{
    writer.inner.write_all(data)
}

/// The file that the archive comes to. Calls `zip::ZipWriter::finish`, which
/// writes the directory of the entries and, as the last bytes of the file, the
/// record that tells their number. `zip::ZipArchive` finds that record first,
/// takes from it where the directory starts, and so reads the entries that were
/// written. Above the limits of archives without the extension for large files
/// that is left unsaid, and so is how the entries are compressed and, above
/// 1.75 GiB, when this fails.
#[verifier::external_body]
fn finish_archive(writer: ArchiveWriter) -> (r: Result<Vec<u8>, ZipError>)
    ensures
        r matches Ok(file) ==> file@ == zip_file(writer) && ends_archive(
            file@,
            zip_contents(writer).len(),
        ) && reads_back(file@, zip_contents(writer)),
        below_limit(zip_contents(writer)) ==> r is Ok,
{
    Ok(writer.inner.finish()?.into_inner())
}

/// What merging comes to: of the entries of each name the first one, with its
/// data, or the first error that there is. An entry whose name came before is
/// passed over, and then it does not matter whether its data can be read.
pub open spec fn merge(items: Seq<Item>) -> Result<
    Seq<(Seq<char>, Seq<u8>)>,
    (ArchiveStage, Seq<char>),
>
    decreases items.len(),
{
    if items.len() == 0 {
        Ok(Seq::empty())
    } else {
        match merge(items.drop_last()) {
            Err(e) => Err(e),
            Ok(kept) => match items.last() {
                Item::Refused(stage, text) => Err((stage, text)),
                Item::Named(name, data) => if has_name(kept, name) {
                    Ok(kept)
                } else {
                    match data {
                        Ok(d) => Ok(kept.push((name, d))),
                        Err(text) => Err((ArchiveStage::Data, text)),
                    }
                },
            },
        }
    }
}

/// What merging comes to where it does not matter why something cannot be read.
pub open spec fn merge_read(read: Seq<Option<(Seq<char>, Option<Seq<u8>>)>>) -> Option<
    Seq<(Seq<char>, Seq<u8>)>,
>
    decreases read.len(),
{
    if read.len() == 0 {
        Some(Seq::empty())
    } else {
        match (merge_read(read.drop_last()), read.last()) {
            (Some(kept), Some((name, data))) => if has_name(kept, name) {
                Some(kept)
            } else {
                match data {
                    Some(d) => Some(kept.push((name, d))),
                    None => None,
                }
            },
            _ => None,
        }
    }
}

/// All that the archives hold, one archive after the other. A file that is no
/// archive is one entry that cannot be looked up.
pub open spec fn all_read(archives: Seq<Vec<u8>>) -> Seq<Option<(Seq<char>, Option<Seq<u8>>)>>
    decreases archives.len(),
{
    if archives.len() == 0 {
        Seq::empty()
    } else {
        all_read(archives.drop_last()) + (match archive_entries(archives.last()@) {
            Some(entries) => entries,
            None => seq![None],
        })
    }
}

/// The entries of the archives, merged, if all that is needed can be read.
pub open spec fn merged(archives: Seq<Vec<u8>>) -> Option<Seq<(Seq<char>, Seq<u8>)>> {
    merge_read(all_read(archives))
}

/// Whether an archive can hold the names of all entries, in UTF-8.
pub open spec fn names_fit(entries: Seq<(Seq<char>, Seq<u8>)>) -> bool {
    forall|k: int| 0 <= k < entries.len() ==> encode_utf8((#[trigger] entries[k]).0).len() <= 0xffff
}

/// Whether what was read at index `i` is an entry with a name that none before
/// it has.
pub open spec fn is_first(read: Seq<Option<(Seq<char>, Option<Seq<u8>>)>>, i: int) -> bool {
    &&& read[i] is Some
    &&& forall|j: int|
        0 <= j < i && (#[trigger] read[j]) is Some ==> read[j]->Some_0.0 != read[i]->Some_0.0
}

/// What is read of archives is what is read of the first of them and then what
/// is read of the others, however they are parted, and what is read of one is
/// what it holds.
pub proof fn law_archives_read_in_order(first: Seq<Vec<u8>>, others: Seq<Vec<u8>>)
    ensures
        all_read(first + others) == all_read(first) + all_read(others),
        first.len() == 0 ==> all_read(first).len() == 0,
        first.len() == 1 ==> all_read(first) == match archive_entries(first[0]@) {
            Some(entries) => entries,
            None => seq![None],
        },
    decreases others.len(),
{
    if first.len() == 1 {
        assert(all_read(first.drop_last()) =~= Seq::empty());
        assert(all_read(first) =~= match archive_entries(first[0]@) {
            Some(entries) => entries,
            None => seq![None],
        });
    }
    if others.len() == 0 {
        assert(first + others =~= first);
        assert(all_read(first + others) =~= all_read(first) + all_read(others));
    } else {
        law_archives_read_in_order(first, others.drop_last());
        assert((first + others).drop_last() =~= first + others.drop_last());
        assert(all_read(first + others) =~= all_read(first) + all_read(others));
    }
}

/// Everything that every archive holds is read: each entry of each archive
/// stands in the list of what is read, and a file that is no archive stands there
/// as something that cannot be looked up.
pub proof fn law_every_archive_read(archives: Seq<Vec<u8>>, i: int, j: int) -> (at: int)
    requires
        0 <= i < archives.len(),
        archive_entries(archives[i]@) matches Some(entries) ==> 0 <= j < entries.len(),
    ensures
        0 <= at < all_read(archives).len(),
        match archive_entries(archives[i]@) {
            Some(entries) => all_read(archives)[at] == entries[j],
            None => all_read(archives)[at] is None,
        },
{
    let before = archives.take(i);
    let one = seq![archives[i]];
    let behind = archives.skip(i + 1);
    law_archives_read_in_order(before, one);
    law_archives_read_in_order(one, Seq::empty());
    law_archives_read_in_order(before + one, behind);
    assert(archives =~= before + one + behind);
    let n = all_read(before).len() as int;
    match archive_entries(archives[i]@) {
        Some(entries) => n + j,
        None => n,
    }
}

/// The name of every entry of every archive is in the merged archive, and a file
/// that is no archive, or an entry that cannot be looked up, lets nothing be
/// merged.
pub proof fn law_every_name_merged(archives: Seq<Vec<u8>>, i: int, j: int)
    requires
        0 <= i < archives.len(),
        archive_entries(archives[i]@) matches Some(entries) ==> 0 <= j < entries.len(),
    ensures
        match archive_entries(archives[i]@) {
            None => merged(archives) is None,
            Some(entries) => match entries[j] {
                None => merged(archives) is None,
                Some((name, _)) => merged(archives) matches Some(kept) ==> exists|k: int|
                    0 <= k < kept.len() && (#[trigger] kept[k]).0 == name,
            },
        },
{
    let at = law_every_archive_read(archives, i, j);
    let read = all_read(archives);
    law_when_merged(read);
    assert(read[at] is Some || merged(archives) is None);
    if merged(archives) is Some {
        let indices = law_first_of_each_name(read);
        assert(has_name(merged(archives)->Some_0, read[at]->Some_0.0));
    }
}

/// Of the entries of each name the first one is kept, in the order of the
/// entries: there are ascending indices at which the kept entries stand, and no
/// entry before such an index has the same name. Each name is kept once.
pub proof fn law_first_of_each_name(read: Seq<Option<(Seq<char>, Option<Seq<u8>>)>>) -> (at: Seq<
    int,
>)
    requires
        merge_read(read) is Some,
    ensures
        ({
            let kept = merge_read(read)->Some_0;
            &&& at.len() == kept.len()
            &&& forall|k: int|
                0 <= k < at.len() ==> {
                    &&& 0 <= #[trigger] at[k] < read.len()
                    &&& read[at[k]] == Some((kept[k].0, Some(kept[k].1)))
                    &&& is_first(read, at[k])
                }
            &&& forall|j: int, k: int| 0 <= j < k < at.len() ==> #[trigger] at[j] < #[trigger] at[k]
            &&& forall|i: int|
                0 <= i < read.len() ==> (#[trigger] read[i]) is Some && has_name(
                    kept,
                    read[i]->Some_0.0,
                )
            &&& forall|j: int, k: int|
                0 <= j < k < kept.len() ==> (#[trigger] kept[j]).0 != (#[trigger] kept[k]).0
        }),
    decreases read.len(),
{
    if read.len() == 0 {
        Seq::empty()
    } else {
        let init = read.drop_last();
        let last = read.last();
        let before = merge_read(init)->Some_0;
        let kept = merge_read(read)->Some_0;
        let found = law_first_of_each_name(init);
        let n = init.len() as int;
        let name = last->Some_0.0;
        assert(read[n] == last);
        assert forall|i: int| 0 <= i < n implies (#[trigger] read[i]) is Some && has_name(
            kept,
            read[i]->Some_0.0,
        ) by {
            assert(read[i] == init[i]);
            let k = choose|k: int|
                0 <= k < before.len() && (#[trigger] before[k]).0 == init[i]->Some_0.0;
            assert(kept[k] == before[k]);
        }
        assert forall|k: int| 0 <= k < found.len() implies is_first(read, #[trigger] found[k]) by {
            assert(is_first(init, found[k]));
            assert(read[found[k]] == init[found[k]]);
            assert forall|j: int| 0 <= j < found[k] && (#[trigger] read[j]) is Some implies
                read[j]->Some_0.0 != read[found[k]]->Some_0.0 by {
                assert(read[j] == init[j]);
            }
        }
        if has_name(before, name) {
            assert forall|k: int| 0 <= k < found.len() implies read[#[trigger] found[k]] == Some(
                (kept[k].0, Some(kept[k].1)),
            ) by {
                assert(init[found[k]] == read[found[k]]);
            }
            found
        } else {
            let at = found.push(n);
            assert(kept[before.len() as int].0 == name);
            assert(is_first(read, n)) by {
                assert forall|j: int| 0 <= j < n && (#[trigger] read[j]) is Some implies
                    read[j]->Some_0.0 != name by {
                    assert(read[j] == init[j]);
                    if read[j]->Some_0.0 == name {
                        assert(has_name(before, init[j]->Some_0.0));
                    }
                }
            }
            assert forall|k: int| 0 <= k < at.len() implies {
                &&& 0 <= #[trigger] at[k] < read.len()
                &&& read[at[k]] == Some((kept[k].0, Some(kept[k].1)))
                &&& is_first(read, at[k])
            } by {
                if k < found.len() {
                    assert(at[k] == found[k]);
                    assert(init[found[k]] == read[found[k]]);
                    assert(kept[k] == before[k]);
                }
            }
            assert forall|j: int, k: int| 0 <= j < k < kept.len() implies (#[trigger] kept[j]).0 != (
            #[trigger] kept[k]).0 by {
                assert(kept[j] == before[j]);
                if k < before.len() {
                    assert(kept[k] == before[k]);
                }
            }
            at
        }
    }
}

/// Archives are merged exactly if everything can be looked up, and the data of
/// the first entry of each name can be read.
#[verifier::rlimit(40)]
pub proof fn law_when_merged(read: Seq<Option<(Seq<char>, Option<Seq<u8>>)>>)
    ensures
        merge_read(read) is Some <==> forall|i: int|
            0 <= i < read.len() ==> (#[trigger] read[i]) is Some && (is_first(read, i)
                ==> read[i]->Some_0.1 is Some),
    decreases read.len(),
{
    if read.len() > 0 {
        let init = read.drop_last();
        let n = init.len() as int;
        law_when_merged(init);
        assert(read[n] == read.last());
        assert forall|i: int| 0 <= i < n && (#[trigger] read[i]) is Some implies is_first(read, i)
            == is_first(init, i) by {
            assert(read[i] == init[i]);
            assert(forall|j: int| 0 <= j < i ==> #[trigger] read[j] == init[j]);
        }
        if merge_read(init) is Some {
            let kept = merge_read(init)->Some_0;
            let at = law_first_of_each_name(init);
            if read.last() is Some {
                let name = read.last()->Some_0.0;
                if has_name(kept, name) {
                    let k = choose|k: int| 0 <= k < kept.len() && (#[trigger] kept[k]).0 == name;
                    assert(read[at[k]] == init[at[k]]);
                    assert(!is_first(read, n));
                } else {
                    assert(is_first(read, n)) by {
                        assert forall|j: int| 0 <= j < n && (#[trigger] read[j]) is Some implies
                            read[j]->Some_0.0 != name by {
                            assert(read[j] == init[j]);
                            if read[j]->Some_0.0 == name {
                                assert(has_name(kept, init[j]->Some_0.0));
                            }
                        }
                    }
                }
            }
            assert forall|i: int| 0 <= i < n implies (#[trigger] read[i]) is Some && (is_first(
                read,
                i,
            ) ==> read[i]->Some_0.1 is Some) by {
                assert(read[i] == init[i]);
            }
        } else {
            let i = choose|i: int|
                0 <= i < n && !((#[trigger] init[i]) is Some && (is_first(init, i)
                    ==> init[i]->Some_0.1 is Some));
            assert(read[i] == init[i]);
        }
    }
}

/// The error that ends a merge is the first one: before it stands nothing that
/// cannot be read and is needed.
pub proof fn law_first_error(items: Seq<Item>) -> (at: int)
    requires
        merge(items) is Err,
    ensures
        0 <= at < items.len(),
        merge(items.take(at)) is Ok,
        match items[at] {
            Item::Refused(stage, text) => merge(items)->Err_0 == (stage, text),
            Item::Named(name, data) => {
                &&& data is Err
                &&& merge(items)->Err_0 == (ArchiveStage::Data, data->Err_0)
                &&& forall|k: int|
                    0 <= k < at && (#[trigger] items[k]) is Named ==> items[k]->Named_0 != name
            },
        },
        forall|k: int| 0 <= k < at ==> (#[trigger] items[k]) is Named,
    decreases items.len(),
{
    let init = items.drop_last();
    let n = init.len() as int;
    assert(items.take(n) =~= init);
    if merge(init) is Err {
        let at = law_first_error(init);
        assert(init.take(at) =~= items.take(at));
        assert(init[at] == items[at]);
        assert forall|k: int| 0 <= k < at implies (#[trigger] items[k]) is Named by {
            assert(init[k] == items[k]);
        }
        assert forall|k: int|
            0 <= k < at && (#[trigger] items[k]) is Named && items[at] is Named implies
            items[k]->Named_0 != items[at]->Named_0 by {
            assert(init[k] == items[k]);
        }
        at
    } else {
        lemma_names_of_items(init);
        assert forall|k: int| 0 <= k < n implies (#[trigger] items[k]) is Named by {
            assert(init[k] == items[k]);
        }
        let kept = merge(init)->Ok_0;
        assert forall|k: int|
            0 <= k < n && (#[trigger] items[k]) is Named && items[n] is Named implies
            items[k]->Named_0 != items[n]->Named_0 by {
            assert(init[k] == items[k]);
            assert(has_name(kept, init[k]->Named_0));
        }
        n
    }
}

/// Where there is no error, every item is an entry, and its name is kept.
proof fn lemma_names_of_items(items: Seq<Item>)
    requires
        merge(items) is Ok,
    ensures
        forall|k: int|
            0 <= k < items.len() ==> (#[trigger] items[k]) is Named && has_name(
                merge(items)->Ok_0,
                items[k]->Named_0,
            ),
    decreases items.len(),
{
    if items.len() > 0 {
        let init = items.drop_last();
        let n = init.len() as int;
        let before = merge(init)->Ok_0;
        let kept = merge(items)->Ok_0;
        lemma_names_of_items(init);
        assert forall|k: int| 0 <= k < items.len() implies (#[trigger] items[k]) is Named
            && has_name(kept, items[k]->Named_0) by {
            if k < n {
                assert(items[k] == init[k]);
                let j = choose|j: int|
                    0 <= j < before.len() && (#[trigger] before[j]).0 == init[k]->Named_0;
                assert(kept[j] == before[j]);
            } else if !has_name(before, items[n]->Named_0) {
                assert(kept[before.len() as int].0 == items[n]->Named_0);
            }
        }
    }
}

/// What is kept does not depend on why something cannot be read, and what cannot
/// be read is what an item says cannot be read.
pub proof fn law_items_as_read(items: Seq<ReadItem>, read: Seq<Option<(Seq<char>, Option<Seq<u8>>)>>)
    requires
        items.len() == read.len(),
        forall|i: int|
            0 <= i < items.len() ==> match #[trigger] items[i] {
                ReadItem::Refused(_) => read[i] is None,
                ReadItem::Named(name, Ok(data)) => read[i] == Some((name@, Some(data@))),
                ReadItem::Named(name, Err(_)) => read[i] == Some((name@, None::<Seq<u8>>)),
            },
    ensures
        match merge(items_of(items)) {
            Ok(kept) => merge_read(read) == Some(kept),
            Err(_) => merge_read(read) is None,
        },
{
    assert forall|i: int| 0 <= i < items.len() implies read_of(#[trigger] items_of(items)[i])
        == read[i] by {
        assert(items_of(items)[i] == items[i]@);
        let item = items[i];
    }
    lemma_merge_read(items_of(items), read);
}

/// The entries that are given are told by their names and their data, one by one.
pub proof fn law_entries_of(entries: Seq<(String, Vec<u8>)>)
    ensures
        entries_of(entries).len() == entries.len(),
        forall|i: int|
            0 <= i < entries.len() ==> (#[trigger] entries_of(entries)[i]).0 == entries[i].0@
                && entries_of(entries)[i].1 == entries[i].1@,
{
}

/// The room that entries take is that of the first of them and that of the
/// others, and for one entry the bytes of its name and its data and a hundred.
/// Success is owed up to 1.75 GiB.
pub proof fn law_room_taken(first: Seq<(Seq<char>, Seq<u8>)>, others: Seq<(Seq<char>, Seq<u8>)>)
    ensures
        room_taken(first + others) == room_taken(first) + room_taken(others),
        first.len() == 0 ==> room_taken(first) == 0,
        first.len() == 1 ==> room_taken(first) == encode_utf8(first[0].0).len() + first[0].1.len()
            + 100,
        below_limit(first) <==> room_taken(first) <= 0x7000_0000,
    decreases others.len(),
{
    if first.len() == 1 {
        assert(room_taken(first.drop_last()) == 0);
    }
    if others.len() == 0 {
        assert(first + others =~= first);
    } else {
        law_room_taken(first, others.drop_last());
        assert((first + others).drop_last() =~= first + others.drop_last());
    }
}

/// Entries that can all be read and whose names all differ are all kept.
pub proof fn law_different_names_kept(entries: Seq<(Seq<char>, Seq<u8>)>)
    requires
        forall|j: int, k: int|
            0 <= j < k < entries.len() ==> (#[trigger] entries[j]).0 != (#[trigger] entries[k]).0,
    ensures
        merge_read(readable(entries)) == Some(entries),
    decreases entries.len(),
{
    if entries.len() > 0 {
        let init = entries.drop_last();
        assert forall|j: int, k: int| 0 <= j < k < init.len() implies (#[trigger] init[j]).0 != (
        #[trigger] init[k]).0 by {
            assert(init[j] == entries[j] && init[k] == entries[k]);
        }
        law_different_names_kept(init);
        assert(readable(entries).drop_last() =~= readable(init));
        if has_name(init, entries.last().0) {
            let k = choose|k: int|
                0 <= k < init.len() && (#[trigger] init[k]).0 == entries.last().0;
            assert(init[k] == entries[k]);
            assert(entries[entries.len() - 1] == entries.last());
        }
        assert(init.push(entries.last()) =~= entries);
    } else {
        assert(entries =~= Seq::empty());
    }
}

/// What an item tells where it does not matter why something cannot be read.
pub open spec fn read_of(item: Item) -> Option<(Seq<char>, Option<Seq<u8>>)> {
    match item {
        Item::Refused(_, _) => None,
        Item::Named(name, Ok(data)) => Some((name, Some(data))),
        Item::Named(name, Err(_)) => Some((name, None)),
    }
}

/// What the items hold.
pub open spec fn items_of(items: Seq<ReadItem>) -> Seq<Item> {
    Seq::new(items.len(), |i: int| items[i]@)
}

/// What the entries hold.
pub open spec fn entries_of(entries: Seq<(String, Vec<u8>)>) -> Seq<(Seq<char>, Seq<u8>)> {
    Seq::new(entries.len(), |i: int| (entries[i].0@, entries[i].1@))
}

/// Whether items were read as these entries.
pub open spec fn read_as(
    items: Seq<ReadItem>,
    read: Seq<Option<(Seq<char>, Option<Seq<u8>>)>>,
) -> bool {
    &&& items.len() == read.len()
    &&& forall|i: int| 0 <= i < items.len() ==> read_of((#[trigger] items[i])@) == read[i]
}

/// Why something cannot be read does not matter for what is kept.
proof fn lemma_merge_read(items: Seq<Item>, read: Seq<Option<(Seq<char>, Option<Seq<u8>>)>>)
    requires
        items.len() == read.len(),
        forall|i: int| 0 <= i < items.len() ==> read_of(#[trigger] items[i]) == read[i],
    ensures
        match merge(items) {
            Ok(kept) => merge_read(read) == Some(kept),
            Err(_) => merge_read(read) is None,
        },
    decreases items.len(),
{
    if items.len() > 0 {
        let n = items.len() - 1;
        lemma_merge_read(items.drop_last(), read.drop_last());
        assert(read_of(items[n]) == read[n]);
    }
}

/// Once there is an error, what follows does not matter.
proof fn lemma_error_stays(items: Seq<Item>, n: int)
    requires
        0 <= n <= items.len(),
        merge(items.take(n)) is Err,
    ensures
        merge(items) == merge(items.take(n)),
    decreases items.len(),
{
    if n < items.len() {
        assert(items.drop_last().take(n) =~= items.take(n));
        lemma_error_stays(items.drop_last(), n);
    } else {
        assert(items.take(n) =~= items);
    }
}

/// Whether one of the entries has the name.
fn is_kept(kept: &Vec<(String, Vec<u8>)>, name: &String) -> (r: bool)
    ensures
        r == has_name(entries_of(kept@), name@),
{
    let ghost entries = entries_of(kept@);
    let mut i: usize = 0;
    while i < kept.len()
        invariant
            i <= kept@.len(),
            entries == entries_of(kept@),
            forall|k: int| 0 <= k < i ==> (#[trigger] entries[k]).0 != name@,
        decreases kept@.len() - i,
    {
        if kept[i].0 == *name {
            assert(entries[i as int].0 == name@);
            return true;
        }
        i = i + 1;
    }
    false
}

/// Merges what was read of archives: of the entries of each name the first one
/// is kept, with its data. The first error ends it.
pub fn merge_items(items: Vec<ReadItem>) -> (r: Result<Vec<(String, Vec<u8>)>, ArchiveError>)
    ensures
        match r {
            Ok(v) => merge(items_of(items@)) == Ok::<
                Seq<(Seq<char>, Seq<u8>)>,
                (ArchiveStage, Seq<char>),
            >(entries_of(v@)),
            Err(e) => merge(items_of(items@)) == Err::<
                Seq<(Seq<char>, Seq<u8>)>,
                (ArchiveStage, Seq<char>),
            >((e.stage, e.text@)),
        },
{
    let ghost given = items@;
    let ghost all = items_of(items@);
    let mut kept: Vec<(String, Vec<u8>)> = Vec::new();
    assert(entries_of(kept@) =~= Seq::empty());
    assert(all.take(0) =~= Seq::empty());
    for item in it: items
        invariant
            it.seq() == given,
            all == items_of(given),
            merge(all.take(it.index() as int)) == Ok::<
                Seq<(Seq<char>, Seq<u8>)>,
                (ArchiveStage, Seq<char>),
            >(entries_of(kept@)),
    {
        let ghost n = it.index() as int;
        let ghost before = kept@;
        proof {
            assert(item@ == all[n]);
            assert(all.take(n + 1).drop_last() =~= all.take(n));
            assert(all.take(n + 1).last() == all[n]);
        }
        match item {
            ReadItem::Refused(e) => {
                proof {
                    lemma_error_stays(all, n + 1);
                }
                return Err(e);
            },
            ReadItem::Named(name, data) => {
                if !is_kept(&kept, &name) {
                    match data {
                        Ok(d) => {
                            kept.push((name, d));
                            assert(entries_of(kept@) =~= entries_of(before).push((name@, d@)));
                        },
                        Err(text) => {
                            proof {
                                lemma_error_stays(all, n + 1);
                            }
                            return Err(ArchiveError { stage: ArchiveStage::Data, text });
                        },
                    }
                }
            },
        }
    }
    assert(all.take(all.len() as int) =~= all);
    Ok(kept)
}

/// Reads entry `i` of an archive.
fn read_entry(archive: &mut ZipArchive<Cursor<Vec<u8>>>, i: usize) -> (r: ReadItem)
    requires
        i < zip_entries(*old(archive)).len(),
    ensures
        zip_entries(*final(archive)) == zip_entries(*old(archive)),
        read_of(r@) == zip_entries(*old(archive))[i as int],
{
    match entry_name(archive, i) {
        Err(e) => ReadItem::Refused(
            ArchiveError { stage: ArchiveStage::Entry, text: e.to_string() },
        ),
        Ok(name) => match entry_data(archive, i) {
            Ok(data) => ReadItem::Named(name, Ok(data)),
            Err(e) => ReadItem::Named(name, Err(e.to_string())),
        },
    }
}

/// Reads an archive, and adds what it holds to what was read before.
fn read_archive(
    file: &[u8],
    items: &mut Vec<ReadItem>,
    Ghost(before): Ghost<Seq<Option<(Seq<char>, Option<Seq<u8>>)>>>,
)
    requires
        read_as(old(items)@, before),
    ensures
        read_as(
            final(items)@,
            before + (match archive_entries(file@) {
                Some(entries) => entries,
                None => seq![None],
            }),
        ),
{
    let mut archive = match open_archive(file) {
        Ok(a) => a,
        Err(e) => {
            items.push(
                ReadItem::Refused(
                    ArchiveError { stage: ArchiveStage::Archive, text: e.to_string() },
                ),
            );
            return ;
        },
    };
    let ghost entries = zip_entries(archive);
    let count: usize = entry_count(&archive);
    let mut i: usize = 0;
    assert(before + entries.take(0) =~= before);
    while i < count
        invariant
            i <= count == entries.len(),
            zip_entries(archive) == entries,
            read_as(items@, before + entries.take(i as int)),
        decreases count - i,
    {
        items.push(read_entry(&mut archive, i));
        assert(before + entries.take(i + 1) =~= (before + entries.take(i as int)).push(
            entries[i as int],
        ));
        i = i + 1;
    }
    assert(entries.take(count as int) =~= entries);
}

/// Reads archives, one after the other.
fn read_archives(archives: &Vec<Vec<u8>>) -> (r: Vec<ReadItem>)
    ensures
        read_as(r@, all_read(archives@)),
{
    let mut items: Vec<ReadItem> = Vec::new();
    let mut i: usize = 0;
    while i < archives.len()
        invariant
            i <= archives@.len(),
            read_as(items@, all_read(archives@.take(i as int))),
        decreases archives@.len() - i,
    {
        let ghost before = all_read(archives@.take(i as int));
        assert(archives@.take(i + 1).drop_last() =~= archives@.take(i as int));
        read_archive(archives[i].as_slice(), &mut items, Ghost(before));
        i = i + 1;
    }
    assert(archives@.take(i as int) =~= archives@);
    items
}

/// Some of the entries take no more room than all of them.
proof fn lemma_room_of_some(entries: Seq<(Seq<char>, Seq<u8>)>, n: int)
    requires
        0 <= n <= entries.len(),
    ensures
        room_taken(entries.take(n)) <= room_taken(entries),
    decreases entries.len(),
{
    if n < entries.len() {
        lemma_room_of_some(entries.drop_last(), n);
        assert(entries.drop_last().take(n) =~= entries.take(n));
    } else {
        assert(entries.take(n) =~= entries);
    }
}

/// The room that entries take when the first `n` of them are written and the
/// next one is begun.
proof fn lemma_room_while_written(entries: Seq<(Seq<char>, Seq<u8>)>, n: int)
    requires
        0 <= n < entries.len(),
        forall|j: int, k: int|
            0 <= j < k < entries.len() ==> (#[trigger] entries[j]).0 != (#[trigger] entries[k]).0,
    ensures
        !has_name(entries.take(n), entries[n].0),
        room_taken(entries.take(n).push((entries[n].0, Seq::empty()))) <= room_taken(entries),
        with_more_data(entries.take(n).push((entries[n].0, Seq::empty())), entries[n].1)
            == entries.take(n + 1),
        room_taken(entries.take(n + 1)) <= room_taken(entries),
        entries[n].1.len() <= room_taken(entries.take(n + 1)),
{
    let done = entries.take(n);
    let begun = done.push((entries[n].0, Seq::<u8>::empty()));
    lemma_room_of_some(entries, n + 1);
    assert(entries.take(n + 1).drop_last() =~= done);
    assert(begun.drop_last() =~= done);
    assert(Seq::<u8>::empty() + entries[n].1 =~= entries[n].1);
    assert(with_more_data(begun, entries[n].1) =~= entries.take(n + 1));
    if has_name(done, entries[n].0) {
        let k = choose|k: int| 0 <= k < done.len() && (#[trigger] done[k]).0 == entries[n].0;
        assert(done[k] == entries[k]);
    }
}

/// The file of an archive of these entries. There is no result if a name is too
/// long.
fn write_archive(entries: &Vec<(String, Vec<u8>)>) -> (r: Option<Result<Vec<u8>, ArchiveError>>)
    requires
        forall|j: int, k: int|
            0 <= j < k < entries@.len() ==> (#[trigger] entries_of(entries@)[j]).0 != (
            #[trigger] entries_of(entries@)[k]).0,
    ensures
        match r {
            None => !names_fit(entries_of(entries@)),
            Some(Err(_)) => !below_limit(entries_of(entries@)),
            Some(Ok(file)) => {
                &&& names_fit(entries_of(entries@))
                &&& archive_appended(Seq::empty(), entries_of(entries@), file@)
                &&& ends_archive(file@, entries@.len())
                &&& reads_back(file@, entries_of(entries@))
            },
        },
{
    let ghost all = entries_of(entries@);
    let mut writer = new_archive();
    let mut i: usize = 0;
    assert(zip_contents(writer) =~= all.take(0));
    while i < entries.len()
        invariant
            i <= entries@.len(),
            all == entries_of(entries@),
            forall|j: int, k: int|
                0 <= j < k < all.len() ==> (#[trigger] all[j]).0 != (#[trigger] all[k]).0,
            zip_contents(writer) == all.take(i as int),
            forall|k: int| 0 <= k < i ==> encode_utf8((#[trigger] all[k]).0).len() <= 0xffff,
        decreases entries@.len() - i,
    {
        proof {
            lemma_room_while_written(all, i as int);
        }
        let name: &str = entries[i].0.as_str();
        assert(name@ == all[i as int].0);
        if name.as_bytes().len() > 0xffff {
            return None;
        }
        match start_entry(&mut writer, name) {
            Ok(_) => {},
            Err(e) => {
                return Some(
                    Err(ArchiveError { stage: ArchiveStage::Start, text: e.to_string() }),
                );
            },
        }
        match write_entry(&mut writer, entries[i].1.as_slice()) {
            Ok(_) => {},
            Err(e) => {
                return Some(
                    Err(ArchiveError { stage: ArchiveStage::Write, text: e.to_string() }),
                );
            },
        }
        i = i + 1;
    }
    assert(all.take(i as int) =~= all);
    let ghost written = writer;
    match finish_archive(writer) {
        Ok(file) => {
            assert(file@ =~= Seq::empty() + zip_file(written));
            Some(Ok(file))
        },
        Err(e) => Some(Err(ArchiveError { stage: ArchiveStage::Finish, text: e.to_string() })),
    }
}

/// Whether `after` is `before` with the file behind it that an archive of
/// these entries comes to.
pub open spec fn archive_appended(
    before: Seq<u8>,
    entries: Seq<(Seq<char>, Seq<u8>)>,
    after: Seq<u8>,
) -> bool {
    exists|w: ArchiveWriter| zip_contents(w) == entries && after == before + #[trigger] zip_file(w)
}

/// What is appended is an archive of just these entries, behind all that stood
/// there before, and it reads back as these entries.
pub proof fn law_archive_appended(
    before: Seq<u8>,
    entries: Seq<(Seq<char>, Seq<u8>)>,
    after: Seq<u8>,
)
    ensures
        archive_appended(before, entries, after) ==> before.len() <= after.len() && after.take(
            before.len() as int,
        ) == before && exists|w: ArchiveWriter|
            zip_contents(w) == entries && after.skip(before.len() as int) == #[trigger] zip_file(w),
        reads_back(after, entries) && entries.len() < 0xffff && after.len() < 0xffff_ffff ==> {
            &&& archive_entries(after) matches Some(read)
            &&& read.len() == entries.len()
            &&& forall|i: int|
                0 <= i < entries.len() ==> #[trigger] read[i] == Some(
                    (entries[i].0, Some(entries[i].1)),
                )
        },
{
    if archive_appended(before, entries, after) {
        let w = choose|w: ArchiveWriter|
            zip_contents(w) == entries && after == before + #[trigger] zip_file(w);
        assert(after.take(before.len() as int) =~= before);
        assert(after.skip(before.len() as int) =~= zip_file(w));
    }
}

/// An item holds what was read: a name, its data or why it cannot be read, or why
/// there is none.
pub proof fn law_item(item: ReadItem)
    ensures
        match item {
            ReadItem::Refused(e) => item@ == Item::Refused(e.stage, e.text@),
            ReadItem::Named(name, Ok(data)) => item@ == Item::Named(name@, Ok(data@)),
            ReadItem::Named(name, Err(text)) => item@ == Item::Named(name@, Err(text@)),
        },
{
}

/// Merges archives into one, with the first entry of each name, and appends it
/// to `output`. That fails if an archive, an entry, or the data of an entry that
/// is to be kept cannot be read, and can fail for a merged archive of more than
/// 1.75 GiB. There is no result if the name of an entry is too long for an
/// archive. In both cases `output` stays as it is.
pub fn append_zip_to_output(output: &mut Vec<u8>, archives: &Vec<Vec<u8>>) -> (r: Option<
    Result<(), ArchiveError>,
>)
    ensures
        match r {
            None => {
                &&& final(output)@ == old(output)@
                &&& merged(archives@) matches Some(entries) && !names_fit(entries) && exists|k: int|
                    0 <= k < entries.len() && encode_utf8((#[trigger] entries[k]).0).len() > 0xffff
            },
            Some(Err(_)) => {
                &&& final(output)@ == old(output)@
                &&& merged(archives@) matches Some(entries) ==> !below_limit(entries)
            },
            Some(Ok(_)) => {
                &&& merged(archives@) matches Some(entries)
                &&& names_fit(entries)
                &&& archive_appended(old(output)@, entries, final(output)@)
                &&& old(output)@.len() <= final(output)@.len()
                &&& final(output)@.take(old(output)@.len() as int) == old(output)@
                &&& ends_archive(final(output)@, entries.len())
                &&& reads_back(final(output)@.skip(old(output)@.len() as int), entries)
            },
        },
{
    let items = read_archives(archives);
    let ghost read = all_read(archives@);
    proof {
        lemma_merge_read(items_of(items@), read);
    }
    let entries: Vec<(String, Vec<u8>)> = match merge_items(items) {
        Ok(v) => v,
        Err(e) => return Some(Err(e)),
    };
    let ghost kept = entries_of(entries@);
    proof {
        let at = law_first_of_each_name(read);
    }
    let mut file: Vec<u8> = match write_archive(&entries) {
        Some(Ok(f)) => f,
        Some(Err(e)) => return Some(Err(e)),
        None => return None,
    };
    let ghost tail = file@;
    output.append(&mut file);
    proof {
        let w = choose|w: ArchiveWriter|
            zip_contents(w) == kept && tail == Seq::<u8>::empty() + #[trigger] zip_file(w);
        assert(tail =~= zip_file(w));
        assert(output@ == old(output)@ + zip_file(w));
        assert(output@.skip(old(output)@.len() as int) =~= tail);
        assert(output@.take(old(output)@.len() as int) =~= old(output)@);
    }
    Some(Ok(()))
}

} // verus!
