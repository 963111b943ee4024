//! What is in a zip archive.
use crate::archive::entry::Entry;
use crate::archive::path;
use crate::codec::Decoded;
use crate::error::Error;
use vstd::prelude::*;

verus! {

/// One entry as it is stored: its name, its size, and whether it is a directory.
/// `None` where it cannot be opened.
pub open spec fn row_view(row: Result<(String, u64, bool), String>) -> Option<
    (Seq<char>, u64, bool),
> {
    match row {
        Ok(e) => Some((e.0@, e.1, e.2)),
        Err(_) => None,
    }
}

/// The entries as they are stored.
pub open spec fn rows_view(rows: Seq<Result<(String, u64, bool), String>>) -> Seq<
    Option<(Seq<char>, u64, bool)>,
> {
    rows.map_values(|row: Result<(String, u64, bool), String>| row_view(row))
}

/// The entries that `zip::ZipArchive` finds in an archive, in order: stored
/// name, size, and whether it is a directory; `None` for one that cannot be
/// opened, as when it is encrypted. `None` in all where there is no archive.
pub uninterp spec fn zip_listing(bytes: Seq<u8>) -> Option<
    Seq<Option<(Seq<char>, u64, bool)>>,
>;

/// Opens an archive in memory with `zip::ZipArchive` and each entry with
/// `by_index`, and hands out what is stored of it. Nothing is said of the text of
/// an error.
#[verifier::external_body]
fn read_zip(bytes: &[u8]) -> (r: Result<Vec<Result<(String, u64, bool), String>>, String>)
    ensures
        match zip_listing(bytes@) {
            Some(rows) => r matches Ok(v) && rows_view(v@) == rows,
            None => r is Err,
        },
{
    let mut archive = match zip::ZipArchive::new(std::io::Cursor::new(bytes)) {
        Ok(archive) => archive,
        Err(e) => return Err(e.to_string()),
    };
    let mut rows = Vec::new();
    for i in 0..archive.len() {
        match archive.by_index(i) {
            Ok(e) => rows.push(Ok((e.name().to_string(), e.size(), e.is_dir()))),
            Err(e) => rows.push(Err(e.to_string())),
        }
    }
    Ok(rows)
}

/// The content that `zip::ZipArchive` reads of an entry; `None` where it fails.
pub uninterp spec fn zip_content(bytes: Seq<u8>, index: int) -> Option<Seq<u8>>;

/// Reads an entry of an archive in memory to its end, as `by_index` of
/// `zip::ZipArchive` opens it: what was read, and what it failed with. Nothing is
/// said of what is read before a failure, nor of its text.
#[verifier::external_body]
fn read_zip_content(bytes: &[u8], index: usize) -> (r: (Vec<u8>, Option<String>))
    ensures
        match zip_content(bytes@, index as int) {
            Some(content) => r.1 is None && r.0@ == content,
            None => r.1 is Some,
        },
{
    let mut out = Vec::new();
    let mut archive = match zip::ZipArchive::new(std::io::Cursor::new(bytes)) {
        Ok(archive) => archive,
        Err(e) => return (out, Some(e.to_string())),
    };
    let mut entry = match archive.by_index(index) {
        Ok(entry) => entry,
        Err(e) => return (out, Some(e.to_string())),
    };
    match std::io::Read::read_to_end(&mut entry, &mut out) {
        Ok(_) => (out, None),
        Err(e) => (out, Some(e.to_string())),
    }
}

/// The entry is what is stored: the path that its name stands for, its size, and
/// whether it is a directory.
pub open spec fn stands_for(entry: Entry, row: (Seq<char>, u64, bool)) -> bool {
    &&& entry.path@ == vstd::utf8::encode_utf8(path::mangled(row.0))
    &&& entry.size == row.1
    &&& entry.is_dir == row.2
}

/// The entry of a row, or its error.
pub open spec fn opened(r: Result<Entry, Error>, row: Option<(Seq<char>, u64, bool)>) -> bool {
    match row {
        Some(stored) => r matches Ok(entry) && stands_for(entry, stored),
        None => r matches Err(Error::Zip(_)),
    }
}

/// The entries of the rows, or their errors, one for one.
pub open spec fn all_opened(
    r: Seq<Result<Entry, Error>>,
    rows: Seq<Option<(Seq<char>, u64, bool)>>,
) -> bool {
    &&& r.len() == rows.len()
    &&& forall|i: int| 0 <= i < rows.len() ==> opened(#[trigger] r[i], rows[i])
}

/// The outcome is one that the zip library had when it was given the bytes: the
/// entries as they are stored, each with what opening it led to, or why it could
/// not open the archive.
pub closed spec fn zip_library_gave(
    bytes: Seq<u8>,
    outcome: Result<Vec<Result<(String, u64, bool), String>>, String>,
) -> bool {
    exists|b: &[u8]| b@ == bytes && #[trigger] call_ensures(read_zip, (b,), outcome)
}

/// The outcome is one that the zip library had when it read an entry: what it
/// read, and its failure if it had one.
pub closed spec fn zip_library_read(
    bytes: Seq<u8>,
    index: usize,
    outcome: (Vec<u8>, Option<String>),
) -> bool {
    exists|b: &[u8]|
        b@ == bytes && #[trigger] call_ensures(read_zip_content, (b, index), outcome)
}

/// The entry that is shown for one that is stored.
fn entry_of(row: &(String, u64, bool)) -> (r: Entry)
    ensures
        stands_for(r, (row.0@, row.1, row.2)),
{
    let path = path::mangled_name(row.0.as_str());
    Entry { path: path.as_str().as_bytes_vec(), size: row.1, is_dir: row.2 }
}

/// The entries that are shown for those that are stored. One that could not be
/// opened has its error.
pub fn entries_of(rows: &Vec<Result<(String, u64, bool), String>>) -> (r: Vec<
    Result<Entry, Error>,
>)
    ensures
        all_opened(r@, rows_view(rows@)),
        forall|i: int|
            0 <= i < rows@.len() && rows@[i] is Err ==> (#[trigger] r@[i] matches Err(Error::Zip(t))
                && t@ == (rows@[i]->Err_0)@),
{
    let mut out: Vec<Result<Entry, Error>> = Vec::with_capacity(rows.len());
    let mut i: usize = 0;
    while i < rows.len()
        invariant
            i <= rows@.len(),
            out@.len() == i,
            forall|k: int| 0 <= k < i ==> opened(#[trigger] out@[k], rows_view(rows@)[k]),
            forall|k: int|
                0 <= k < i && rows@[k] is Err ==> (#[trigger] out@[k] matches Err(Error::Zip(t))
                    && t@ == (rows@[k]->Err_0)@),
        decreases rows@.len() - i,
    {
        let entry: Result<Entry, Error> = match &rows[i] {
            Ok(row) => Ok(entry_of(row)),
            Err(m) => Err(Error::Zip(m.clone())),
        };
        out.push(entry);
        i = i + 1;
    }
    out
}

proof fn lemma_gave(bytes: &[u8])
    ensures
        forall|o: Result<Vec<Result<(String, u64, bool), String>>, String>| #[trigger]
            call_ensures(read_zip, (bytes,), o) ==> zip_library_gave(bytes@, o),
{
}

/// Opens the entries of a zip archive, given the bytes of the file. One that
/// cannot be opened has its error.
pub fn zip_rows(bytes: &[u8]) -> (r: Result<Vec<Result<Entry, Error>>, Error>)
    ensures
        match zip_listing(bytes@) {
            Some(rows) => r matches Ok(v) && all_opened(v@, rows),
            None => r matches Err(Error::Zip(_)),
        },
        exists|o: Result<Vec<Result<(String, u64, bool), String>>, String>| #[trigger]
            zip_library_gave(bytes@, o) && match o {
                Ok(rows) => r matches Ok(v) && call_ensures(entries_of, (&rows,), v),
                Err(m) => r == Err::<Vec<Result<Entry, Error>>, Error>(Error::Zip(m)),
            },
{
    proof {
        lemma_gave(bytes);
    }
    match read_zip(bytes) {
        Ok(rows) => Ok(entries_of(&rows)),
        Err(e) => Err(Error::Zip(e)),
    }
}

/// Where the first entry is that cannot be opened, from `i` on, if there is one.
pub open spec fn first_closed(
    rows: Seq<Result<(String, u64, bool), String>>,
    i: int,
) -> Option<int>
    decreases rows.len() - i,
{
    if i < 0 || i >= rows.len() {
        None
    } else if rows[i] is Err {
        Some(i)
    } else {
        first_closed(rows, i + 1)
    }
}

/// The entry could be opened and is what is stored.
pub open spec fn shows(entry: Entry, row: Option<(Seq<char>, u64, bool)>) -> bool {
    row matches Some(stored) && stands_for(entry, stored)
}

/// The entries are what is stored, one for one.
pub open spec fn is_listing(
    entries: Seq<Entry>,
    rows: Seq<Option<(Seq<char>, u64, bool)>>,
) -> bool {
    &&& entries.len() == rows.len()
    &&& forall|i: int| 0 <= i < rows.len() ==> shows(#[trigger] entries[i], rows[i])
}

/// The entries that are shown for those that are stored, or the error of the
/// first that could not be opened.
pub fn listing_of(rows: &Vec<Result<(String, u64, bool), String>>) -> (r: Result<Vec<Entry>, Error>)
    ensures
        match first_closed(rows@, 0) {
            None => r matches Ok(entries) && is_listing(entries@, rows_view(rows@)),
            Some(i) => r matches Err(Error::Zip(m)) && m@ == (rows@[i]->Err_0)@,
        },
{
    let mut out: Vec<Entry> = Vec::with_capacity(rows.len());
    let mut i: usize = 0;
    while i < rows.len()
        invariant
            i <= rows@.len(),
            out@.len() == i,
            first_closed(rows@, 0) == first_closed(rows@, i as int),
            forall|k: int| 0 <= k < i ==> shows(#[trigger] out@[k], rows_view(rows@)[k]),
        decreases rows@.len() - i,
    {
        match &rows[i] {
            Ok(row) => out.push(entry_of(row)),
            Err(m) => return Err(Error::Zip(m.clone())),
        }
        i = i + 1;
    }
    Ok(out)
}

/// What listing a zip archive leads to: its entries, or an error where the
/// archive or one of them cannot be opened.
pub open spec fn listed(bytes: Seq<u8>, r: Result<Vec<Entry>, Error>) -> bool {
    match zip_listing(bytes) {
        Some(rows) => if exists|i: int| 0 <= i < rows.len() && #[trigger] rows[i] is None {
            r matches Err(Error::Zip(_))
        } else {
            r matches Ok(entries) && is_listing(entries@, rows)
        },
        None => r matches Err(Error::Zip(_)),
    }
}

proof fn lemma_first_closed(rows: Seq<Result<(String, u64, bool), String>>, i: int)
    requires
        0 <= i <= rows.len(),
    ensures
        match first_closed(rows, i) {
            None => forall|k: int| i <= k < rows.len() ==> #[trigger] rows[k] is Ok,
            Some(k) => i <= k < rows.len() && rows[k] is Err,
        },
    decreases rows.len() - i,
{
    if i < rows.len() && rows[i] is Ok {
        lemma_first_closed(rows, i + 1);
    }
}

/// Lists a zip archive, given the bytes of the file.
pub fn zip_entries(bytes: &[u8]) -> (r: Result<Vec<Entry>, Error>)
    ensures
        listed(bytes@, r),
        exists|o: Result<Vec<Result<(String, u64, bool), String>>, String>| #[trigger]
            zip_library_gave(bytes@, o) && match o {
                Ok(rows) => call_ensures(listing_of, (&rows,), r),
                Err(m) => r == Err::<Vec<Entry>, Error>(Error::Zip(m)),
            },
{
    proof {
        lemma_gave(bytes);
    }
    match read_zip(bytes) {
        Ok(rows) => {
            proof {
                let stored = rows_view(rows@);
                lemma_first_closed(rows@, 0);
                if let Some(k) = first_closed(rows@, 0) {
                    assert(stored[k] is None);
                } else {
                    assert forall|k: int| 0 <= k < stored.len() implies #[trigger] stored[k]
                        is Some by {
                        assert(rows@[k] is Ok);
                    }
                }
            }
            listing_of(&rows)
        },
        Err(e) => Err(Error::Zip(e)),
    }
}

/// The content of an entry of a zip archive, given the bytes of the file. A
/// failure is handed on with what was read before it.
pub fn zip_entry_content(bytes: &[u8], index: usize) -> (r: Decoded)
    ensures
        match zip_content(bytes@, index as int) {
            Some(content) => r.failure is None && r.bytes@ == content,
            None => r.failure matches Some(Error::Io(_)),
        },
        exists|o: (Vec<u8>, Option<String>)| #[trigger]
            zip_library_read(bytes@, index, o) && r.bytes == o.0 && match o.1 {
                None => r.failure is None,
                Some(m) => r.failure == Some(Error::Io(m)),
            },
{
    let (content, failure) = read_zip_content(bytes, index);
    assert(zip_library_read(bytes@, index, (content, failure)));
    match failure {
        None => Decoded { bytes: content, failure: None },
        Some(e) => Decoded { bytes: content, failure: Some(Error::Io(e)) },
    }
}

/// A zip archive is listed as the zip library finds it: one entry for each of its
/// own, in order, with the path that its name stands for, its size, and whether
/// it is a directory. It fails only where the library cannot open the archive or
/// one of the entries.
pub proof fn law_zip_listing_is_that_of_the_library(bytes: &[u8], r: Result<Vec<Entry>, Error>)
    requires
        call_ensures(zip_entries, (bytes,), r),
    ensures
        zip_listing(bytes@) is None ==> r matches Err(Error::Zip(_)),
        zip_listing(bytes@) matches Some(rows) ==> ((exists|i: int|
            0 <= i < rows.len() && #[trigger] rows[i] is None) ==> r matches Err(Error::Zip(_))),
        zip_listing(bytes@) matches Some(rows) ==> ((forall|i: int|
            0 <= i < rows.len() ==> #[trigger] rows[i] is Some) ==> (r matches Ok(entries) && {
            &&& entries@.len() == rows.len()
            &&& forall|i: int|
                0 <= i < rows.len() ==> {
                    &&& (#[trigger] entries@[i]).path@ == vstd::utf8::encode_utf8(
                        path::mangled((rows[i]->0).0),
                    )
                    &&& entries@[i].size == (rows[i]->0).1
                    &&& entries@[i].is_dir == (rows[i]->0).2
                }
        })),
        r matches Err(e) ==> exists|o: Result<Vec<Result<(String, u64, bool), String>>, String>|
            #[trigger]
            zip_library_gave(bytes@, o) && match o {
                Err(m) => e == Error::Zip(m),
                Ok(rows) => exists|k: int|
                    0 <= k < rows@.len() && (#[trigger] rows@[k] matches Err(m) && (
                    e matches Error::Zip(t) && t@ == m@)),
            },
{
    let o = choose|o: Result<Vec<Result<(String, u64, bool), String>>, String>| #[trigger]
        zip_library_gave(bytes@, o) && match o {
            Ok(rows) => call_ensures(listing_of, (&rows,), r),
            Err(m) => r == Err::<Vec<Entry>, Error>(Error::Zip(m)),
        };
    assert(zip_library_gave(bytes@, o));
    if let Ok(rows) = o {
        law_the_first_closed_entry_decides(&rows, r);
    }
}

/// The entries that are unpacked are those of the listing, each with its path,
/// size and kind. One that cannot be opened is an error in its own place only.
pub proof fn law_zip_rows_are_those_of_the_library(
    bytes: &[u8],
    r: Result<Vec<Result<Entry, Error>>, Error>,
)
    requires
        call_ensures(zip_rows, (bytes,), r),
    ensures
        zip_listing(bytes@) is None ==> r matches Err(Error::Zip(_)),
        zip_listing(bytes@) matches Some(rows) ==> (r matches Ok(entries) && entries@.len()
            == rows.len()),
        zip_listing(bytes@) matches Some(rows) ==> forall|i: int|
            0 <= i < rows.len() ==> {
                let entry = #[trigger] (r->Ok_0)@[i];
                match rows[i] {
                    Some(stored) => entry matches Ok(e) && e.path@ == vstd::utf8::encode_utf8(
                        path::mangled(stored.0),
                    ) && e.size == stored.1 && e.is_dir == stored.2,
                    None => entry matches Err(Error::Zip(_)),
                }
            },
{
}

/// The content of an entry is what the zip library reads of it, and reading fails
/// only where the library fails.
pub proof fn law_zip_content_is_that_of_the_library(bytes: &[u8], index: usize, r: Decoded)
    requires
        call_ensures(zip_entry_content, (bytes, index), r),
    ensures
        r.failure is None <==> zip_content(bytes@, index as int) is Some,
        r.failure is None ==> zip_content(bytes@, index as int) == Some(r.bytes@),
        exists|o: (Vec<u8>, Option<String>)|
            {
                &&& #[trigger] zip_library_read(bytes@, index, o)
                &&& r.bytes@ == o.0@
                &&& o.1 matches Some(m) ==> (r.failure matches Some(Error::Io(t)) && t@ == m@)
            },
{
    let o = choose|o: (Vec<u8>, Option<String>)| #[trigger]
        zip_library_read(bytes@, index, o) && r.bytes == o.0 && match o.1 {
            None => r.failure is None,
            Some(m) => r.failure == Some(Error::Io(m)),
        };
    assert(zip_library_read(bytes@, index, o));
}

/// A listing is made where every entry could be opened; else the error is that of
/// the first that could not.
pub proof fn law_the_first_closed_entry_decides(
    rows: &Vec<Result<(String, u64, bool), String>>,
    r: Result<Vec<Entry>, Error>,
)
    requires
        call_ensures(listing_of, (rows,), r),
    ensures
        r is Ok <==> forall|i: int| 0 <= i < rows@.len() ==> #[trigger] rows@[i] is Ok,
        r matches Ok(entries) ==> entries@.len() == rows@.len(),
        r matches Err(e) ==> exists|k: int|
            0 <= k < rows@.len() && (#[trigger] rows@[k] matches Err(m) && (e matches Error::Zip(
                t,
            ) && t@ == m@)) && forall|i: int| 0 <= i < k ==> #[trigger] rows@[i] is Ok,
{
    lemma_first_closed(rows@, 0);
    lemma_open_before(rows@, 0);
    if let Some(k) = first_closed(rows@, 0) {
        assert(rows@[k] is Err);
    }
}

proof fn lemma_open_before(rows: Seq<Result<(String, u64, bool), String>>, i: int)
    requires
        0 <= i <= rows.len(),
    ensures
        first_closed(rows, i) matches Some(k) ==> forall|j: int|
            i <= j < k ==> #[trigger] rows[j] is Ok,
    decreases rows.len() - i,
{
    if i < rows.len() && rows[i] is Ok {
        lemma_open_before(rows, i + 1);
    }
}

} // verus!
