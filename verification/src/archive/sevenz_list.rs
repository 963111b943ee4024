//! What is in a 7z archive.
use crate::archive::entry::Entry;
use crate::error::Error;
use vstd::prelude::*;
use vstd::string::StringExecFns;

verus! {

/// The entries as they are stored: name, size, and whether it is a directory.
pub open spec fn rows_view(rows: Seq<(String, u64, bool)>) -> Seq<(Seq<char>, u64, bool)> {
    rows.map_values(|row: (String, u64, bool)| (row.0@, row.1, row.2))
}

/// The entries that `sevenz_rust2::ArchiveReader` finds in an archive, in order:
/// name, size, and whether it is a directory. `None` where there is no archive.
pub uninterp spec fn sevenz_listing(bytes: Seq<u8>) -> Option<Seq<(Seq<char>, u64, bool)>>;

/// Opens an archive in memory with `sevenz_rust2::ArchiveReader`, without a
/// password, and hands out what is stored of each entry. A failure is always
/// possible, for the library turns a lack of memory into an error.
#[verifier::external_body]
fn read_sevenz(bytes: &[u8]) -> (r: Result<Vec<(String, u64, bool)>, String>)
    ensures
        r matches Ok(v) ==> sevenz_listing(bytes@) == Some(rows_view(v@)),
{
    let source = std::io::Cursor::new(bytes);
    let reader = match sevenz_rust2::ArchiveReader::new(source, sevenz_rust2::Password::empty()) {
        Ok(reader) => reader,
        Err(e) => return Err(e.to_string()),
    };
    let mut rows = Vec::new();
    for f in &reader.archive().files {
        rows.push((f.name().to_string(), f.size(), f.is_directory()));
    }
    Ok(rows)
}

/// The entries are what is stored, one for one.
pub open spec fn is_listing(entries: Seq<Entry>, rows: Seq<(Seq<char>, u64, bool)>) -> bool {
    &&& entries.len() == rows.len()
    &&& forall|i: int|
        0 <= i < rows.len() ==> {
            &&& (#[trigger] entries[i]).path@ == vstd::utf8::encode_utf8(rows[i].0)
            &&& entries[i].size == rows[i].1
            &&& entries[i].is_dir == rows[i].2
        }
}

/// The entries that are shown for those that are stored.
pub fn entries_of(rows: &Vec<(String, u64, bool)>) -> (r: Vec<Entry>)
    ensures
        is_listing(r@, rows_view(rows@)),
{
    let mut out: Vec<Entry> = Vec::with_capacity(rows.len());
    let mut i: usize = 0;
    while i < rows.len()
        invariant
            i <= rows@.len(),
            out@.len() == i,
            forall|k: int|
                0 <= k < i ==> {
                    &&& (#[trigger] out@[k]).path@ == vstd::utf8::encode_utf8(rows@[k].0@)
                    &&& out@[k].size == rows@[k].1
                    &&& out@[k].is_dir == rows@[k].2
                },
        decreases rows@.len() - i,
    {
        let path = rows[i].0.as_str().as_bytes_vec();
        out.push(Entry { path, size: rows[i].1, is_dir: rows[i].2 });
        i = i + 1;
    }
    out
}

/// What a result says of an archive: its entries, or why it could not be opened.
pub fn listing_of(rows: Result<Vec<(String, u64, bool)>, String>) -> (r: Result<Vec<Entry>, Error>)
    ensures
        match rows {
            Ok(v) => r matches Ok(entries) && is_listing(entries@, rows_view(v@)),
            Err(e) => r matches Err(Error::InvalidArchive(m)) && m@ == "7z open: "@ + e@,
        },
{
    match rows {
        Ok(v) => Ok(entries_of(&v)),
        Err(e) => Err(Error::InvalidArchive("7z open: ".to_owned().concat(e.as_str()))),
    }
}

/// The outcome is one that the 7z library had when it was given the bytes: the
/// entries as they are stored, or why it could not open the archive.
pub closed spec fn sevenz_library_gave(
    bytes: Seq<u8>,
    outcome: Result<Vec<(String, u64, bool)>, String>,
) -> bool {
    exists|b: &[u8]| b@ == bytes && #[trigger] call_ensures(read_sevenz, (b,), outcome)
}

/// Lists a 7z archive, given the bytes of the file.
pub fn list_sevenz(bytes: &[u8]) -> (r: Result<Vec<Entry>, Error>)
    ensures
        r matches Ok(entries) ==> sevenz_listing(bytes@) is Some && is_listing(
            entries@,
            sevenz_listing(bytes@)->0,
        ),
        r matches Err(e) ==> (e matches Error::InvalidArchive(m) && exists|why: Seq<char>| m@
            == #[trigger] ("7z open: "@ + why)),
        exists|o: Result<Vec<(String, u64, bool)>, String>| #[trigger]
            sevenz_library_gave(bytes@, o) && call_ensures(listing_of, (o,), r),
{
    proof {
        assert forall|o: Result<Vec<(String, u64, bool)>, String>| #[trigger]
            call_ensures(read_sevenz, (bytes,), o) implies sevenz_library_gave(bytes@, o) by {}
    }
    listing_of(read_sevenz(bytes))
}

/// Listing a 7z archive fails only where the 7z library cannot open it, and with
/// its message. Where the library opens it, there is one entry for each that is
/// stored, in order, with its name, size and kind, however many there are.
pub proof fn law_sevenz_listing_is_that_of_the_library(bytes: &[u8], r: Result<Vec<Entry>, Error>)
    requires
        call_ensures(list_sevenz, (bytes,), r),
    ensures
        exists|o: Result<Vec<(String, u64, bool)>, String>|
            {
                &&& #[trigger] sevenz_library_gave(bytes@, o)
                &&& o matches Ok(rows) ==> (r matches Ok(entries) && {
                    &&& entries@.len() == rows@.len()
                    &&& forall|i: int|
                        0 <= i < rows@.len() ==> {
                            &&& (#[trigger] entries@[i]).path@ == vstd::utf8::encode_utf8(
                                rows@[i].0@,
                            )
                            &&& entries@[i].size == rows@[i].1
                            &&& entries@[i].is_dir == rows@[i].2
                        }
                })
                &&& o matches Err(why) ==> (r matches Err(Error::InvalidArchive(m)) && m@
                    == "7z open: "@ + why@)
            },
{
    let o = choose|o: Result<Vec<(String, u64, bool)>, String>| #[trigger]
        sevenz_library_gave(bytes@, o) && call_ensures(listing_of, (o,), r);
    assert(sevenz_library_gave(bytes@, o));
    assert(call_ensures(listing_of, (o,), r));
    if let Ok(rows) = o {
        let entries = r->Ok_0;
        assert forall|i: int| 0 <= i < rows@.len() implies {
            &&& (#[trigger] entries@[i]).path@ == vstd::utf8::encode_utf8(rows@[i].0@)
            &&& entries@[i].size == rows@[i].1
            &&& entries@[i].is_dir == rows@[i].2
        } by {
            assert(rows_view(rows@)[i] == (rows@[i].0@, rows@[i].1, rows@[i].2));
        }
    }
}

} // verus!
