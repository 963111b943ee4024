//! What is in a tar archive.
use crate::archive::entry::Entry;
use crate::codec::Decoded;
use crate::error::Error;
use vstd::prelude::*;

verus! {

/// One entry as it is stored: the bytes of its path, its size if that could be
/// read, and whether it is a directory.
pub open spec fn row_view(row: (Vec<u8>, Option<u64>, bool)) -> (Seq<u8>, Option<u64>, bool) {
    (row.0@, row.1, row.2)
}

/// The entries as they are stored.
pub open spec fn rows_view(rows: Seq<(Vec<u8>, Option<u64>, bool)>) -> Seq<
    (Seq<u8>, Option<u64>, bool),
> {
    rows.map_values(|row: (Vec<u8>, Option<u64>, bool)| row_view(row))
}

/// The block at `p` is the header of a sparse file with more headers behind it.
pub open spec fn extended_sparse(bytes: Seq<u8>, p: int) -> bool {
    p + 512 <= bytes.len() && bytes[p + 156] == 83 && bytes[p + 482] == 1
}

/// The header at `p` gives its size as a binary number of 2^63 or more.
pub open spec fn huge_binary_size(bytes: Seq<u8>, p: int) -> bool {
    p + 512 <= bytes.len() && bytes[p + 124] >= 128 && bytes[p + 128] >= 128
}

/// How many digits stand at `p`.
pub open spec fn digits_at(bytes: Seq<u8>, p: int) -> nat
    decreases bytes.len() - p,
{
    if 0 <= p < bytes.len() && 48 <= bytes[p] <= 57 {
        1 + digits_at(bytes, p + 1)
    } else {
        0
    }
}

/// A record at `p` gives a size of nineteen digits or more, as one of 2^63 or
/// more has.
pub open spec fn long_size_record(bytes: Seq<u8>, p: int) -> bool {
    &&& 0 <= p && p + 6 <= bytes.len()
    &&& bytes.subrange(p, p + 5) == seq![115u8, 105u8, 122u8, 101u8, 61u8]
    &&& digits_at(
        bytes,
        if bytes[p + 5] == 43 {
            p + 6
        } else {
            p + 5
        },
    ) >= 19
}

/// An extended sparse file claims more bytes than positions in an archive can
/// count: its header says so, or some record does.
pub open spec fn claims_too_much(bytes: Seq<u8>) -> bool {
    exists|b: int| 0 <= b && #[trigger] extended_sparse(bytes, 512 * b) && (huge_binary_size(
        bytes,
        512 * b,
    ) || exists|p: int| #[trigger] long_size_record(bytes, p))
}

/// The entries that `tar::Archive` finds in an archive, in order: path, size in
/// the header, and whether it is a directory. `None` where it fails.
pub uninterp spec fn tar_listing(bytes: Seq<u8>) -> Option<Seq<(Seq<u8>, Option<u64>, bool)>>;

/// Walks an archive in memory with `tar::Archive`, and hands out what is stored
/// of each entry. An archive in which an extended sparse file claims too much is
/// left out: the library would add up positions beyond 2^64. Nothing is said of
/// the text of an error.
#[verifier::external_body]
fn read_tar(bytes: &[u8]) -> (r: Result<Vec<(Vec<u8>, Option<u64>, bool)>, String>)
    requires
        !claims_too_much(bytes@),
    ensures
        match tar_listing(bytes@) {
            Some(rows) => r matches Ok(v) && rows_view(v@) == rows,
            None => r is Err,
        },
{
    let mut archive = tar::Archive::new(bytes);
    let entries = match archive.entries() {
        Ok(entries) => entries,
        Err(e) => return Err(e.to_string()),
    };
    let mut rows = Vec::new();
    for entry in entries {
        let e = match entry {
            Ok(e) => e,
            Err(e) => return Err(e.to_string()),
        };
        let is_dir = e.header().entry_type().is_dir();
        rows.push((e.path_bytes().into_owned(), e.header().size().ok(), is_dir));
    }
    Ok(rows)
}

/// Whether nineteen digits or more stand at `p`.
fn long_number(bytes: &[u8], p: usize) -> (r: bool)
    requires
        p <= bytes@.len(),
    ensures
        r == (digits_at(bytes@, p as int) >= 19),
{
    let n: usize = bytes.len();
    let mut i: usize = p;
    while i < n && 48 <= bytes[i] && bytes[i] <= 57
        invariant
            p <= i <= n == bytes@.len(),
            digits_at(bytes@, p as int) == (i - p) + digits_at(bytes@, i as int),
        decreases n - i,
    {
        i = i + 1;
    }
    i - p >= 19
}

/// Whether some record gives a long size.
fn has_long_size(bytes: &[u8]) -> (r: bool)
    ensures
        r == exists|p: int| #[trigger] long_size_record(bytes@, p),
{
    let n: usize = bytes.len();
    let mut p: usize = 0;
    while p < n && 6 <= n - p
        invariant
            p <= n == bytes@.len(),
            forall|q: int| 0 <= q < p ==> !#[trigger] long_size_record(bytes@, q),
        decreases n - p,
    {
        let is_key: bool = bytes[p] == 115 && bytes[p + 1] == 105 && bytes[p + 2] == 122
            && bytes[p + 3] == 101 && bytes[p + 4] == 61;
        let ghost key = bytes@.subrange(p as int, p + 5);
        proof {
            let wanted = seq![115u8, 105u8, 122u8, 101u8, 61u8];
            if is_key {
                assert(key =~= wanted);
            } else if key == wanted {
                assert(key[0] == wanted[0] && key[1] == wanted[1] && key[2] == wanted[2]
                    && key[3] == wanted[3] && key[4] == wanted[4]);
            }
        }
        if is_key {
            let from: usize = if bytes[p + 5] == 43 {
                p + 6
            } else {
                p + 5
            };
            if long_number(bytes, from) {
                assert(long_size_record(bytes@, p as int));
                return true;
            }
        }
        p = p + 1;
    }
    assert forall|q: int| !#[trigger] long_size_record(bytes@, q) by {}
    false
}

/// Whether an extended sparse file claims more bytes than positions can count.
pub fn overclaims(bytes: &[u8]) -> (r: bool)
    ensures
        r == claims_too_much(bytes@),
{
    let n: usize = bytes.len();
    let mut p: usize = 0;
    let ghost mut b: int = 0;
    let mut extended: bool = false;
    while p < n && 512 <= n - p
        invariant
            p <= n == bytes@.len(),
            0 <= b,
            p == 512 * b,
            extended == exists|k: int| 0 <= k < b && #[trigger] extended_sparse(bytes@, 512 * k),
            forall|k: int|
                0 <= k < b && #[trigger] extended_sparse(bytes@, 512 * k) ==> !huge_binary_size(
                    bytes@,
                    512 * k,
                ),
        decreases n - p,
    {
        if bytes[p + 156] == 83 && bytes[p + 482] == 1 {
            assert(extended_sparse(bytes@, 512 * b));
            if bytes[p + 124] >= 128 && bytes[p + 128] >= 128 {
                assert(huge_binary_size(bytes@, 512 * b));
                return true;
            }
            extended = true;
        } else {
            assert(!extended_sparse(bytes@, 512 * b));
        }
        p = p + 512;
        proof {
            b = b + 1;
        }
    }
    proof {
        assert forall|k: int| 0 <= k && #[trigger] extended_sparse(bytes@, 512 * k) implies k
            < b by {}
    }
    if extended {
        let r: bool = has_long_size(bytes);
        proof {
            let k = choose|k: int| 0 <= k < b && #[trigger] extended_sparse(bytes@, 512 * k);
            assert(extended_sparse(bytes@, 512 * k));
        }
        r
    } else {
        false
    }
}

/// The entry is what is stored: its path, its size or else 0, and whether it is
/// a directory.
pub open spec fn stands_for(entry: Entry, row: (Seq<u8>, Option<u64>, bool)) -> bool {
    &&& entry.path@ == row.0
    &&& entry.size == (match row.1 {
        Some(size) => size,
        None => 0,
    })
    &&& entry.is_dir == row.2
}

/// The entries are what is stored, one for one.
pub open spec fn is_listing(
    entries: Seq<Entry>,
    rows: Seq<(Seq<u8>, Option<u64>, bool)>,
) -> bool {
    &&& entries.len() == rows.len()
    &&& forall|i: int| 0 <= i < rows.len() ==> stands_for(#[trigger] entries[i], rows[i])
}

/// The entries that are shown for those that are stored.
pub fn entries_of(rows: &Vec<(Vec<u8>, Option<u64>, bool)>) -> (r: Vec<Entry>)
    ensures
        is_listing(r@, rows_view(rows@)),
{
    let mut out: Vec<Entry> = Vec::with_capacity(rows.len());
    let mut i: usize = 0;
    while i < rows.len()
        invariant
            i <= rows@.len(),
            out@.len() == i,
            forall|k: int| 0 <= k < i ==> stands_for(#[trigger] out@[k], rows_view(rows@)[k]),
        decreases rows@.len() - i,
    {
        let size: u64 = match rows[i].1 {
            Some(size) => size,
            None => 0,
        };
        let path = vstd::slice::slice_to_vec(rows[i].0.as_slice());
        assert(path@ =~= rows@[i as int].0@);
        out.push(Entry { path, size, is_dir: rows[i].2 });
        i = i + 1;
    }
    out
}

/// The entries of an archive that can be walked; `None` for one that cannot.
pub open spec fn walked(bytes: Seq<u8>) -> Option<Seq<(Seq<u8>, Option<u64>, bool)>> {
    if claims_too_much(bytes) {
        None
    } else {
        tar_listing(bytes)
    }
}

/// The outcome is one that the tar library had when it was given the bytes: the
/// entries as they are stored, or why it could not walk the archive.
pub closed spec fn tar_library_gave(
    bytes: Seq<u8>,
    outcome: Result<Vec<(Vec<u8>, Option<u64>, bool)>, String>,
) -> bool {
    exists|b: &[u8]| b@ == bytes && #[trigger] call_ensures(read_tar, (b,), outcome)
}

fn walk(bytes: &[u8]) -> (r: Result<Vec<(Vec<u8>, Option<u64>, bool)>, String>)
    ensures
        match walked(bytes@) {
            Some(rows) => r matches Ok(v) && rows_view(v@) == rows,
            None => r is Err,
        },
        claims_too_much(bytes@) ==> (r matches Err(m) && m@
            == "a sparse file in the archive claims too many bytes"@),
        !claims_too_much(bytes@) ==> tar_library_gave(bytes@, r),
{
    if overclaims(bytes) {
        Err("a sparse file in the archive claims too many bytes".to_owned())
    } else {
        read_tar(bytes)
    }
}

/// What listing a tar archive leads to, given what was read of it. If that is
/// all of it, the entries. If reading it failed, the entries where the walk
/// comes to the end of the archive before it needs more, so that it is no worse
/// off with a byte behind; else the failure.
pub open spec fn listed(decoded: Decoded, r: Result<Vec<Entry>, Error>) -> bool {
    let bytes = decoded.bytes@;
    match (walked(bytes), decoded.failure) {
        (Some(rows), None) => r matches Ok(entries) && is_listing(entries@, rows),
        (None, None) => r matches Err(Error::Io(_)),
        (Some(rows), Some(e)) => if walked(bytes.push(0)) is Some {
            r matches Ok(entries) && is_listing(entries@, rows)
        } else {
            r == Err::<Vec<Entry>, Error>(e)
        },
        (None, Some(e)) => r == Err::<Vec<Entry>, Error>(e),
    }
}

/// Lists a tar archive, given what was read of it.
pub fn tar_entries(decoded: Decoded) -> (r: Result<Vec<Entry>, Error>)
    ensures
        listed(decoded, r),
        decoded.failure is None && !claims_too_much(decoded.bytes@) ==> exists|
            o: Result<Vec<(Vec<u8>, Option<u64>, bool)>, String>,
        | #[trigger]
            tar_library_gave(decoded.bytes@, o) && match o {
                Ok(rows) => r matches Ok(v) && call_ensures(entries_of, (&rows,), v),
                Err(m) => r == Err::<Vec<Entry>, Error>(Error::Io(m)),
            },
{
    let rows = walk(decoded.bytes.as_slice());
    match decoded.failure {
        None => match rows {
            Ok(rows) => Ok(entries_of(&rows)),
            Err(e) => Err(Error::Io(e)),
        },
        Some(e) => match rows {
            Ok(rows) => {
                let mut more = decoded.bytes;
                more.push(0);
                match walk(more.as_slice()) {
                    Ok(_) => Ok(entries_of(&rows)),
                    Err(_) => Err(e),
                }
            },
            Err(_) => Err(e),
        },
    }
}

proof fn lemma_digits(bytes: Seq<u8>, p: int, n: nat, k: int)
    requires
        digits_at(bytes, p) >= n,
        0 <= p,
        0 <= k < n,
    ensures
        p + k < bytes.len() && 48 <= bytes[p + k] <= 57,
    decreases n,
{
    if k > 0 {
        lemma_digits(bytes, p + 1, (n - 1) as nat, k - 1);
    }
}

proof fn lemma_enough_digits(bytes: Seq<u8>, p: int, n: nat)
    requires
        0 <= p,
        p + n <= bytes.len(),
        forall|k: int| p <= k < p + n ==> 48 <= #[trigger] bytes[k] <= 57,
    ensures
        digits_at(bytes, p) >= n,
    decreases n,
{
    if n > 0 {
        assert(48 <= bytes[p] <= 57);
        lemma_enough_digits(bytes, p + 1, (n - 1) as nat);
    }
}

/// The block holds the header of a sparse file that has more headers behind it.
pub open spec fn is_long_sparse_header(bytes: Seq<u8>, block: int) -> bool {
    &&& 0 <= block
    &&& 512 * block + 512 <= bytes.len()
    &&& bytes[512 * block + 156] == 'S' as u8
    &&& bytes[512 * block + 482] == 1
}

/// The header in the block gives a size of 2^63 or more, as a binary number.
pub open spec fn gives_huge_size(bytes: Seq<u8>, block: int) -> bool {
    bytes[512 * block + 124] >= 128 && bytes[512 * block + 128] >= 128
}

/// At `p` there stands `size=`, and at `q` behind it, or behind a plus sign, a
/// number of nineteen digits at least.
pub open spec fn is_long_size(bytes: Seq<u8>, p: int, q: int) -> bool {
    &&& 0 <= p
    &&& q == p + 5 || (q == p + 6 && bytes[p + 5] == '+' as u8)
    &&& q + 19 <= bytes.len()
    &&& bytes[p] == 's' as u8
    &&& bytes[p + 1] == 'i' as u8
    &&& bytes[p + 2] == 'z' as u8
    &&& bytes[p + 3] == 'e' as u8
    &&& bytes[p + 4] == '=' as u8
    &&& forall|k: int| q <= k < q + 19 ==> 48 <= #[trigger] bytes[k] <= 57
}

/// An archive is refused exactly where it has a sparse file with more headers
/// behind its first, and that header gives a size of 2^63 or more, or some record
/// gives one of nineteen digits at least.
pub proof fn law_only_huge_sparse_files_are_refused(bytes: &[u8], r: bool)
    requires
        call_ensures(overclaims, (bytes,), r),
    ensures
        r <==> exists|b: int| #[trigger]
            is_long_sparse_header(bytes@, b) && (gives_huge_size(bytes@, b) || exists|
                p: int,
                q: int,
            | #[trigger]
                is_long_size(bytes@, p, q)),
{
    let s = bytes@;
    if r {
        let b = choose|b: int|
            0 <= b && #[trigger] extended_sparse(s, 512 * b) && (huge_binary_size(s, 512 * b)
                || exists|p: int| #[trigger] long_size_record(s, p));
        assert(is_long_sparse_header(s, b));
        if !huge_binary_size(s, 512 * b) {
            let p = choose|p: int| #[trigger] long_size_record(s, p);
            let key = s.subrange(p, p + 5);
            assert(key[0] == 115 && key[1] == 105 && key[2] == 122 && key[3] == 101 && key[4]
                == 61);
            let q = if s[p + 5] == 43 {
                p + 6
            } else {
                p + 5
            };
            assert forall|k: int| q <= k < q + 19 implies 48 <= #[trigger] s[k] <= 57 by {
                lemma_digits(s, q, 19, k - q);
            }
            lemma_digits(s, q, 19, 18);
            assert(is_long_size(s, p, q));
        }
    }
    if exists|b: int| #[trigger]
        is_long_sparse_header(s, b) && (gives_huge_size(s, b) || exists|p: int, q: int| #[trigger]
            is_long_size(s, p, q)) {
        let b = choose|b: int| #[trigger]
            is_long_sparse_header(s, b) && (gives_huge_size(s, b) || exists|
                p: int,
                q: int,
            | #[trigger]
                is_long_size(s, p, q));
        assert(extended_sparse(s, 512 * b));
        if !gives_huge_size(s, b) {
            let (p, q) = choose|p: int, q: int| #[trigger] is_long_size(s, p, q);
            lemma_enough_digits(s, q, 19);
            assert(s.subrange(p, p + 5) =~= seq![115u8, 105u8, 122u8, 101u8, 61u8]);
            assert(48 <= s[q] <= 57);
            assert(long_size_record(s, p));
        }
        assert(claims_too_much(s));
    }
}

/// A tar archive that is not refused and was read to its end is listed as the tar
/// library finds it: one entry for each of its own, in order, with its path byte
/// for byte, its size or else 0, and whether it is a directory. It fails only
/// where the library fails.
pub proof fn law_tar_listing_is_that_of_the_library(
    decoded: Decoded,
    bytes: &[u8],
    r: Result<Vec<Entry>, Error>,
)
    requires
        call_ensures(tar_entries, (decoded,), r),
        decoded.failure is None,
        bytes@ == decoded.bytes@,
        call_ensures(overclaims, (bytes,), false),
    ensures
        tar_listing(bytes@) is None ==> r matches Err(Error::Io(_)),
        tar_listing(bytes@) matches Some(rows) ==> (r matches Ok(entries) && {
            &&& entries@.len() == rows.len()
            &&& forall|i: int|
                0 <= i < rows.len() ==> {
                    &&& (#[trigger] entries@[i]).path@ == rows[i].0
                    &&& entries@[i].size == (if rows[i].1 is Some {
                        rows[i].1->0
                    } else {
                        0
                    })
                    &&& entries@[i].is_dir == rows[i].2
                }
        }),
        r matches Err(e) ==> exists|o: Result<Vec<(Vec<u8>, Option<u64>, bool)>, String>|
            #[trigger]
            tar_library_gave(bytes@, o) && (o matches Err(m) && e == Error::Io(m)),
{
    let o = choose|o: Result<Vec<(Vec<u8>, Option<u64>, bool)>, String>| #[trigger]
        tar_library_gave(bytes@, o) && match o {
            Ok(rows) => r matches Ok(v) && call_ensures(entries_of, (&rows,), v),
            Err(m) => r == Err::<Vec<Entry>, Error>(Error::Io(m)),
        };
    assert(tar_library_gave(bytes@, o));
}

/// Where reading a tar archive failed, the answer is that failure, unless the walk
/// over what was read comes to the end of the archive with and without a byte
/// behind it: then it is the listing of what was read.
pub proof fn law_a_failure_is_handed_on(
    bytes: Vec<u8>,
    failure: Error,
    read: &[u8],
    more: &[u8],
    r: Result<Vec<Entry>, Error>,
)
    requires
        call_ensures(tar_entries, (Decoded { bytes, failure: Some(failure) },), r),
        read@ == bytes@,
        more@ == bytes@.push(0),
        call_ensures(overclaims, (read,), false),
        call_ensures(overclaims, (more,), false),
    ensures
        r is Ok <==> tar_listing(read@) is Some && tar_listing(more@) is Some,
        r matches Err(e) ==> e == failure,
        r matches Ok(entries) ==> (tar_listing(read@) matches Some(rows) && entries@.len()
            == rows.len() && forall|i: int|
            0 <= i < rows.len() ==> {
                &&& (#[trigger] entries@[i]).path@ == rows[i].0
                &&& entries@[i].size == (if rows[i].1 is Some {
                    rows[i].1->0
                } else {
                    0
                })
                &&& entries@[i].is_dir == rows[i].2
            }),
{
}

} // verus!
