//! Parallel gzip decompression for streams that this library wrote.
//!
//! Such a stream is a sequence of independent gzip members, most of them with
//! the same plain header. The compressed bytes are scanned for that header to
//! cut the stream, and each piece is decoded on its own, with whatever members
//! it holds. Streams of other writers, which do not begin with the header or in
//! which it is not found twice, are decoded serially. So is the stream where a
//! piece does not decode, as when the header occurs inside compressed bytes.
use crate::cpu::parallel;
use crate::cpu::streams;
use crate::error::Error;
use crate::gzip::GZIP_HEADER;
use rayon::iter::{IntoParallelRefIterator, ParallelIterator};
use vstd::prelude::*;

verus! {

/// The header stands at `i`.
pub open spec fn header_at(data: Seq<u8>, i: int) -> bool {
    0 <= i && i + 10 <= data.len() && data.subrange(i, i + 10) == GZIP_HEADER@
}

/// Where the header stands, from `i` on. After a header the search goes on
/// behind it.
pub open spec fn starts_from(data: Seq<u8>, i: int) -> Seq<int>
    decreases data.len() - i,
{
    if i < 0 || i + 10 > data.len() {
        Seq::empty()
    } else if header_at(data, i) {
        seq![i] + starts_from(data, i + 10)
    } else {
        starts_from(data, i + 1)
    }
}

/// Whether the header stands at `i`.
fn has_header(data: &[u8], i: usize) -> (r: bool)
    requires
        i + 10 <= data@.len(),
    ensures
        r == header_at(data@, i as int),
{
    let header: [u8; 10] = GZIP_HEADER;
    let n: usize = data.len();
    let mut k: usize = 0;
    while k < 10
        invariant
            k <= 10,
            i + 10 <= n == data@.len(),
            header@ == GZIP_HEADER@,
            forall|j: int| 0 <= j < k ==> data@[i + j] == #[trigger] header@[j],
        decreases 10 - k,
    {
        if data[i + k] != header[k] {
            assert(data@.subrange(i as int, i + 10)[k as int] != header@[k as int]);
            return false;
        }
        k = k + 1;
    }
    assert(data@.subrange(i as int, i + 10) =~= GZIP_HEADER@);
    true
}

/// Finds where members start.
pub fn find_member_starts(data: &[u8]) -> (r: Vec<usize>)
    ensures
        r@.len() == starts_from(data@, 0).len(),
        forall|k: int| 0 <= k < r@.len() ==> #[trigger] r@[k] == starts_from(data@, 0)[k],
{
    let n: usize = data.len();
    let mut starts: Vec<usize> = Vec::new();
    if n < 10 {
        return starts;
    }
    let ghost all = starts_from(data@, 0);
    let ghost mut found: Seq<int> = Seq::empty();
    let mut i: usize = 0;
    assert(found + starts_from(data@, 0) =~= all);
    while i <= n - 10
        invariant
            10 <= n == data@.len(),
            i <= n,
            found + starts_from(data@, i as int) == all,
            starts@.len() == found.len(),
            forall|k: int| 0 <= k < starts@.len() ==> #[trigger] starts@[k] == found[k],
        decreases n - i,
    {
        let ghost rest = starts_from(data@, i as int);
        if has_header(data, i) {
            starts.push(i);
            proof {
                let before = found;
                found = found.push(i as int);
                assert(found + starts_from(data@, i + 10) =~= before + rest);
            }
            i = i + 10;
        } else {
            i = i + 1;
        }
    }
    assert(found + Seq::<int>::empty() =~= found);
    starts
}

/// Where the piece that begins at the `k`-th start ends: at the next start, or
/// with the stream.
pub open spec fn piece_end(data: Seq<u8>, starts: Seq<int>, k: int) -> int {
    if k + 1 < starts.len() {
        starts[k + 1]
    } else {
        data.len() as int
    }
}

/// The pieces of the stream, one per start.
pub open spec fn pieces(data: Seq<u8>, starts: Seq<int>) -> Seq<Seq<u8>> {
    Seq::new(starts.len(), |k: int| data.subrange(starts[k], piece_end(data, starts, k)))
}

/// What the stream is decoded to; `None` where it cannot be.
pub open spec fn decompressed(data: Seq<u8>) -> Option<Seq<u8>> {
    if data.len() == 0 {
        Some(Seq::empty())
    } else {
        streams::gz_all(data)
    }
}

/// Decodes the members from `range.0` up to `range.1`.
fn decode_member(compressed: &[u8], range: &(usize, usize)) -> (r: Result<Vec<u8>, String>)
    requires
        range.0 <= range.1 <= compressed@.len(),
    ensures
        r is Ok <==> streams::gz_all(
            compressed@.subrange(range.0 as int, range.1 as int),
        ) is Some,
        r matches Ok(v) ==> streams::is_gz_stream(
            compressed@.subrange(range.0 as int, range.1 as int),
            v@,
        ),
{
    let (bytes, failure) = streams::read_gz_all(
        vstd::slice::slice_subrange(compressed, range.0, range.1),
    );
    match failure {
        None => Ok(bytes),
        Some(e) => Err(e),
    }
}

/// Decodes pieces on the workers of `rayon`: its parallel map over the ranges,
/// collected into a `Result`, keeps the order of the ranges, is `Ok` if every
/// piece decodes, and an error of one of them otherwise. Of each piece it holds
/// what `decode_member` ensures.
#[verifier::external_body]
fn decode_members(compressed: &[u8], ranges: &Vec<(usize, usize)>) -> (r: Result<
    Vec<Vec<u8>>,
    String,
>)
    requires
        forall|k: int|
            0 <= k < ranges@.len() ==> (#[trigger] ranges@[k]).0 <= ranges@[k].1
                <= compressed@.len(),
    ensures
        r is Ok <==> (forall|k: int|
            0 <= k < ranges@.len() ==> streams::gz_all(
                #[trigger] compressed@.subrange(ranges@[k].0 as int, ranges@[k].1 as int),
            ) is Some),
        r matches Ok(parts) ==> parts@.len() == ranges@.len() && forall|k: int|
            0 <= k < ranges@.len() ==> streams::is_gz_stream(
                compressed@.subrange(ranges@[k].0 as int, ranges@[k].1 as int),
                (#[trigger] parts@[k])@,
            ),
{
    ranges.par_iter().map(|range| decode_member(compressed, range)).collect()
}

/// Joins parts in order.
fn join_parts(parts: &Vec<Vec<u8>>) -> (r: Vec<u8>)
    ensures
        r@ == parallel::flat(Seq::new(parts@.len(), |k: int| parts@[k]@)),
{
    let ghost views = Seq::new(parts@.len(), |k: int| parts@[k]@);
    let mut out: Vec<u8> = Vec::new();
    let mut i: usize = 0;
    assert(views.take(0) =~= Seq::<Seq<u8>>::empty());
    while i < parts.len()
        invariant
            i <= parts@.len(),
            views == Seq::new(parts@.len(), |k: int| parts@[k]@),
            out@ == parallel::flat(views.take(i as int)),
        decreases parts@.len() - i,
    {
        out.extend_from_slice(parts[i].as_slice());
        proof {
            assert(views.take(i + 1).drop_last() =~= views.take(i as int));
            assert(views.take(i + 1).last() == parts@[i as int]@);
            assert(out@ =~= parallel::flat(views.take(i + 1)));
        }
        i = i + 1;
    }
    assert(views.take(parts@.len() as int) =~= views);
    out
}

/// The outcome is one that the reader of all members had when it was given the
/// stream: what it read, and its failure if it had one.
pub closed spec fn serial_reader_gave(
    stream: Seq<u8>,
    outcome: (Vec<u8>, Option<String>),
) -> bool {
    exists|s: &[u8]| s@ == stream && #[trigger] call_ensures(streams::read_gz_all, (s,), outcome)
}

/// The error is one that the reader of all members had.
pub open spec fn serial_failure(stream: Seq<u8>, e: Error) -> bool {
    exists|o: (Vec<u8>, Option<String>)| #[trigger]
        serial_reader_gave(stream, o) && (o.1 matches Some(m) && e == Error::Io(m))
}

/// Decodes all members one after the other.
fn decode_serially(compressed: &[u8]) -> (r: Result<Vec<u8>, Error>)
    ensures
        match streams::gz_all(compressed@) {
            Some(content) => r matches Ok(v) && v@ == content,
            None => r matches Err(Error::Io(_)),
        },
        r matches Err(e) ==> serial_failure(compressed@, e),
{
    let (bytes, failure) = streams::read_gz_all(compressed);
    assert(serial_reader_gave(compressed@, (bytes, failure)));
    match failure {
        None => Ok(bytes),
        Some(e) => Err(Error::Io(e)),
    }
}

/// Decodes a gzip stream that is in memory: in pieces and in parallel where the
/// stream begins with the plain header and holds it once more.
pub fn parallel_decompress(compressed: &[u8]) -> (r: Result<Vec<u8>, Error>)
    ensures
        match decompressed(compressed@) {
            Some(content) => r matches Ok(v) && v@ == content,
            None => r matches Err(Error::Io(_)),
        },
        r matches Err(e) ==> serial_failure(compressed@, e),
{
    if compressed.len() == 0 {
        let out: Vec<u8> = Vec::new();
        assert(out@ =~= Seq::<u8>::empty());
        return Ok(out);
    }
    let starts = find_member_starts(compressed);
    let n: usize = starts.len();
    if n < 2 || starts[0] != 0 {
        return decode_serially(compressed);
    }
    let ghost all = starts_from(compressed@, 0);
    let ghost cut = pieces(compressed@, all);
    proof {
        lemma_starts(compressed@, 0);
    }
    let mut ranges: Vec<(usize, usize)> = Vec::with_capacity(n);
    let mut i: usize = 0;
    while i < n
        invariant
            i <= n == starts@.len() == all.len(),
            all == starts_from(compressed@, 0),
            forall|k: int| 0 <= k < n ==> #[trigger] starts@[k] == all[k],
            forall|k: int| 0 <= k < n ==> 0 <= #[trigger] all[k] <= compressed@.len() - 10,
            forall|j: int, k: int| 0 <= j < k < n ==> #[trigger] all[j] < #[trigger] all[k],
            ranges@.len() == i,
            forall|k: int|
                0 <= k < i ==> {
                    &&& (#[trigger] ranges@[k]).0 == all[k]
                    &&& ranges@[k].1 == piece_end(compressed@, all, k)
                    &&& ranges@[k].0 <= ranges@[k].1 <= compressed@.len()
                },
        decreases n - i,
    {
        let start: usize = starts[i];
        let end: usize = if i + 1 < n {
            starts[i + 1]
        } else {
            compressed.len()
        };
        assert(all[i as int] <= compressed@.len() - 10);
        ranges.push((start, end));
        i = i + 1;
    }
    match decode_members(compressed, &ranges) {
        Ok(parts) => {
            let out = join_parts(&parts);
            proof {
                let contents = Seq::new(parts@.len(), |k: int| parts@[k]@);
                assert forall|k: int| 0 <= k < cut.len() implies streams::is_gz_stream(
                    #[trigger] cut[k],
                    contents[k],
                ) && cut[k].len() > 0 by {
                    assert(contents[k] == parts@[k]@);
                    assert(ranges@[k].0 == all[k]);
                    assert(all[k] <= compressed@.len() - 10);
                }
                assert(all[0] == starts@[0]);
                lemma_pieces_make_up(compressed@, all, cut.len() as int);
                assert(cut.take(cut.len() as int) =~= cut);
                assert(compressed@.take(compressed@.len() as int) =~= compressed@);
                law_members_in_series(cut, contents);
            }
            Ok(out)
        },
        Err(_) => decode_serially(compressed),
    }
}

/// Cut at its starts, the first of which is 0, the stream loses nothing.
proof fn lemma_pieces_make_up(data: Seq<u8>, starts: Seq<int>, k: int)
    requires
        0 <= k <= starts.len(),
        starts.len() > 0,
        starts[0] == 0,
        forall|j: int| 0 <= j < starts.len() ==> 0 <= #[trigger] starts[j] <= data.len(),
        forall|i: int, j: int|
            0 <= i < j < starts.len() ==> #[trigger] starts[i] < #[trigger] starts[j],
    ensures
        parallel::flat(pieces(data, starts).take(k)) == data.take(
            if k < starts.len() {
                starts[k]
            } else {
                data.len() as int
            },
        ),
    decreases k,
{
    let cut = pieces(data, starts);
    if k == 0 {
        assert(cut.take(0) =~= Seq::<Seq<u8>>::empty());
        assert(data.take(0) =~= Seq::<u8>::empty());
    } else {
        lemma_pieces_make_up(data, starts, k - 1);
        assert(cut.take(k).drop_last() =~= cut.take(k - 1));
        let end = piece_end(data, starts, k - 1);
        assert(starts[k - 1] <= end <= data.len());
        assert(data.take(starts[k - 1]) + data.subrange(starts[k - 1], end) =~= data.take(end));
    }
}

/// Starts lie in the stream, in order, ten bytes or more apart, and a header
/// stands at each.
pub proof fn lemma_starts(data: Seq<u8>, i: int)
    requires
        0 <= i,
    ensures
        forall|k: int|
            0 <= k < starts_from(data, i).len() ==> {
                &&& i <= #[trigger] starts_from(data, i)[k] <= data.len() - 10
                &&& header_at(data, starts_from(data, i)[k])
            },
        forall|j: int, k: int|
            0 <= j < k < starts_from(data, i).len() ==> #[trigger] starts_from(data, i)[j]
                < #[trigger] starts_from(data, i)[k],
    decreases data.len() - i,
{
    let all = starts_from(data, i);
    if i + 10 <= data.len() {
        if header_at(data, i) {
            lemma_starts(data, i + 10);
            let rest = starts_from(data, i + 10);
            assert forall|k: int| 0 <= k < all.len() implies {
                &&& i <= #[trigger] all[k] <= data.len() - 10
                &&& header_at(data, all[k])
            } by {
                if k > 0 {
                    assert(all[k] == rest[k - 1]);
                }
            }
            assert forall|j: int, k: int| 0 <= j < k < all.len() implies #[trigger] all[j]
                < #[trigger] all[k] by {
                assert(all[k] == rest[k - 1]);
                if j > 0 {
                    assert(all[j] == rest[j - 1]);
                }
            }
        } else {
            lemma_starts(data, i + 1);
            let rest = starts_from(data, i + 1);
            assert(all == rest);
            assert forall|k: int| 0 <= k < all.len() implies {
                &&& i <= #[trigger] all[k] <= data.len() - 10
                &&& header_at(data, all[k])
            } by {
                assert(all[k] == rest[k]);
            }
        }
    } else {
        assert(all =~= Seq::<int>::empty());
    }
}

pub proof fn lemma_flat_first(parts: Seq<Seq<u8>>)
    requires
        parts.len() > 0,
    ensures
        parallel::flat(parts) == parts[0] + parallel::flat(parts.skip(1)),
    decreases parts.len(),
{
    if parts.len() == 1 {
        assert(parts.drop_last() =~= Seq::<Seq<u8>>::empty());
        assert(parts.skip(1) =~= Seq::<Seq<u8>>::empty());
        assert(parallel::flat(parts) =~= parts[0] + parallel::flat(parts.skip(1)));
    } else {
        lemma_flat_first(parts.drop_last());
        assert(parts.drop_last().skip(1) =~= parts.skip(1).drop_last());
        assert(parallel::flat(parts) =~= parts[0] + parallel::flat(parts.skip(1)));
    }
}

/// A stream of gzip members is a gzip stream: a reader of all members gets what
/// they stand for, one after the other.
pub proof fn law_members_in_series(members: Seq<Seq<u8>>, datas: Seq<Seq<u8>>)
    requires
        members.len() == datas.len(),
        members.len() > 0,
        forall|i: int|
            0 <= i < members.len() ==> streams::is_gz_stream(#[trigger] members[i], datas[i])
                && members[i].len() > 0,
    ensures
        streams::gz_all(parallel::flat(members)) == Some(parallel::flat(datas)),
    decreases members.len(),
{
    let m = members[0];
    let d = datas[0];
    let more = members.skip(1);
    let rest = datas.skip(1);
    assert(streams::is_gz_stream(m, d));
    lemma_flat_first(members);
    lemma_flat_first(datas);
    if members.len() == 1 {
        assert(more =~= Seq::<Seq<u8>>::empty());
        assert(rest =~= Seq::<Seq<u8>>::empty());
        assert(m + parallel::flat(more) =~= m);
        assert(d + parallel::flat(rest) =~= d);
    } else {
        assert forall|i: int| 0 <= i < more.len() implies streams::is_gz_stream(
            #[trigger] more[i],
            rest[i],
        ) && more[i].len() > 0 by {
            assert(more[i] == members[i + 1]);
        }
        law_members_in_series(more, rest);
        lemma_flat_first(more);
        assert(more[0].len() > 0);
    }
}

/// What was written in members is read back: their concatenation is decoded to
/// the concatenation of what they stand for, whatever headers they have, and
/// also where the plain header occurs inside compressed bytes.
pub proof fn law_written_stream_is_read_back(members: Seq<Seq<u8>>, datas: Seq<Seq<u8>>)
    requires
        members.len() == datas.len(),
        forall|i: int|
            0 <= i < members.len() ==> streams::is_gz_stream(#[trigger] members[i], datas[i])
                && members[i].len() > 0,
    ensures
        decompressed(parallel::flat(members)) == Some(parallel::flat(datas)),
{
    if members.len() == 0 {
        assert(datas =~= Seq::<Seq<u8>>::empty());
        assert(members =~= Seq::<Seq<u8>>::empty());
    } else {
        law_members_in_series(members, datas);
        lemma_flat_first(members);
        assert(members[0].len() > 0);
    }
}

proof fn lemma_no_overlap(data: Seq<u8>, i: int, j: int)
    requires
        header_at(data, i),
        header_at(data, j),
        i < j,
    ensures
        i + 10 <= j,
{
    if j < i + 10 {
        let k = j - i;
        assert(data.subrange(i, i + 10)[k] == data[j]);
        assert(data.subrange(j, j + 10)[0] == data[j]);
        assert(GZIP_HEADER@[0] == 0x1f);
        assert(GZIP_HEADER@[k] != 0x1f);
    }
}

proof fn lemma_found(data: Seq<u8>, i: int, j: int)
    requires
        0 <= i,
        i <= data.len(),
        forall|k: int| #[trigger] header_at(data, k) && k < i ==> k + 10 <= i,
    ensures
        starts_from(data, i).contains(j) <==> i <= j && header_at(data, j),
        forall|k: int|
            0 <= k < starts_from(data, i).len() ==> i <= #[trigger] starts_from(data, i)[k],
        forall|k: int, l: int|
            0 <= k < l < starts_from(data, i).len() ==> #[trigger] starts_from(data, i)[k]
                < #[trigger] starts_from(data, i)[l],
    decreases data.len() - i,
{
    let all = starts_from(data, i);
    if i + 10 > data.len() {
    } else if header_at(data, i) {
        let more = starts_from(data, i + 10);
        assert forall|k: int| #[trigger] header_at(data, k) && k < i + 10 implies k + 10 <= i
            + 10 by {
            if i < k {
                lemma_no_overlap(data, i, k);
            }
        }
        lemma_found(data, i + 10, j);
        assert(all.len() == more.len() + 1);
        assert forall|k: int| 1 <= k < all.len() implies #[trigger] all[k] == more[k - 1] by {}
        if more.contains(j) {
            let k = choose|k: int| 0 <= k < more.len() && more[k] == j;
            assert(all[k + 1] == j);
        }
        if j == i {
            assert(all[0] == j);
        }
        if i < j && header_at(data, j) {
            lemma_no_overlap(data, i, j);
        }
        if all.contains(j) {
            let k = choose|k: int| 0 <= k < all.len() && all[k] == j;
            if k > 0 {
                assert(more[k - 1] == j);
            }
        }
    } else {
        assert forall|k: int| #[trigger] header_at(data, k) && k < i + 1 implies k + 10 <= i
            + 1 by {}
        lemma_found(data, i + 1, j);
    }
}

/// The scan finds the header exactly where it stands, each place once and in
/// order.
pub proof fn law_scan_finds_every_header(data: &[u8], r: Vec<usize>, i: int)
    requires
        call_ensures(find_member_starts, (data,), r),
        0 <= i,
    ensures
        (exists|k: int| 0 <= k < r@.len() && #[trigger] r@[k] == i) <==> i + 10 <= data@.len()
            && data@.subrange(i, i + 10) == GZIP_HEADER@,
        forall|k: int, l: int| 0 <= k < l < r@.len() ==> #[trigger] r@[k] < #[trigger] r@[l],
{
    lemma_found(data@, 0, i);
    let all = starts_from(data@, 0);
    if all.contains(i) {
        let k = choose|k: int| 0 <= k < all.len() && all[k] == i;
        assert(r@[k] == i);
    }
    if exists|k: int| 0 <= k < r@.len() && #[trigger] r@[k] == i {
        let k = choose|k: int| 0 <= k < r@.len() && #[trigger] r@[k] == i;
        assert(all[k] == i);
    }
    assert forall|k: int, l: int| 0 <= k < l < r@.len() implies #[trigger] r@[k]
        < #[trigger] r@[l] by {
        assert(all[k] < all[l]);
    }
}

/// The parallel reader gives what a serial reader of all members gives, and
/// fails where that fails. No bytes are decoded to none.
pub proof fn law_parallel_reading_is_serial_reading(data: &[u8], r: Result<Vec<u8>, Error>)
    requires
        call_ensures(parallel_decompress, (data,), r),
    ensures
        data@.len() == 0 ==> (r matches Ok(v) && v@.len() == 0),
        data@.len() > 0 ==> (r is Ok <==> streams::gz_all(data@) is Some),
        data@.len() > 0 ==> (r matches Ok(v) ==> streams::gz_all(data@) == Some(v@)),
        r matches Err(e) ==> exists|o: (Vec<u8>, Option<String>)| #[trigger]
            serial_reader_gave(data@, o) && (o.1 matches Some(m) && e == Error::Io(m)),
{
}

} // verus!
