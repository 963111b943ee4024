//! What is read back from a stream that was written in chunks.
use crate::cpu::compress;
use crate::cpu::parallel;
use crate::cpu::parallel::ParallelChunkedWriter;
use crate::cpu::parallel_decompress;
use crate::cpu::streams;
use crate::gpu::chunk;
use crate::gpu::inflate;
use vstd::prelude::*;

verus! {

/// The writer has come to the end of its input without a failure, and has
/// nothing left to do.
pub open spec fn complete<E>(w: ParallelChunkedWriter<E>) -> bool {
    &&& w.wf()
    &&& w.failure() is None
    &&& w.partial().len() == 0
    &&& w@.outstanding.len() == 0
    &&& !w@.writing
    &&& !w.can_write()
}

/// Every member that came back is the gzip member of its chunk.
pub open spec fn makes_members<E>(w: ParallelChunkedWriter<E>, level: u32) -> bool {
    forall|i: int|
        w@.members.contains_key(i) ==> compress::host_member(
            level,
            w@.chunks[i],
            #[trigger] w@.members[i],
        )
}

/// Every member that came back is the zstd frame of its chunk.
pub open spec fn makes_frames<E>(w: ParallelChunkedWriter<E>) -> bool {
    forall|i: int|
        w@.members.contains_key(i) ==> streams::is_zstd_frame(
            #[trigger] w@.members[i],
            w@.chunks[i],
        )
}

/// When a writer is done, it has written one member per chunk, and the chunks
/// are the input.
proof fn lemma_complete<E>(w: ParallelChunkedWriter<E>)
    requires
        complete(w),
    ensures
        w@.written.len() == w@.chunks.len(),
        forall|i: int| 0 <= i < w@.written.len() ==> #[trigger] w@.members.contains_key(i),
        forall|i: int| 0 <= i < w@.written.len() ==> #[trigger] w@.written[i] == w@.members[i],
        w@.accepted == parallel::flat(w@.chunks),
{
    parallel::law_drained_writer_is_complete(w);
    parallel::law_chunks_make_up_the_input(w);
    parallel::law_written_are_members(w);
    assert(parallel::flat(w@.chunks) + w.partial() =~= parallel::flat(w@.chunks));
}

/// An empty input makes an empty stream.
pub proof fn law_empty_input_writes_nothing<E>(w: ParallelChunkedWriter<E>)
    requires
        complete(w),
        w@.accepted.len() == 0,
    ensures
        parallel::flat(w@.written).len() == 0,
{
    lemma_complete(w);
    parallel::law_chunks_make_up_the_input(w);
    if w@.chunks.len() > 0 {
        assert(w@.chunks[w@.chunks.len() - 1].len() > 0);
    }
}

/// Every member that came back is a gzip stream of its chunk.
pub open spec fn makes_gz_streams<E>(w: ParallelChunkedWriter<E>) -> bool {
    forall|i: int|
        w@.members.contains_key(i) ==> streams::is_gz_stream(
            #[trigger] w@.members[i],
            w@.chunks[i],
        )
}

/// Whoever made the members: if each can be read as its chunk, a reader of all
/// members gets the input back from what was written, and so does the parallel
/// reader.
pub proof fn law_readable_members_are_read_back<E>(w: ParallelChunkedWriter<E>)
    requires
        complete(w),
        makes_gz_streams(w),
        forall|i: int|
            w@.members.contains_key(i) ==> (#[trigger] w@.members[i]).len() > 0,
    ensures
        w@.accepted.len() > 0 ==> streams::gz_all(parallel::flat(w@.written)) == Some(w@.accepted),
        parallel_decompress::decompressed(parallel::flat(w@.written)) == Some(w@.accepted),
{
    lemma_complete(w);
    let members = w@.written;
    let datas = w@.chunks;
    assert forall|i: int| 0 <= i < members.len() implies streams::is_gz_stream(
        #[trigger] members[i],
        datas[i],
    ) && members[i].len() > 0 by {
        assert(members[i] == w@.members[i]);
    }
    parallel_decompress::law_written_stream_is_read_back(members, datas);
    if w@.accepted.len() > 0 {
        assert(datas.len() > 0);
        parallel_decompress::law_members_in_series(members, datas);
    }
}

/// Chunked gzip is valid gzip: a reader of all members gets the input back from
/// what was written, and so does the parallel reader.
pub proof fn law_chunked_gzip_is_read_back<E>(w: ParallelChunkedWriter<E>, level: u32)
    requires
        complete(w),
        makes_members(w, level),
    ensures
        w@.accepted.len() > 0 ==> streams::gz_all(parallel::flat(w@.written)) == Some(w@.accepted),
        parallel_decompress::decompressed(parallel::flat(w@.written)) == Some(w@.accepted),
{
    assert forall|i: int| w@.members.contains_key(i) implies streams::is_gz_stream(
        #[trigger] w@.members[i],
        w@.chunks[i],
    ) && w@.members[i].len() > 0 by {
        assert(compress::host_member(level, w@.chunks[i], w@.members[i]));
    }
    law_readable_members_are_read_back(w);
}

/// A stream of zstd frames is a zstd stream: its reader gets what they stand
/// for, one after the other.
pub proof fn law_frames_in_series(frames: Seq<Seq<u8>>, datas: Seq<Seq<u8>>)
    requires
        frames.len() == datas.len(),
        frames.len() > 0,
        forall|i: int|
            0 <= i < frames.len() ==> streams::is_zstd_frame(#[trigger] frames[i], datas[i]),
    ensures
        streams::zstd_all(parallel::flat(frames)) == Some(parallel::flat(datas)),
    decreases frames.len(),
{
    let f = frames[0];
    let d = datas[0];
    let more = frames.skip(1);
    let rest = datas.skip(1);
    assert(streams::is_zstd_frame(f, d));
    parallel_decompress::lemma_flat_first(frames);
    parallel_decompress::lemma_flat_first(datas);
    if frames.len() == 1 {
        assert(more =~= Seq::<Seq<u8>>::empty());
        assert(rest =~= Seq::<Seq<u8>>::empty());
        assert(f + parallel::flat(more) =~= f);
        assert(d + parallel::flat(rest) =~= d);
    } else {
        assert forall|i: int| 0 <= i < more.len() implies streams::is_zstd_frame(
            #[trigger] more[i],
            rest[i],
        ) by {
            assert(more[i] == frames[i + 1]);
        }
        law_frames_in_series(more, rest);
    }
}

/// Chunked zstd is valid zstd: its reader gets the input back from what was
/// written.
pub proof fn law_chunked_zstd_is_read_back<E>(w: ParallelChunkedWriter<E>)
    requires
        complete(w),
        makes_frames(w),
        w@.accepted.len() > 0,
    ensures
        streams::zstd_all(parallel::flat(w@.written)) == Some(w@.accepted),
{
    lemma_complete(w);
    let frames = w@.written;
    let datas = w@.chunks;
    assert(datas.len() > 0);
    assert forall|i: int| 0 <= i < frames.len() implies streams::is_zstd_frame(
        #[trigger] frames[i],
        datas[i],
    ) by {
        assert(frames[i] == w@.members[i]);
    }
    law_frames_in_series(frames, datas);
}

/// Every member that came back is one that the host made of its chunk, or one
/// that stands for it by the format alone, as those from the device do.
pub open spec fn makes_hybrid_members<E>(w: ParallelChunkedWriter<E>, level: u32) -> bool {
    forall|i: int|
        w@.members.contains_key(i) ==> stands_for_chunk(
            level,
            w@.chunks[i],
            #[trigger] w@.members[i],
        )
}

/// Every member that came back stands for its chunk by the format alone.
pub open spec fn makes_device_members<E>(w: ParallelChunkedWriter<E>) -> bool {
    forall|i: int|
        w@.members.contains_key(i) ==> inflate::is_member(
            #[trigger] w@.members[i],
            w@.chunks[i],
        )
}

/// The member is one that the host makes of the chunk, or one that a reader of
/// the format decodes to it, whatever follows.
pub open spec fn stands_for_chunk(level: u32, data: Seq<u8>, member: Seq<u8>) -> bool {
    compress::host_member(level, data, member) || inflate::is_member(member, data)
}

/// A stream can be read as the bytes: it is empty, as they are, or it begins
/// with a member that stands for the first of them, and the rest can be read as
/// the rest of them. A member is read by the gzip library or by the format.
pub open spec fn reads_as(stream: Seq<u8>, data: Seq<u8>) -> bool
    decreases stream.len(),
{
    ||| stream.len() == 0 && data.len() == 0
    ||| exists|n: int, k: int|
        0 < n <= stream.len() && 0 <= k <= data.len() && #[trigger] is_piece(
            stream.take(n),
            data.take(k),
        ) && reads_as(stream.skip(n), data.skip(k))
}

/// The member stands for the bytes, alone and in front of others, for the gzip
/// library or by the format.
pub open spec fn is_piece(member: Seq<u8>, data: Seq<u8>) -> bool {
    streams::is_gz_stream(member, data) || inflate::is_member(member, data)
}

/// Members one after the other can be read as what they stand for.
proof fn lemma_pieces_in_series(members: Seq<Seq<u8>>, datas: Seq<Seq<u8>>)
    requires
        members.len() == datas.len(),
        forall|i: int|
            0 <= i < members.len() ==> (#[trigger] members[i]).len() > 0 && is_piece(
                members[i],
                datas[i],
            ),
    ensures
        reads_as(parallel::flat(members), parallel::flat(datas)),
    decreases members.len(),
{
    if members.len() > 0 {
        let more = members.skip(1);
        let rest = datas.skip(1);
        parallel_decompress::lemma_flat_first(members);
        parallel_decompress::lemma_flat_first(datas);
        assert forall|i: int| 0 <= i < more.len() implies (#[trigger] more[i]).len() > 0
            && is_piece(more[i], rest[i]) by {
            assert(more[i] == members[i + 1]);
        }
        lemma_pieces_in_series(more, rest);
        let stream = parallel::flat(members);
        let data = parallel::flat(datas);
        let n = members[0].len() as int;
        let k = datas[0].len() as int;
        assert(stream.take(n) =~= members[0]);
        assert(data.take(k) =~= datas[0]);
        assert(stream.skip(n) =~= parallel::flat(more));
        assert(data.skip(k) =~= parallel::flat(rest));
        assert(is_piece(stream.take(n), data.take(k)));
    }
}

/// Hybrid gzip loses nothing: the members that were written stand for the
/// chunks, one for one and in order, whoever made them, and the chunks are the
/// input. So what was written can be read as the input, member after member.
pub proof fn law_hybrid_members_stand_for_the_input<E>(w: ParallelChunkedWriter<E>, level: u32)
    requires
        complete(w),
        makes_hybrid_members(w, level),
    ensures
        w@.written.len() == w@.chunks.len(),
        forall|i: int|
            0 <= i < w@.written.len() ==> stands_for_chunk(
                level,
                w@.chunks[i],
                #[trigger] w@.written[i],
            ),
        w@.accepted == parallel::flat(w@.chunks),
        reads_as(parallel::flat(w@.written), w@.accepted),
{
    lemma_complete(w);
    assert forall|i: int| 0 <= i < w@.written.len() implies stands_for_chunk(
        level,
        w@.chunks[i],
        #[trigger] w@.written[i],
    ) by {
        assert(w@.written[i] == w@.members[i]);
    }
    assert forall|i: int| 0 <= i < w@.written.len() implies (#[trigger] w@.written[i]).len() > 0
        && is_piece(w@.written[i], w@.chunks[i]) by {
        let m = w@.written[i];
        assert(stands_for_chunk(level, w@.chunks[i], m));
        if inflate::is_member(m, w@.chunks[i]) {
            inflate::lemma_member_is_long(m, w@.chunks[i]);
        }
    }
    lemma_pieces_in_series(w@.written, w@.chunks);
}

/// What the device alone writes is read back: a reader of the members of the
/// format gets the input from it.
pub proof fn law_device_stream_is_read_back<E>(w: ParallelChunkedWriter<E>)
    requires
        complete(w),
        makes_device_members(w),
    ensures
        inflate::read_members(parallel::flat(w@.written)) == Some(w@.accepted),
{
    lemma_complete(w);
    assert forall|i: int| 0 <= i < w@.written.len() implies inflate::is_member(
        #[trigger] w@.written[i],
        w@.chunks[i],
    ) by {
        assert(w@.written[i] == w@.members[i]);
    }
    inflate::law_members_are_read_in_series(w@.written, w@.chunks);
}

proof fn lemma_flat_split(parts: Seq<Seq<u8>>, i: int)
    requires
        0 <= i <= parts.len(),
    ensures
        parallel::flat(parts) == parallel::flat(parts.take(i)) + parallel::flat(parts.skip(i)),
    decreases i,
{
    if i == 0 {
        assert(parts.take(0) =~= Seq::<Seq<u8>>::empty());
        assert(parts.skip(0) =~= parts);
        assert(parallel::flat(parts.take(0)) + parallel::flat(parts) =~= parallel::flat(parts));
    } else {
        lemma_flat_split(parts, i - 1);
        parallel_decompress::lemma_flat_first(parts.skip(i - 1));
        assert(parts.skip(i - 1).skip(1) =~= parts.skip(i));
        assert(parts.take(i).drop_last() =~= parts.take(i - 1));
        assert(parallel::flat(parts) =~= parallel::flat(parts.take(i)) + parallel::flat(
            parts.skip(i),
        ));
    }
}

/// Full chunks lie at multiples of their size.
proof fn lemma_full_prefix(chunks: Seq<Seq<u8>>, size: int, k: int)
    requires
        0 <= k < chunks.len(),
        forall|i: int| 0 <= i < chunks.len() - 1 ==> (#[trigger] chunks[i]).len() == size,
    ensures
        parallel::flat(chunks.take(k)).len() == k * size,
    decreases k,
{
    if k == 0 {
        assert(chunks.take(0) =~= Seq::<Seq<u8>>::empty());
        assert(0 * size == 0) by (nonlinear_arith);
    } else {
        lemma_full_prefix(chunks, size, k - 1);
        assert(chunks.take(k).drop_last() =~= chunks.take(k - 1));
        assert(chunks.take(k).last() == chunks[k - 1]);
        assert((k - 1) * size + size == k * size) by (nonlinear_arith);
    }
}

/// Where a chunk lies in the input.
proof fn lemma_chunk_place(chunks: Seq<Seq<u8>>, size: int, i: int)
    requires
        0 <= i < chunks.len(),
        size > 0,
        forall|j: int| 0 <= j < chunks.len() ==> 0 < (#[trigger] chunks[j]).len() <= size,
        forall|j: int| 0 <= j < chunks.len() - 1 ==> (#[trigger] chunks[j]).len() == size,
    ensures
        chunks[i] == chunk::chunk_at(parallel::flat(chunks), size, i),
        i == chunks.len() - 1 ==> chunks.len() == chunk::chunk_count(
            parallel::flat(chunks).len() as int,
            size,
        ),
{
    let all = parallel::flat(chunks);
    let before = parallel::flat(chunks.take(i));
    let after = parallel::flat(chunks.skip(i + 1));
    lemma_flat_split(chunks, i + 1);
    assert(chunks.take(i + 1).drop_last() =~= chunks.take(i));
    assert(chunks.take(i + 1).last() == chunks[i]);
    assert(all == before + chunks[i] + after);
    lemma_full_prefix(chunks, size, i);
    assert(i * size + size == (i + 1) * size) by (nonlinear_arith);
    assert(all.subrange(before.len() as int, (before.len() + chunks[i].len()) as int)
        =~= chunks[i]);
    if i == chunks.len() - 1 {
        assert(chunks.skip(i + 1) =~= Seq::<Seq<u8>>::empty());
        chunk::lemma_chunk_index(all.len() as int, size, i);
    } else {
        parallel_decompress::lemma_flat_first(chunks.skip(i + 1));
        assert(chunks.skip(i + 1)[0] == chunks[i + 1]);
        assert(chunks[i].len() == size);
        assert(chunks[i + 1].len() > 0);
    }
}

/// What a writer has done when it is done: the input was cut into chunks of the
/// full size, but perhaps the last, none of them empty, and what was written is
/// what the workers made of these chunks, in order, each once, whatever order
/// they ended in.
pub proof fn law_finished_stream<E>(
    w: ParallelChunkedWriter<E>,
    member_of: spec_fn(Seq<u8>) -> Seq<u8>,
)
    requires
        complete(w),
        forall|i: int|
            w@.members.contains_key(i) ==> #[trigger] w@.members[i] == member_of(w@.chunks[i]),
    ensures
        w@.chunks.len() == chunk::chunk_count(w@.accepted.len() as int, w.size() as int),
        forall|i: int|
            0 <= i < w@.chunks.len() ==> (#[trigger] w@.chunks[i]).len() > 0 && w@.chunks[i]
                == chunk::chunk_at(w@.accepted, w.size() as int, i),
        parallel::flat(w@.written) == parallel::flat(
            Seq::new(w@.chunks.len(), |i: int| member_of(w@.chunks[i])),
        ),
{
    lemma_complete(w);
    parallel::law_chunks_make_up_the_input(w);
    parallel::law_size_is_positive(w);
    let chunks = w@.chunks;
    let size = w.size() as int;
    assert forall|i: int| 0 <= i < chunks.len() implies (#[trigger] chunks[i]).len() > 0
        && chunks[i] == chunk::chunk_at(w@.accepted, size, i) by {
        lemma_chunk_place(chunks, size, i);
    }
    if chunks.len() > 0 {
        lemma_chunk_place(chunks, size, chunks.len() - 1);
    } else {
        assert((size - 1) / size == 0) by (nonlinear_arith)
            requires
                size > 0,
        ;
    }
    let made = Seq::new(chunks.len(), |i: int| member_of(chunks[i]));
    assert forall|i: int| 0 <= i < made.len() implies w@.written[i] == #[trigger] made[i] by {
        assert(w@.written[i] == w@.members[i]);
    }
    assert(w@.written =~= made);
}

} // verus!
