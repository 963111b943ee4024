//! Chunk-parallel compression: which chunks go to the workers, and in which
//! order their members are written.
//!
//! The input is cut into chunks of a fixed size. Workers turn each chunk into a
//! member that can be decoded on its own, and finish in any order. The members
//! are written in the order of the chunks, so that their concatenation is a
//! valid stream for standard tools. A bound on the chunks under way keeps
//! memory use predictable.
//!
//! `ParallelChunkedWriter` takes the decisions. Whoever drives it runs the
//! workers, hands their results back and does the writing.
use std::collections::BTreeMap;
use vstd::prelude::*;

verus! {

/// The pieces, one after the other.
pub open spec fn flat(pieces: Seq<Seq<u8>>) -> Seq<u8>
    decreases pieces.len(),
{
    if pieces.len() == 0 {
        Seq::empty()
    } else {
        flat(pieces.drop_last()) + pieces.last()
    }
}

/// What has happened to a writer so far.
#[verifier::ext_equal]
pub struct ChunkLog {
    /// The bytes taken in.
    pub accepted: Seq<u8>,
    /// The chunks handed to workers, by index.
    pub chunks: Seq<Seq<u8>>,
    /// The chunks whose result has not come back.
    pub outstanding: Set<int>,
    /// The members that came back, by chunk.
    pub members: Map<int, Seq<u8>>,
    /// The members that have been written, in order.
    pub written: Seq<Seq<u8>>,
    /// Whether the next member is being written.
    pub writing: bool,
}

/// Results come from chunks that were handed out, at most one from each.
spec fn results_ok(log: ChunkLog) -> bool {
    &&& log.outstanding.finite()
    &&& forall|i: int| #[trigger] log.outstanding.contains(i) ==> 0 <= i < log.chunks.len()
    &&& forall|i: int| #[trigger] log.members.contains_key(i) ==> 0 <= i < log.chunks.len()
    &&& forall|i: int|
        !(#[trigger] log.members.contains_key(i) && #[trigger] log.outstanding.contains(i))
}

/// What was written are the members of the first chunks.
spec fn written_ok(log: ChunkLog) -> bool {
    &&& log.written.len() <= log.chunks.len()
    &&& forall|i: int| 0 <= i < log.written.len() ==> #[trigger] log.members.contains_key(i)
    &&& forall|i: int|
        0 <= i < log.written.len() ==> #[trigger] log.written[i] == log.members[i]
    &&& log.writing ==> log.members.contains_key(log.written.len() as int)
}

/// A member waits to be written.
spec fn waits(log: ChunkLog, i: int) -> bool {
    &&& log.members.contains_key(i)
    &&& log.written.len() <= i
    &&& !(log.writing && i == log.written.len())
}

/// The members that wait to be written are kept.
spec fn pending_ok(pending: Map<u32, Vec<u8>>, log: ChunkLog) -> bool {
    &&& forall|k: u32| #[trigger] pending.contains_key(k) ==> waits(log, k as int)
    &&& forall|k: u32| waits(log, k as int) ==> #[trigger] pending.contains_key(k)
    &&& forall|k: u32| #[trigger]
        pending.contains_key(k) ==> pending[k]@ == log.members[k as int]
}

/// Every chunk is under way or has its member.
spec fn all_known(log: ChunkLog) -> bool {
    forall|i: int|
        0 <= i < log.chunks.len() ==> #[trigger] log.outstanding.contains(i)
            || log.members.contains_key(i)
}

/// No chunk is empty or too long, and all but the last are full.
pub open spec fn chunks_fit(chunks: Seq<Seq<u8>>, size: nat) -> bool {
    &&& forall|i: int| 0 <= i < chunks.len() ==> 0 < (#[trigger] chunks[i]).len() <= size
    &&& forall|i: int| 0 <= i < chunks.len() - 1 ==> (#[trigger] chunks[i]).len() == size
}

/// All chunks are full.
pub open spec fn chunks_full(chunks: Seq<Seq<u8>>, size: nat) -> bool {
    forall|i: int| 0 <= i < chunks.len() ==> (#[trigger] chunks[i]).len() == size
}

/// The state of a chunk-parallel writer. `E` is what a failure is told by.
pub struct ParallelChunkedWriter<E> {
    current: Vec<u8>,
    chunk_size: usize,
    next_index: u32,
    write_index: u32,
    pending: BTreeMap<u32, Vec<u8>>,
    in_flight: usize,
    max_in_flight: usize,
    finalized: bool,
    sticky_err: Option<E>,
    log: Ghost<ChunkLog>,
}

/// What there is to do next.
pub enum Action {
    /// Write this member.
    Write(Vec<u8>),
    /// Wait for the result of some chunk.
    Wait,
    /// Nothing, for now.
    Idle,
}

impl<E> View for ParallelChunkedWriter<E> {
    type V = ChunkLog;

    closed spec fn view(&self) -> ChunkLog {
        self.log@
    }
}

impl<E> ParallelChunkedWriter<E> {
    /// The bytes of the chunk in progress.
    pub closed spec fn partial(&self) -> Seq<u8> {
        self.current@
    }

    /// The size of all chunks but perhaps the last.
    pub closed spec fn size(&self) -> nat {
        self.chunk_size as nat
    }

    /// How many chunks may be under way.
    pub closed spec fn limit(&self) -> nat {
        self.max_in_flight as nat
    }

    /// The first failure.
    pub closed spec fn failure(&self) -> Option<E> {
        self.sticky_err
    }

    /// Whether the end of the input was announced.
    pub closed spec fn ended(&self) -> bool {
        self.finalized
    }

    /// The next member in order has come back and is not being written.
    pub open spec fn can_write(&self) -> bool {
        self@.members.contains_key(self@.written.len() as int) && !self@.writing
    }

    pub closed spec fn wf(&self) -> bool {
        &&& self.chunk_size > 0
        &&& self.max_in_flight > 0
        &&& self.current@.len() <= self.chunk_size
        &&& self.next_index == self.log@.chunks.len()
        &&& self.write_index == self.log@.written.len()
        &&& self.in_flight == self.log@.outstanding.len()
        &&& self.log@.accepted == flat(self.log@.chunks) + self.current@
        &&& results_ok(self.log@)
        &&& written_ok(self.log@)
        &&& pending_ok(self.pending@, self.log@)
        &&& self.sticky_err is None ==> all_known(self.log@)
        &&& chunks_fit(self.log@.chunks, self.chunk_size as nat)
        &&& !self.finalized || self.current@.len() > 0 ==> chunks_full(
            self.log@.chunks,
            self.chunk_size as nat,
        )
    }

    /// A writer that has taken in nothing.
    pub fn new(chunk_size: usize, max_in_flight: usize) -> (r: Self)
        requires
            chunk_size > 0,
            max_in_flight > 0,
        ensures
            r.wf(),
            r.size() == chunk_size,
            r.limit() == max_in_flight,
            r.partial() == Seq::<u8>::empty(),
            r.failure() is None,
            !r.ended(),
            r@ == (ChunkLog {
                accepted: Seq::empty(),
                chunks: Seq::empty(),
                outstanding: Set::empty(),
                members: Map::empty(),
                written: Seq::empty(),
                writing: false,
            }),
    {
        let r = ParallelChunkedWriter {
            current: Vec::new(),
            chunk_size,
            next_index: 0,
            write_index: 0,
            pending: BTreeMap::new(),
            in_flight: 0,
            max_in_flight,
            finalized: false,
            sticky_err: None,
            log: Ghost(
                ChunkLog {
                    accepted: Seq::empty(),
                    chunks: Seq::empty(),
                    outstanding: Set::empty(),
                    members: Map::empty(),
                    written: Seq::empty(),
                    writing: false,
                },
            ),
        };
        assert(flat(Seq::<Seq<u8>>::empty()) + r.current@ =~= Seq::<u8>::empty());
        r
    }

    /// Keeps the first failure, so that all that follows fails too.
    pub fn record(&mut self, e: E)
        requires
            old(self).wf(),
        ensures
            final(self).wf(),
            final(self)@ == old(self)@,
            final(self).partial() == old(self).partial(),
            final(self).size() == old(self).size(),
            final(self).limit() == old(self).limit(),
            final(self).ended() == old(self).ended(),
            final(self).failure() == (match old(self).failure() {
                Some(first) => Some(first),
                None => Some(e),
            }),
    {
        if self.sticky_err.is_none() {
            self.sticky_err = Some(e);
        }
    }

    /// The first failure, if there was one.
    pub fn check_sticky(&self) -> (r: Option<&E>)
        ensures
            match self.failure() {
                Some(e) => r == Some(&e),
                None => r is None,
            },
    {
        self.sticky_err.as_ref()
    }

    /// Takes in as much of `buf` as the chunk in progress has room for.
    pub fn accept(&mut self, buf: &[u8]) -> (taken: usize)
        requires
            old(self).wf(),
            !old(self).ended(),
        ensures
            final(self).wf(),
            taken == (if buf@.len() < old(self).size() - old(self).partial().len() {
                buf@.len() as int
            } else {
                old(self).size() - old(self).partial().len()
            }),
            final(self).partial() == old(self).partial() + buf@.take(taken as int),
            final(self)@ == (ChunkLog {
                accepted: old(self)@.accepted + buf@.take(taken as int),
                ..old(self)@
            }),
            final(self).size() == old(self).size(),
            final(self).limit() == old(self).limit(),
            final(self).ended() == old(self).ended(),
            final(self).failure() == old(self).failure(),
    {
        let space: usize = self.chunk_size - self.current.len();
        let taken: usize = if buf.len() < space {
            buf.len()
        } else {
            space
        };
        let ghost start = self.current@;
        let mut i: usize = 0;
        assert(start + buf@.take(0) =~= start);
        while i < taken
            invariant
                i <= taken <= buf@.len(),
                self.current@ == start + buf@.take(i as int),
                *self == (ParallelChunkedWriter { current: self.current, ..*old(self) }),
            decreases taken - i,
        {
            self.current.push(buf[i]);
            i = i + 1;
            assert(self.current@ =~= start + buf@.take(i as int));
        }
        proof {
            let more = buf@.take(taken as int);
            self.log@.accepted = self.log@.accepted + more;
            assert(flat(self.log@.chunks) + start + more =~= flat(self.log@.chunks) + (start
                + more));
        }
        taken
    }

    /// Whether the chunk in progress is full.
    pub fn chunk_full(&self) -> (r: bool)
        ensures
            r == (self.partial().len() >= self.size()),
    {
        self.current.len() >= self.chunk_size
    }

    /// Announces the end of the input. The first call returns `true`.
    pub fn begin_finalize(&mut self) -> (first: bool)
        requires
            old(self).wf(),
        ensures
            final(self).wf(),
            final(self).ended(),
            first == !old(self).ended(),
            final(self)@ == old(self)@,
            final(self).partial() == old(self).partial(),
            final(self).size() == old(self).size(),
            final(self).limit() == old(self).limit(),
            final(self).failure() == old(self).failure(),
    {
        let first = !self.finalized;
        self.finalized = true;
        first
    }

    /// Hands out the chunk in progress for a worker, with its index. There is
    /// none if no bytes are in progress, or after a failure. Where there was
    /// room for one more chunk under way, the limit is kept.
    pub fn dispatch_current(&mut self) -> (r: Option<(u32, Vec<u8>)>)
        requires
            old(self).wf(),
            old(self).partial().len() == old(self).size() || old(self).ended(),
            old(self)@.chunks.len() < u32::MAX,
        ensures
            final(self).wf(),
            final(self).size() == old(self).size(),
            final(self).limit() == old(self).limit(),
            final(self).ended() == old(self).ended(),
            final(self).failure() == old(self).failure(),
            old(self).failure() is Some || old(self).partial().len() == 0 ==> r is None
                && final(self)@ == old(self)@ && final(self).partial() == old(self).partial(),
            old(self).failure() is None && old(self).partial().len() > 0 ==> {
                let i = old(self)@.chunks.len() as int;
                &&& r matches Some((index, bytes)) && index == i && bytes@ == old(self).partial()
                &&& final(self).partial() == Seq::<u8>::empty()
                &&& final(self)@ == (ChunkLog {
                    chunks: old(self)@.chunks.push(old(self).partial()),
                    outstanding: old(self)@.outstanding.insert(i),
                    ..old(self)@
                })
            },
            old(self)@.outstanding.len() < old(self).limit() ==> final(self)@.outstanding.len()
                <= final(self).limit(),
    {
        if self.sticky_err.is_some() || self.current.len() == 0 {
            return None;
        }
        let ghost log = self.log@;
        let ghost start = self.current@;
        let index: u32 = self.next_index;
        let mut bytes: Vec<u8> = Vec::new();
        std::mem::swap(&mut bytes, &mut self.current);
        proof {
            assert(!log.outstanding.contains(index as int));
            lemma_outstanding_room(log.outstanding, log.chunks.len() as int);
        }
        self.next_index = self.next_index + 1;
        self.in_flight = self.in_flight + 1;
        proof {
            self.log@.chunks = log.chunks.push(start);
            self.log@.outstanding = log.outstanding.insert(index as int);
            assert(log.chunks.push(start).drop_last() =~= log.chunks);
            assert(flat(log.chunks.push(start)) + Seq::<u8>::empty() =~= flat(log.chunks) + start);
        }
        Some((index, bytes))
    }

    /// Takes the result of a chunk back from a worker.
    pub fn complete(&mut self, index: u32, result: Result<Vec<u8>, E>)
        requires
            old(self).wf(),
            old(self)@.outstanding.contains(index as int),
        ensures
            final(self).wf(),
            final(self).partial() == old(self).partial(),
            final(self).size() == old(self).size(),
            final(self).limit() == old(self).limit(),
            final(self).ended() == old(self).ended(),
            match result {
                Ok(bytes) => {
                    &&& final(self).failure() == old(self).failure()
                    &&& final(self)@ == (ChunkLog {
                        outstanding: old(self)@.outstanding.remove(index as int),
                        members: old(self)@.members.insert(index as int, bytes@),
                        ..old(self)@
                    })
                },
                Err(e) => {
                    &&& final(self).failure() == (match old(self).failure() {
                        Some(first) => Some(first),
                        None => Some(e),
                    })
                    &&& final(self)@ == (ChunkLog {
                        outstanding: old(self)@.outstanding.remove(index as int),
                        ..old(self)@
                    })
                },
            },
    {
        let ghost log = self.log@;
        self.in_flight = self.in_flight - 1;
        proof {
            self.log@.outstanding = log.outstanding.remove(index as int);
            assert(log.outstanding.contains(index as int));
            assert(!log.members.contains_key(index as int));
        }
        match result {
            Ok(bytes) => {
                proof {
                    self.log@.members = log.members.insert(index as int, bytes@);
                }
                let ghost kept = self.pending@;
                self.pending.insert(index, bytes);
                proof {
                    let now = self.log@;
                    assert(waits(now, index as int));
                    assert forall|k: u32| #[trigger] self.pending@.contains_key(k) implies waits(
                        now,
                        k as int,
                    ) && self.pending@[k]@ == now.members[k as int] by {
                        if k != index {
                            assert(kept.contains_key(k));
                        }
                    }
                    assert forall|k: u32| waits(now, k as int) implies
                        #[trigger] self.pending@.contains_key(k) by {
                        if k != index {
                            assert(waits(log, k as int));
                            assert(kept.contains_key(k));
                        }
                    }
                }
            },
            Err(e) => {
                if self.sticky_err.is_none() {
                    self.sticky_err = Some(e);
                }
            },
        }
    }

    /// What to do next. While input is still to come it waits only at the limit
    /// of chunks under way; when `draining`, until no chunk is under way. It
    /// never waits in vain, and when it has nothing to do there is room for one
    /// more chunk under way.
    pub fn next_action(&mut self, draining: bool) -> (r: Action)
        requires
            old(self).wf(),
        ensures
            final(self).wf(),
            final(self).partial() == old(self).partial(),
            final(self).size() == old(self).size(),
            final(self).limit() == old(self).limit(),
            final(self).ended() == old(self).ended(),
            final(self).failure() == old(self).failure(),
            old(self).can_write() ==> {
                &&& r matches Action::Write(bytes) && bytes@
                    == old(self)@.members[old(self)@.written.len() as int]
                &&& final(self)@ == (ChunkLog { writing: true, ..old(self)@ })
            },
            !old(self).can_write() ==> {
                let under_way = old(self)@.outstanding.len();
                &&& final(self)@ == old(self)@
                &&& (under_way >= old(self).limit() || (draining && under_way > 0)) ==> r is Wait
                &&& !(under_way >= old(self).limit() || (draining && under_way > 0)) ==> r is Idle
            },
            r is Idle ==> final(self)@.outstanding.len() < final(self).limit(),
            r is Wait ==> final(self)@.outstanding.len() > 0,
    {
        let index: u32 = self.write_index;
        match self.pending.remove(&index) {
            Some(bytes) => {
                proof {
                    self.log@.writing = true;
                }
                Action::Write(bytes)
            },
            None => {
                if self.in_flight >= self.max_in_flight || (draining && self.in_flight > 0) {
                    Action::Wait
                } else {
                    Action::Idle
                }
            },
        }
    }

    /// Notes that the member handed out last was written.
    pub fn wrote(&mut self)
        requires
            old(self).wf(),
            old(self)@.writing,
        ensures
            final(self).wf(),
            final(self).partial() == old(self).partial(),
            final(self).size() == old(self).size(),
            final(self).limit() == old(self).limit(),
            final(self).ended() == old(self).ended(),
            final(self).failure() == old(self).failure(),
            final(self)@ == (ChunkLog {
                written: old(self)@.written.push(
                    old(self)@.members[old(self)@.written.len() as int],
                ),
                writing: false,
                ..old(self)@
            }),
    {
        let ghost log = self.log@;
        let ghost i = log.written.len() as int;
        self.write_index = self.write_index + 1;
        proof {
            self.log@.written = log.written.push(log.members[i]);
            self.log@.writing = false;
        }
    }
}

proof fn lemma_outstanding_room(s: Set<int>, n: int)
    requires
        s.finite(),
        0 <= n,
        forall|i: int| #[trigger] s.contains(i) ==> 0 <= i < n,
    ensures
        s.len() <= n,
{
    let all = vstd::set_lib::set_int_range(0, n);
    vstd::set_lib::lemma_int_range(0, n);
    assert(s.subset_of(all));
    vstd::set_lib::lemma_len_subset(s, all);
}

/// Members come out in the order of the chunks: what has been written are the
/// members of the first chunks, one for one, whatever order the workers
/// finished in.
pub proof fn law_members_in_chunk_order<E>(
    w: ParallelChunkedWriter<E>,
    member_of: spec_fn(Seq<u8>) -> Seq<u8>,
)
    requires
        w.wf(),
        forall|i: int|
            w@.members.contains_key(i) ==> #[trigger] w@.members[i] == member_of(w@.chunks[i]),
    ensures
        w@.written.len() <= w@.chunks.len(),
        forall|i: int|
            0 <= i < w@.written.len() ==> #[trigger] w@.written[i] == member_of(w@.chunks[i]),
{
}

/// Only what workers handed back is written: the members of the first chunks,
/// in order.
pub proof fn law_written_are_members<E>(w: ParallelChunkedWriter<E>)
    requires
        w.wf(),
    ensures
        w@.written.len() <= w@.chunks.len(),
        forall|i: int| 0 <= i < w@.written.len() ==> #[trigger] w@.members.contains_key(i),
        forall|i: int| 0 <= i < w@.written.len() ==> #[trigger] w@.written[i] == w@.members[i],
{
}

/// Chunks lose nothing: in order, with the chunk in progress, they are the
/// bytes taken in. None is empty, none is longer than the chunk size, and all
/// but the last are as long.
pub proof fn law_chunks_make_up_the_input<E>(w: ParallelChunkedWriter<E>)
    requires
        w.wf(),
    ensures
        w@.accepted == flat(w@.chunks) + w.partial(),
        forall|i: int|
            0 <= i < w@.chunks.len() ==> 0 < (#[trigger] w@.chunks[i]).len() <= w.size(),
        forall|i: int|
            0 <= i < w@.chunks.len() - 1 ==> (#[trigger] w@.chunks[i]).len() == w.size(),
{
}

/// Chunks have a size.
pub proof fn law_size_is_positive<E>(w: ParallelChunkedWriter<E>)
    requires
        w.wf(),
    ensures
        w.size() > 0,
        w.limit() > 0,
{
}

/// Nothing is left behind: without a failure, once no chunk is under way and
/// no member can be written, every chunk's member has been written.
pub proof fn law_drained_writer_is_complete<E>(w: ParallelChunkedWriter<E>)
    requires
        w.wf(),
        w.failure() is None,
        w@.outstanding.len() == 0,
        !w@.writing,
        !w.can_write(),
    ensures
        w@.written.len() == w@.chunks.len(),
{
    let i = w@.written.len() as int;
    if i < w@.chunks.len() {
        assert(w.log@.outstanding.contains(i) || w.log@.members.contains_key(i));
        assert(w@.outstanding =~= Set::empty());
    }
}

/// A member can be written as soon as it is the next in order and has come back,
/// whatever is still under way.
pub proof fn law_next_member_can_be_written<E>(w: ParallelChunkedWriter<E>)
    ensures
        w.can_write() <==> w@.members.dom().contains(w@.written.len() as int) && !w@.writing,
{
}

} // verus!
