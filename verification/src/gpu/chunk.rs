//! Chunks of the input and the members that they become.
use crate::cpu::parallel;
use vstd::prelude::*;

verus! {

/// One chunk of the input and its place.
#[derive(Debug, Clone)]
pub struct ChunkJob {
    pub index: u32,
    pub bytes: Vec<u8>,
}

/// Who compressed a chunk.
#[derive(Debug, Clone, Copy, PartialEq, Eq, Structural)]
pub enum ChunkBackend {
    Cpu,
    Gpu,
}

/// A compressed chunk and its place.
#[derive(Debug, Clone)]
pub struct ChunkMember {
    pub index: u32,
    pub backend: ChunkBackend,
    pub raw_len: u32,
    pub payload: Vec<u8>,
    pub crc32: u32,
}

/// Default chunk size: 2 MiB.
pub const DEFAULT_HOST_CHUNK_SIZE: usize = 2097152;

/// The bytes of the `i`-th chunk.
pub open spec fn chunk_at(input: Seq<u8>, chunk_size: int, i: int) -> Seq<u8> {
    let start = i * chunk_size;
    let end = start + chunk_size;
    input.subrange(
        start,
        if end < input.len() {
            end
        } else {
            input.len() as int
        },
    )
}

/// How many chunks the input is cut into.
pub open spec fn chunk_count(len: int, chunk_size: int) -> int {
    (len + chunk_size - 1) / chunk_size
}

/// The bytes of the first `k` jobs, one after the other.
pub open spec fn joined(jobs: Seq<ChunkJob>, k: nat) -> Seq<u8>
    decreases k,
{
    if k == 0 {
        Seq::empty()
    } else {
        joined(jobs, (k - 1) as nat) + jobs[k - 1].bytes@
    }
}

/// The jobs cut the input: all chunks but the last have the full size, indices
/// count up from 0 (in 32 bits), and the chunks in order make up the input.
pub open spec fn cuts(jobs: Seq<ChunkJob>, input: Seq<u8>, chunk_size: int) -> bool {
    &&& jobs.len() == chunk_count(input.len() as int, chunk_size)
    &&& forall|i: int|
        0 <= i < jobs.len() ==> {
            &&& (#[trigger] jobs[i]).index == i % 0x1_0000_0000
            &&& jobs[i].bytes@ == chunk_at(input, chunk_size, i)
        }
    &&& joined(jobs, jobs.len()) == input
}

proof fn lemma_joined_push(jobs: Seq<ChunkJob>, job: ChunkJob, k: nat)
    requires
        k <= jobs.len(),
    ensures
        joined(jobs.push(job), k) == joined(jobs, k),
    decreases k,
{
    if k > 0 {
        lemma_joined_push(jobs, job, (k - 1) as nat);
    }
}

/// Cuts an input into independent chunks.
pub fn plan_chunks(input: &[u8], chunk_size: usize) -> (r: Vec<ChunkJob>)
    requires
        chunk_size > 0 || input@.len() == 0,
    ensures
        input@.len() == 0 ==> r@.len() == 0,
        input@.len() > 0 ==> cuts(r@, input@, chunk_size as int),
{
    let n: usize = input.len();
    if n == 0 {
        return Vec::new();
    }
    let ghost size = chunk_size as int;
    let mut jobs: Vec<ChunkJob> = Vec::new();
    let mut start: usize = 0;
    proof {
        assert(0 * size == 0) by (nonlinear_arith);
        assert(joined(jobs@, 0) =~= input@.take(0));
    }
    while start < n
        invariant
            start <= n == input@.len(),
            n > 0,
            size == chunk_size > 0,
            start < n ==> start == jobs@.len() * size,
            start == n ==> jobs@.len() == chunk_count(n as int, size),
            forall|i: int|
                0 <= i < jobs@.len() ==> {
                    &&& (#[trigger] jobs@[i]).index == i % 0x1_0000_0000
                    &&& jobs@[i].bytes@ == chunk_at(input@, size, i)
                },
            joined(jobs@, jobs@.len()) == input@.take(start as int),
        decreases n - start,
    {
        let end: usize = if chunk_size < n - start {
            start + chunk_size
        } else {
            n
        };
        let ghost count = jobs@.len();
        proof {
            lemma_chunk_index(n as int, size, count as int);
        }
        let bytes = vstd::slice::slice_to_vec(vstd::slice::slice_subrange(input, start, end));
        let index: u32 = (jobs.len() as u64 % 0x1_0000_0000) as u32;
        let job = ChunkJob { index, bytes };
        proof {
            assert(job.bytes@ =~= chunk_at(input@, size, count as int));
            lemma_joined_push(jobs@, job, count);
            assert(input@.take(start as int) + job.bytes@ =~= input@.take(end as int));
            assert((count + 1) * size == count * size + size) by (nonlinear_arith);
        }
        jobs.push(job);
        start = end;
    }
    assert(input@.take(n as int) =~= input@);
    jobs
}

/// The `i`-th chunk is there if the input reaches into it, and is the last if the
/// input ends in it.
pub proof fn lemma_chunk_index(n: int, size: int, i: int)
    requires
        size > 0,
        0 <= i,
        i * size < n,
    ensures
        i < chunk_count(n, size),
        (i + 1) * size >= n ==> i + 1 == chunk_count(n, size),
{
    let c = chunk_count(n, size);
    vstd::arithmetic::div_mod::lemma_fundamental_div_mod(n + size - 1, size);
    let r = (n + size - 1) % size;
    assert(i < c) by (nonlinear_arith)
        requires
            n + size - 1 == size * c + r,
            0 <= r < size,
            i * size < n,
            size > 0,
    ;
    if (i + 1) * size >= n {
        assert(i + 1 >= c) by (nonlinear_arith)
            requires
                n + size - 1 == size * c + r,
                0 <= r < size,
                (i + 1) * size >= n,
                size > 0,
        ;
    }
}

proof fn lemma_joined_flat(jobs: Seq<ChunkJob>, k: nat)
    requires
        k <= jobs.len(),
    ensures
        joined(jobs, k) == parallel::flat(Seq::new(k, |i: int| jobs[i].bytes@)),
    decreases k,
{
    let all = Seq::new(k, |i: int| jobs[i].bytes@);
    if k > 0 {
        lemma_joined_flat(jobs, (k - 1) as nat);
        assert(all.drop_last() =~= Seq::new((k - 1) as nat, |i: int| jobs[i].bytes@));
    }
}

/// Cutting loses nothing: the chunks, in order, are the input. They are numbered
/// from 0, none is empty, all but the last are of the full size, and the last is
/// no longer.
pub proof fn law_chunks_are_the_input(input: &[u8], chunk_size: usize, r: Vec<ChunkJob>)
    requires
        chunk_size > 0,
        call_ensures(plan_chunks, (input, chunk_size), r),
    ensures
        parallel::flat(Seq::new(r@.len(), |i: int| r@[i].bytes@)) == input@,
        forall|i: int|
            0 <= i < r@.len() ==> (#[trigger] r@[i]).index == i % 0x1_0000_0000 && 0
                < r@[i].bytes@.len() <= chunk_size,
        forall|i: int|
            0 <= i < r@.len() - 1 ==> (#[trigger] r@[i]).bytes@.len() == chunk_size,
{
    let n = input@.len() as int;
    let size = chunk_size as int;
    if n > 0 {
        lemma_joined_flat(r@, r@.len());
        let c = chunk_count(n, size);
        vstd::arithmetic::div_mod::lemma_fundamental_div_mod(n + size - 1, size);
        assert forall|i: int| 0 <= i < r@.len() implies (#[trigger] r@[i]).index == i
            % 0x1_0000_0000 && 0 < r@[i].bytes@.len() <= chunk_size && (i < r@.len() - 1
            ==> r@[i].bytes@.len() == chunk_size) by {
            let m = (n + size - 1) % size;
            assert(i * size < n) by (nonlinear_arith)
                requires
                    n + size - 1 == size * c + m,
                    0 <= m < size,
                    0 <= i < c,
            ;
            if i < c - 1 {
                assert(i * size + size < n) by (nonlinear_arith)
                    requires
                        n + size - 1 == size * c + m,
                        0 <= m < size,
                        0 <= i < c - 1,
                ;
            }
            assert(i * size >= 0) by (nonlinear_arith)
                requires
                    0 <= i,
                    size > 0,
            ;
            assert(r@[i].bytes@ == chunk_at(input@, size, i));
        }
    } else {
        assert(Seq::new(r@.len(), |i: int| r@[i].bytes@) =~= Seq::<Seq<u8>>::empty());
        assert(input@ =~= Seq::<u8>::empty());
    }
}

} // verus!
