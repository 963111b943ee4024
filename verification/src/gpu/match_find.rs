//! Match finding on the device: what a run is given, and what comes back.
use crate::gpu::dispatch;
use crate::gpu::identity;
use crate::gpu::lz77;
use crate::gpu::lz77::{Token, MAX_MATCH, MIN_MATCH};
use vstd::prelude::*;

verus! {

/// The hash table has `2^HASH_BITS` buckets.
pub const HASH_BITS: u32 = 16;

/// How many buckets the hash table has.
pub const HASH_BUCKETS: usize = 65536;

/// Default look-back window of the hashed match search.
pub const HASH_WINDOW: u32 = 32768;

/// How many candidates the hashed match search looks at.
pub const MAX_CHAIN: u32 = 1024;

/// The most chunks that go into one submission.
pub const MAX_BATCH: usize = 8;

/// The longest input of one run: its tokens, eight bytes each, and its padded
/// size stay within what a device addresses.
pub const MAX_INPUT: usize = 0x1fff_fffc;

/// The parameters of the exhaustive search.
#[derive(Debug, Clone, Copy, PartialEq, Eq, Structural)]
pub struct SearchParams {
    pub input_len: u32,
    pub window: u32,
    pub min_match: u32,
    pub max_match: u32,
}

/// What a run of the exhaustive search is given.
pub struct SearchRun {
    pub input_padded: Vec<u8>,
    pub token_bytes: u64,
    pub params: SearchParams,
    pub workgroups: u32,
}

/// Plans a run of the exhaustive search, unless there is no input.
pub fn plan_search(input: &[u8], window: u32) -> (r: Option<SearchRun>)
    requires
        input@.len() <= MAX_INPUT,
    ensures
        r is None <==> input@.len() == 0,
        r matches Some(run) ==> {
            &&& run.input_padded@ == identity::padded_to_words(input@)
            &&& run.token_bytes == 8 * input@.len()
            &&& run.params == (SearchParams {
                input_len: input@.len() as u32,
                window,
                min_match: 3,
                max_match: 258,
            })
            &&& run.workgroups == dispatch::ceil_div(input@.len() as int, 64)
        },
{
    let n: usize = input.len();
    if n == 0 {
        return None;
    }
    Some(
        SearchRun {
            input_padded: identity::pad_to_u32(input),
            token_bytes: n as u64 * 8,
            params: SearchParams {
                input_len: n as u32,
                window,
                min_match: MIN_MATCH,
                max_match: MAX_MATCH,
            },
            workgroups: dispatch::div_ceil(n as u64, 64) as u32,
        },
    )
}

/// The parameters of the hashed search.
#[derive(Debug, Clone, Copy, PartialEq, Eq, Structural)]
pub struct HashParams {
    pub input_len: u32,
    pub hash_bits: u32,
    pub window: u32,
    pub min_match: u32,
    pub max_match: u32,
    pub max_chain: u32,
}

/// What a run of the hashed search is given.
pub struct HashRun {
    /// How many input bytes its buffers must serve.
    pub capacity: usize,
    pub input_padded: Vec<u8>,
    pub token_bytes: u64,
    pub params: HashParams,
    /// Workgroups of the build pass and of the lookup pass.
    pub workgroups: u32,
}

impl HashRun {
    /// The run is the one for this input.
    pub open spec fn searches(&self, input: Seq<u8>, window: u32, capacity: int) -> bool {
        &&& self.capacity == capacity
        &&& self.input_padded@ == identity::padded_to_words(input)
        &&& self.token_bytes == 8 * input.len()
        &&& self.params == (HashParams {
            input_len: input.len() as u32,
            hash_bits: 16,
            window,
            min_match: 3,
            max_match: 258,
            max_chain: 1024,
        })
        &&& self.workgroups == dispatch::ceil_div(input.len() as int, 64)
    }
}

fn hash_run(input: &[u8], window: u32, capacity: usize) -> (r: HashRun)
    requires
        input@.len() <= MAX_INPUT,
    ensures
        r.searches(input@, window, capacity as int),
{
    let n: usize = input.len();
    HashRun {
        capacity,
        input_padded: identity::pad_to_u32(input),
        token_bytes: n as u64 * 8,
        params: HashParams {
            input_len: n as u32,
            hash_bits: HASH_BITS,
            window,
            min_match: MIN_MATCH,
            max_match: MAX_MATCH,
            max_chain: MAX_CHAIN,
        },
        workgroups: dispatch::div_ceil(n as u64, 64) as u32,
    }
}

/// Plans a run of the hashed search, unless there is no input.
pub fn plan_match_find(input: &[u8], window: u32) -> (r: Option<HashRun>)
    requires
        input@.len() <= MAX_INPUT,
    ensures
        r is None <==> input@.len() == 0,
        r matches Some(run) ==> run.searches(input@, window, input@.len() as int),
{
    if input.len() == 0 {
        None
    } else {
        Some(hash_run(input, window, input.len()))
    }
}

/// The buffers of a chunk in a batch serve at least one word.
pub open spec fn batch_capacity(len: int) -> int {
    if len < 4 {
        4
    } else {
        len
    }
}

/// Plans the runs of one submission, one per chunk.
pub fn plan_match_find_batch(inputs: &[Vec<u8>], window: u32) -> (r: Vec<HashRun>)
    requires
        forall|i: int| 0 <= i < inputs@.len() ==> (#[trigger] inputs@[i])@.len() <= MAX_INPUT,
    ensures
        r@.len() == inputs@.len(),
        forall|i: int|
            0 <= i < inputs@.len() ==> (#[trigger] r@[i]).searches(
                inputs@[i]@,
                window,
                batch_capacity(inputs@[i]@.len() as int),
            ),
{
    let mut runs: Vec<HashRun> = Vec::with_capacity(inputs.len());
    let mut i: usize = 0;
    while i < inputs.len()
        invariant
            i <= inputs@.len(),
            forall|k: int| 0 <= k < inputs@.len() ==> (#[trigger] inputs@[k])@.len() <= MAX_INPUT,
            runs@.len() == i,
            forall|k: int|
                0 <= k < i ==> (#[trigger] runs@[k]).searches(
                    inputs@[k]@,
                    window,
                    batch_capacity(inputs@[k]@.len() as int),
                ),
        decreases inputs@.len() - i,
    {
        let n: usize = inputs[i].len();
        let capacity: usize = if n < 4 {
            4
        } else {
            n
        };
        assert(inputs@[i as int]@.len() <= MAX_INPUT);
        runs.push(hash_run(inputs[i].as_slice(), window, capacity));
        i = i + 1;
    }
    runs
}

/// The sizes of the buffers that serve a chunk.
#[derive(Debug, Clone, Copy, PartialEq, Eq, Structural)]
pub struct BufferSizes {
    pub input: u64,
    pub heads: u64,
    pub next: u64,
    pub tokens: u64,
}

/// Sizes the buffers for chunks of up to `capacity` bytes: one word per bucket,
/// one per position, two per token.
pub fn buffer_sizes(capacity: usize) -> (r: BufferSizes)
    requires
        capacity <= MAX_INPUT,
    ensures
        r.input == 4 * dispatch::ceil_div(capacity as int, 4),
        r.heads == 4 * 65536,
        r.next == 4 * r.input,
        r.tokens == 8 * capacity,
{
    let padded: u64 = 4 * dispatch::div_ceil(capacity as u64, 4);
    BufferSizes {
        input: padded,
        heads: HASH_BUCKETS as u64 * 4,
        next: padded * 4,
        tokens: capacity as u64 * 8,
    }
}

/// The tokens that pairs of words hold: the length, then the distance.
pub open spec fn tokens_of_words(words: Seq<u32>) -> Seq<Token> {
    Seq::new(
        words.len() / 2,
        |i: int| Token { length: words[2 * i], distance: words[2 * i + 1] },
    )
}

/// Reads the tokens that came back from the device.
pub fn read_tokens(words: &[u32]) -> (r: Vec<Token>)
    ensures
        r@ == tokens_of_words(words@),
{
    let total: usize = words.len();
    let n: usize = total / 2;
    let mut out: Vec<Token> = Vec::with_capacity(n);
    let mut i: usize = 0;
    while i < n
        invariant
            i <= n == total / 2,
            total == words@.len(),
            out@.len() == i,
            forall|k: int|
                0 <= k < i ==> #[trigger] out@[k] == (Token {
                    length: words@[2 * k],
                    distance: words@[2 * k + 1],
                }),
        decreases n - i,
    {
        out.push(Token { length: words[2 * i], distance: words[2 * i + 1] });
        i = i + 1;
    }
    assert(out@ =~= tokens_of_words(words@));
    out
}

/// A batch keeps the chunks apart and in order: each run is that of its own
/// chunk, and where the words that come back from it hold a true match for each
/// position, the walk over them stands for that chunk.
pub proof fn law_batch_reconstructs(
    inputs: Seq<Seq<u8>>,
    window: u32,
    runs: Seq<HashRun>,
    words: Seq<Seq<u32>>,
)
    requires
        runs.len() == inputs.len(),
        words.len() == inputs.len(),
        forall|i: int|
            0 <= i < inputs.len() ==> (#[trigger] runs[i]).searches(
                inputs[i],
                window,
                batch_capacity(inputs[i].len() as int),
            ),
        forall|i: int| 0 <= i < inputs.len() ==> inputs[i].len() <= MAX_INPUT,
        forall|i: int|
            0 <= i < inputs.len() ==> (#[trigger] words[i]).len() * 4 == runs[i].token_bytes
                && lz77::matches_input(tokens_of_words(words[i]), inputs[i]),
    ensures
        forall|i: int|
            0 <= i < inputs.len() ==> {
                let found = tokens_of_words(#[trigger] words[i]);
                &&& found.len() == runs[i].params.input_len
                &&& found.len() == inputs[i].len()
                &&& lz77::expand(lz77::lazy_tokens(found, inputs[i], 0)) == inputs[i]
            },
{
    assert forall|i: int| 0 <= i < inputs.len() implies {
        let found = tokens_of_words(#[trigger] words[i]);
        &&& found.len() == runs[i].params.input_len
        &&& found.len() == inputs[i].len()
        &&& lz77::expand(lz77::lazy_tokens(found, inputs[i], 0)) == inputs[i]
    } by {
        assert(runs[i].searches(inputs[i], window, batch_capacity(inputs[i].len() as int)));
        lz77::law_walk_reconstructs(tokens_of_words(words[i]), inputs[i]);
    }
}

/// Whether a batch of this size takes another chunk from the queue.
pub fn takes_more(batch_len: usize) -> (r: bool)
    ensures
        r == (batch_len < 8),
{
    batch_len < MAX_BATCH
}

/// A search is given the whole input, filled up with zeros to whole words, and
/// looks for matches of 3 to 258 bytes within the window. There is a thread for
/// each position and room for a token of two words at each.
pub proof fn law_searches_cover_the_input(
    input: &[u8],
    window: u32,
    exhaustive: Option<SearchRun>,
    hashed: Option<HashRun>,
)
    requires
        input@.len() <= MAX_INPUT,
        call_ensures(plan_search, (input, window), exhaustive),
        call_ensures(plan_match_find, (input, window), hashed),
    ensures
        exhaustive is None <==> input@.len() == 0,
        hashed is None <==> input@.len() == 0,
        exhaustive matches Some(run) ==> {
            &&& run.input_padded@.len() % 4 == 0
            &&& run.input_padded@.len() < input@.len() + 4
            &&& run.input_padded@.take(input@.len() as int) == input@
            &&& run.token_bytes == 8 * input@.len()
            &&& run.params.input_len == input@.len()
            &&& run.params.window == window
            &&& run.params.min_match == 3
            &&& run.params.max_match == 258
            &&& 64 * run.workgroups >= input@.len()
            &&& 64 * (run.workgroups - 1) < input@.len()
        },
        hashed matches Some(run) ==> {
            &&& run.capacity == input@.len()
            &&& run.input_padded@.len() % 4 == 0
            &&& run.input_padded@.len() < input@.len() + 4
            &&& run.input_padded@.take(input@.len() as int) == input@
            &&& run.token_bytes == 8 * input@.len()
            &&& run.params.input_len == input@.len()
            &&& run.params.hash_bits == 16
            &&& run.params.window == window
            &&& run.params.min_match == 3
            &&& run.params.max_match == 258
            &&& run.params.max_chain == 1024
            &&& 64 * run.workgroups >= input@.len()
            &&& 64 * (run.workgroups - 1) < input@.len()
        },
{
    identity::law_identity_round_trip(input@);
}

/// The runs of a batch are those of its chunks, each as it would be alone but for
/// buffers that serve one word at least.
pub proof fn law_a_batch_is_its_chunks(
    inputs: &[Vec<u8>],
    window: u32,
    runs: Vec<HashRun>,
    i: int,
    alone: Option<HashRun>,
)
    requires
        forall|k: int| 0 <= k < inputs@.len() ==> (#[trigger] inputs@[k])@.len() <= MAX_INPUT,
        call_ensures(plan_match_find_batch, (inputs, window), runs),
        0 <= i < inputs@.len(),
        exists|input: &[u8]|
            input@ == inputs@[i]@ && #[trigger] call_ensures(
                plan_match_find,
                (input, window),
                alone,
            ),
    ensures
        runs@.len() == inputs@.len(),
        runs@[i].capacity >= 4 && runs@[i].capacity >= inputs@[i]@.len(),
        inputs@[i]@.len() >= 4 ==> runs@[i].capacity == inputs@[i]@.len(),
        alone matches Some(run) ==> {
            &&& runs@[i].input_padded@ == run.input_padded@
            &&& runs@[i].token_bytes == run.token_bytes
            &&& runs@[i].params == run.params
            &&& runs@[i].workgroups == run.workgroups
        },
{
    assert(runs@[i].searches(inputs@[i]@, window, batch_capacity(inputs@[i]@.len() as int)));
}

/// A token is read from two words: the length, then the distance.
pub proof fn law_tokens_are_pairs_of_words(words: &[u32], r: Vec<Token>)
    requires
        call_ensures(read_tokens, (words,), r),
    ensures
        r@.len() == words@.len() / 2,
        forall|i: int|
            0 <= i < r@.len() ==> (#[trigger] r@[i]).length == words@[2 * i] && r@[i].distance
                == words@[2 * i + 1],
{
}

/// The window of the hashed search reaches as far back as DEFLATE allows, and a
/// submission has up to eight chunks.
pub proof fn law_search_limits(batch: usize, more: bool)
    requires
        call_ensures(takes_more, (batch,), more),
    ensures
        HASH_WINDOW == 32768,
        HASH_BUCKETS == 65536,
        more <==> batch < 8,
{
}

} // verus!
