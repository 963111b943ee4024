//! Selecting tokens on the device: tokens as words, the strict walk, and its
//! division into blocks.
use crate::gpu::dispatch;
use crate::gpu::lz77;
use crate::gpu::lz77::Token;
use vstd::prelude::*;

verus! {

/// How many positions one block of the block-parallel walk has.
pub const BLOCK_SIZE: u32 = 128;

/// The most positions that a walk on the device takes.
pub const MAX_POSITIONS: usize = 0x7fff_0000;

/// A token in one word: the length above, the distance in the lower half.
pub open spec fn packed_word(token: Token) -> int {
    (token.length % 65536) * 65536 + token.distance % 65536
}

/// Packs one token.
pub fn pack_token(token: Token) -> (r: u32)
    ensures
        r == packed_word(token),
{
    (token.length % 65536) * 65536 + token.distance % 65536
}

/// The token that a word holds.
pub open spec fn unpacked_token(word: u32) -> Token {
    Token { length: word / 65536, distance: word % 65536 }
}

/// The tokens as words.
pub open spec fn packed_words(tokens: Seq<Token>) -> Seq<u32> {
    Seq::new(tokens.len(), |i: int| packed_word(tokens[i]) as u32)
}

/// The tokens that words hold.
pub open spec fn unpacked_tokens(words: Seq<u32>) -> Seq<Token> {
    Seq::new(words.len(), |i: int| unpacked_token(words[i]))
}

/// Packs per-position tokens into the words that the device walks.
pub fn pack_per_position(tokens: &[Token]) -> (r: Vec<u32>)
    ensures
        r@ == packed_words(tokens@),
{
    let mut out: Vec<u32> = Vec::with_capacity(tokens.len());
    let mut i: usize = 0;
    while i < tokens.len()
        invariant
            i <= tokens@.len(),
            out@.len() == i,
            forall|k: int| 0 <= k < i ==> #[trigger] out@[k] == packed_word(tokens@[k]),
        decreases tokens@.len() - i,
    {
        out.push(pack_token(tokens[i]));
        i = i + 1;
    }
    assert(out@ =~= packed_words(tokens@));
    out
}

/// Unpacks the words that the device selected.
pub fn unpack_walked(packed: &[u32]) -> (r: Vec<Token>)
    ensures
        r@ == unpacked_tokens(packed@),
{
    let mut out: Vec<Token> = Vec::with_capacity(packed.len());
    let mut i: usize = 0;
    while i < packed.len()
        invariant
            i <= packed@.len(),
            out@.len() == i,
            forall|k: int| 0 <= k < i ==> #[trigger] out@[k] == unpacked_token(packed@[k]),
        decreases packed@.len() - i,
    {
        let w: u32 = packed[i];
        out.push(Token { length: w / 65536, distance: w % 65536 });
        i = i + 1;
    }
    assert(out@ =~= unpacked_tokens(packed@));
    out
}

/// The length and the distance each fit half a word.
pub open spec fn fits_word(token: Token) -> bool {
    token.length < 65536 && token.distance < 65536
}

/// Unpacking undoes packing.
pub proof fn law_unpack_undoes_pack(tokens: Seq<Token>)
    requires
        forall|i: int| 0 <= i < tokens.len() ==> fits_word(#[trigger] tokens[i]),
    ensures
        unpacked_tokens(packed_words(tokens)) == tokens,
{
    assert forall|i: int| 0 <= i < tokens.len() implies #[trigger] unpacked_tokens(
        packed_words(tokens),
    )[i] == tokens[i] by {
        assert(fits_word(tokens[i]));
    }
    assert(unpacked_tokens(packed_words(tokens)) =~= tokens);
}

/// How far the walk goes on from a token.
pub open spec fn token_step(token: Token) -> int {
    if token.is_literal() {
        1
    } else {
        token.length as int
    }
}

/// The tokens that the strict policy selects from position `p` on: every match
/// that is met is taken.
pub open spec fn strict_tokens(per_position: Seq<Token>, p: int) -> Seq<Token>
    decreases
            if p < per_position.len() {
                per_position.len() - p
            } else {
                0
            },
{
    if p < 0 || p >= per_position.len() {
        Seq::empty()
    } else {
        seq![per_position[p]] + strict_tokens(per_position, p + token_step(per_position[p]))
    }
}

/// Walks the per-position matches with the strict policy.
pub fn host_strict_greedy(per_position: &[Token]) -> (r: Vec<Token>)
    ensures
        r@ == strict_tokens(per_position@, 0),
{
    let n: usize = per_position.len();
    let mut out: Vec<Token> = Vec::new();
    let mut p: usize = 0;
    while p < n
        invariant
            p <= n == per_position@.len(),
            out@ + strict_tokens(per_position@, p as int) == strict_tokens(per_position@, 0),
        decreases n - p,
    {
        let t = per_position[p];
        let ghost start = out@;
        let ghost rest = strict_tokens(per_position@, p as int);
        out.push(t);
        if t.is_literal() {
            p = p + 1;
        } else if t.length as usize >= n - p {
            assert(strict_tokens(per_position@, p + t.length) =~= Seq::<Token>::empty());
            p = n;
            assert(strict_tokens(per_position@, p as int) =~= Seq::<Token>::empty());
        } else {
            p = p + t.length as usize;
        }
        assert(out@ + strict_tokens(per_position@, p as int) =~= start + rest);
    }
    assert(out@ + Seq::<Token>::empty() =~= out@);
    out
}

proof fn lemma_strict_tokens(per_position: Seq<Token>, input: Seq<u8>, p: int)
    requires
        lz77::matches_input(per_position, input),
        0 <= p <= input.len(),
    ensures
        lz77::expand_onto(input.take(p), strict_tokens(per_position, p)) == input,
        lz77::reaches_back(input.take(p), strict_tokens(per_position, p)),
    decreases input.len() - p,
{
    let tokens = strict_tokens(per_position, p);
    if p < input.len() {
        let t = per_position[p];
        assert(lz77::token_at(t, input, p));
        let next = p + token_step(t);
        lemma_strict_tokens(per_position, input, next);
        assert(tokens.skip(1) =~= strict_tokens(per_position, next));
        if t.is_literal() {
            assert(input.take(p).push(input[p]) =~= input.take(p + 1));
        } else {
            lz77::lemma_copy_match(input, p, t.distance as nat, t.length as nat);
        }
    } else {
        assert(input.take(p) =~= input);
    }
}

/// What the strict walk selects expands to the input again, wherever the
/// matches are true of the input.
pub proof fn law_strict_walk_reconstructs(per_position: Seq<Token>, input: Seq<u8>)
    requires
        lz77::matches_input(per_position, input),
    ensures
        lz77::reaches_back(Seq::empty(), strict_tokens(per_position, 0)),
        lz77::expand(strict_tokens(per_position, 0)) == input,
{
    lemma_strict_tokens(per_position, input, 0);
    assert(input.take(0) =~= Seq::<u8>::empty());
}

/// The token is the one at the position.
pub open spec fn stands_at(per_position: Seq<Token>, token: Token, at: int) -> bool {
    0 <= at < per_position.len() && token == per_position[at]
}

proof fn lemma_strict_choice(per_position: Seq<Token>, p: int, j: int)
    requires
        0 <= p,
        0 <= j < strict_tokens(per_position, p).len(),
    ensures
        stands_at(
            per_position,
            strict_tokens(per_position, p)[j],
            p + lz77::start_of(strict_tokens(per_position, p), j),
        ),
    decreases j,
{
    let tokens = strict_tokens(per_position, p);
    assert(p < per_position.len());
    if j > 0 {
        let next = p + lz77::span(tokens[0]);
        let more = strict_tokens(per_position, next);
        assert(tokens.skip(1) =~= more);
        lemma_strict_choice(per_position, next, j - 1);
        assert(tokens[j] == more[j - 1]);
    }
}

proof fn lemma_strict_covers(per_position: Seq<Token>, p: int)
    requires
        0 <= p,
    ensures
        p + lz77::start_of(
            strict_tokens(per_position, p),
            strict_tokens(per_position, p).len() as int,
        ) >= per_position.len(),
    decreases
            if p < per_position.len() {
                per_position.len() - p
            } else {
                0
            },
{
    let tokens = strict_tokens(per_position, p);
    if p < per_position.len() {
        let next = p + lz77::span(tokens[0]);
        assert(tokens.skip(1) =~= strict_tokens(per_position, next));
        lemma_strict_covers(per_position, next);
    }
}

/// The strict walk takes whatever stands at each position that it comes to, goes
/// on behind it, and comes to the end.
pub proof fn law_strict_walk_takes_every_match(per_position: &[Token], r: Vec<Token>)
    requires
        call_ensures(host_strict_greedy, (per_position,), r),
    ensures
        forall|j: int|
            0 <= j < r@.len() ==> stands_at(
                per_position@,
                #[trigger] r@[j],
                lz77::start_of(r@, j) as int,
            ),
        lz77::start_of(r@, r@.len() as int) >= per_position@.len(),
{
    assert(r@ == strict_tokens(per_position@, 0));
    assert forall|j: int| 0 <= j < r@.len() implies stands_at(
        per_position@,
        #[trigger] r@[j],
        lz77::start_of(r@, j) as int,
    ) by {
        lemma_strict_choice(per_position@, 0, j);
    }
    lemma_strict_covers(per_position@, 0);
}

/// How far the walk goes on from a word.
pub open spec fn word_step(word: u32) -> int {
    if word / 65536 == 0 {
        1
    } else {
        (word / 65536) as int
    }
}

/// The words that the strict walk selects from `p` on, up to `end`.
pub open spec fn strict_words(words: Seq<u32>, p: int, end: int) -> Seq<u32>
    decreases
            if p < end {
                end - p
            } else {
                0
            },
{
    if p < 0 || p >= words.len() || p >= end {
        Seq::empty()
    } else {
        seq![words[p]] + strict_words(words, p + word_step(words[p]), end)
    }
}

/// Where the strict walk from `p` first stands at or past `end`, or past the
/// last position.
pub open spec fn walk_exit(words: Seq<u32>, p: int, end: int) -> int
    decreases
            if p < end {
                end - p
            } else {
                0
            },
{
    if p < 0 || p >= words.len() || p >= end {
        p
    } else {
        walk_exit(words, p + word_step(words[p]), end)
    }
}

proof fn lemma_packed_walk(tokens: Seq<Token>, p: int)
    requires
        forall|i: int| 0 <= i < tokens.len() ==> fits_word(#[trigger] tokens[i]),
        0 <= p,
    ensures
        unpacked_tokens(strict_words(packed_words(tokens), p, tokens.len() as int))
            == strict_tokens(tokens, p),
    decreases
            if p < tokens.len() {
                tokens.len() - p
            } else {
                0
            },
{
    let words = packed_words(tokens);
    let n = tokens.len() as int;
    if p < n {
        let t = tokens[p];
        assert(fits_word(t));
        assert(word_step(words[p]) == token_step(t));
        let next = p + token_step(t);
        lemma_packed_walk(tokens, next);
        let rest = strict_words(words, next, n);
        assert(unpacked_token(words[p]) == t);
        assert(unpacked_tokens(seq![words[p]] + rest) =~= seq![t] + unpacked_tokens(rest));
    } else {
        assert(unpacked_tokens(Seq::empty()) =~= Seq::<Token>::empty());
    }
}

/// To walk the words is to walk the tokens.
pub proof fn law_packed_walk(tokens: Seq<Token>)
    requires
        forall|i: int| 0 <= i < tokens.len() ==> fits_word(#[trigger] tokens[i]),
    ensures
        unpacked_tokens(strict_words(packed_words(tokens), 0, tokens.len() as int))
            == strict_tokens(tokens, 0),
{
    lemma_packed_walk(tokens, 0);
}

/// A walk can be cut at any position and taken up where the first part ended.
pub proof fn law_walk_splits(words: Seq<u32>, p: int, cut: int, end: int)
    requires
        0 <= p,
        cut <= end,
    ensures
        strict_words(words, p, end) == strict_words(words, p, cut) + strict_words(
            words,
            walk_exit(words, p, cut),
            end,
        ),
        walk_exit(words, p, end) == walk_exit(words, walk_exit(words, p, cut), end),
    decreases
            if p < cut {
                cut - p
            } else {
                0
            },
{
    if p >= words.len() || p >= cut {
        assert(strict_words(words, p, cut) + strict_words(words, p, end) =~= strict_words(
            words,
            p,
            end,
        ));
    } else {
        let next = p + word_step(words[p]);
        law_walk_splits(words, next, cut, end);
        assert(strict_words(words, p, end) =~= strict_words(words, p, cut) + strict_words(
            words,
            walk_exit(words, p, cut),
            end,
        ));
    }
}

proof fn lemma_walk_past_end(words: Seq<u32>, p: int, end: int)
    requires
        0 <= p,
        end >= words.len(),
    ensures
        strict_words(words, p, end) == strict_words(words, p, words.len() as int),
    decreases
            if p < end {
                end - p
            } else {
                0
            },
{
    if p < words.len() {
        lemma_walk_past_end(words, p + word_step(words[p]), end);
    }
}

proof fn lemma_exit_bounds(words: Seq<u32>, p: int, end: int)
    requires
        0 <= p,
    ensures
        walk_exit(words, p, end) >= p,
        walk_exit(words, p, end) >= end || walk_exit(words, p, end) >= words.len(),
        p < words.len() ==> walk_exit(words, p, end) < words.len() + 65536,
        strict_words(words, p, end).len() <= walk_exit(words, p, end) - p,
    decreases
            if p < end {
                end - p
            } else {
                0
            },
{
    if p < words.len() && p < end {
        lemma_exit_bounds(words, p + word_step(words[p]), end);
        let next = p + word_step(words[p]);
        if next >= words.len() {
            assert(walk_exit(words, next, end) == next);
        }
    }
}

/// What a serial walk on the device is given.
pub struct WalkRun {
    pub n_positions: u32,
    pub walked_bytes: u64,
}

/// Plans a serial walk, unless there is nothing to walk.
pub fn plan_walk(words: &[u32]) -> (r: Option<WalkRun>)
    requires
        words@.len() <= MAX_POSITIONS,
    ensures
        r is None <==> words@.len() == 0,
        r matches Some(run) ==> run.n_positions == words@.len() && run.walked_bytes == 4
            * words@.len(),
{
    let n: usize = words.len();
    if n == 0 {
        None
    } else {
        Some(WalkRun { n_positions: n as u32, walked_bytes: n as u64 * 4 })
    }
}

/// What a block-parallel walk on the device is given.
pub struct BlockWalkRun {
    pub n_positions: u32,
    pub n_blocks: u32,
    /// One word per position of every block.
    pub table_bytes: u64,
    /// One word per block.
    pub per_block_bytes: u64,
    pub walked_bytes: u64,
}

/// Plans a block-parallel walk, unless there is nothing to walk.
pub fn plan_block_walk(words: &[u32]) -> (r: Option<BlockWalkRun>)
    requires
        words@.len() <= MAX_POSITIONS,
    ensures
        r is None <==> words@.len() == 0,
        r matches Some(run) ==> {
            &&& run.n_positions == words@.len()
            &&& run.n_blocks == dispatch::ceil_div(words@.len() as int, BLOCK_SIZE as int)
            &&& run.table_bytes == 4 * BLOCK_SIZE * run.n_blocks
            &&& run.per_block_bytes == 4 * run.n_blocks
            &&& run.walked_bytes == 4 * words@.len()
        },
{
    let n: usize = words.len();
    if n == 0 {
        None
    } else {
        let n_blocks: u64 = dispatch::div_ceil(n as u64, BLOCK_SIZE as u64);
        let table_bytes: u64 = n_blocks * 512;
        assert(4 * BLOCK_SIZE == 512);
        assert(n_blocks as u32 == n_blocks);
        Some(
            BlockWalkRun {
                n_positions: n as u32,
                n_blocks: n_blocks as u32,
                table_bytes,
                per_block_bytes: n_blocks * 4,
                walked_bytes: n as u64 * 4,
            },
        )
    }
}

/// Cuts the device's output to the words that it counted.
pub fn finish_walk(walked: &[u32], count: usize) -> (r: Vec<u32>)
    requires
        count <= walked@.len(),
    ensures
        r@ == walked@.take(count as int),
{
    let mut out: Vec<u32> = Vec::with_capacity(count);
    let mut i: usize = 0;
    while i < count
        invariant
            i <= count <= walked@.len(),
            out@ == walked@.take(i as int),
        decreases count - i,
    {
        assert(walked@.take(i as int).push(walked@[i as int]) =~= walked@.take(i + 1));
        out.push(walked[i]);
        i = i + 1;
    }
    out
}

/// The strict walk over words, one position after the other, as a single
/// thread of the device runs it.
pub fn serial_walk(words: &[u32]) -> (r: Vec<u32>)
    ensures
        r@ == strict_words(words@, 0, words@.len() as int),
{
    let n: usize = words.len();
    let mut out: Vec<u32> = Vec::new();
    let mut p: usize = 0;
    while p < n
        invariant
            p <= n == words@.len(),
            out@ + strict_words(words@, p as int, n as int) == strict_words(words@, 0, n as int),
        decreases n - p,
    {
        let w: u32 = words[p];
        let ghost start = out@;
        let ghost rest = strict_words(words@, p as int, n as int);
        out.push(w);
        let len: u32 = w / 65536;
        let step: usize = if len == 0 {
            1
        } else {
            len as usize
        };
        if step >= n - p {
            assert(strict_words(words@, p + step, n as int) =~= Seq::<u32>::empty());
            p = n;
            assert(strict_words(words@, p as int, n as int) =~= Seq::<u32>::empty());
        } else {
            p = p + step;
        }
        assert(out@ + strict_words(words@, p as int, n as int) =~= start + rest);
    }
    assert(out@ + Seq::<u32>::empty() =~= out@);
    out
}

/// The end of the block that position `p` lies in.
pub open spec fn block_end(p: int) -> int {
    (p / 128 + 1) * 128
}

/// First pass of the block-parallel walk: for each position of each block,
/// where a walk that enters there leaves the block, and how many words it
/// selects.
fn block_summary(words: &[u32], n_blocks: usize) -> (r: (Vec<u32>, Vec<u32>))
    requires
        words@.len() <= MAX_POSITIONS,
        n_blocks == dispatch::ceil_div(words@.len() as int, 128),
    ensures
        r.0@.len() == 128 * n_blocks,
        r.1@.len() == 128 * n_blocks,
        forall|p: int|
            0 <= p < 128 * n_blocks ==> #[trigger] r.0@[p] == walk_exit(words@, p, block_end(p)),
        forall|p: int|
            0 <= p < 128 * n_blocks ==> #[trigger] r.1@[p] == strict_words(
                words@,
                p,
                block_end(p),
            ).len(),
{
    let n: usize = words.len();
    let total: usize = n_blocks * 128;
    let mut exits: Vec<u32> = Vec::with_capacity(total);
    let mut counts: Vec<u32> = Vec::with_capacity(total);
    let mut p: usize = 0;
    while p < total
        invariant
            p <= total == 128 * n_blocks,
            n == words@.len() <= MAX_POSITIONS,
            total < n + 128,
            exits@.len() == p,
            counts@.len() == p,
            forall|k: int|
                0 <= k < p ==> #[trigger] exits@[k] == walk_exit(words@, k, block_end(k)),
            forall|k: int|
                0 <= k < p ==> #[trigger] counts@[k] == strict_words(
                    words@,
                    k,
                    block_end(k),
                ).len(),
        decreases total - p,
    {
        let end: usize = (p / 128 + 1) * 128;
        let mut cur: usize = p;
        let mut count: u32 = 0;
        while cur < n && cur < end
            invariant
                p <= cur,
                p < total < n + 128,
                n == words@.len() <= MAX_POSITIONS,
                end == block_end(p as int),
                count <= cur - p,
                cur < n + 65536,
                walk_exit(words@, cur as int, end as int) == walk_exit(
                    words@,
                    p as int,
                    end as int,
                ),
                count + strict_words(words@, cur as int, end as int).len() == strict_words(
                    words@,
                    p as int,
                    end as int,
                ).len(),
            decreases n + 65536 - cur,
        {
            let len: u32 = words[cur] / 65536;
            let step: usize = if len == 0 {
                1
            } else {
                len as usize
            };
            cur = cur + step;
            count = count + 1;
        }
        exits.push(cur as u32);
        counts.push(count);
        p = p + 1;
    }
    (exits, counts)
}

/// Marks a block that the walk jumps over.
const SKIPPED: u32 = 0xffff_ffff;

/// Second pass of the block-parallel walk: for each block, where the walk
/// enters it, and how many words were selected before.
fn chain_blocks(
    exits: &Vec<u32>,
    counts: &Vec<u32>,
    n_blocks: usize,
    Ghost(words): Ghost<Seq<u32>>,
) -> (r: (Vec<u32>, Vec<u32>))
    requires
        words.len() <= MAX_POSITIONS,
        n_blocks == dispatch::ceil_div(words.len() as int, 128),
        exits@.len() == 128 * n_blocks,
        counts@.len() == 128 * n_blocks,
        forall|p: int|
            0 <= p < 128 * n_blocks ==> #[trigger] exits@[p] == walk_exit(words, p, block_end(p)),
        forall|p: int|
            0 <= p < 128 * n_blocks ==> #[trigger] counts@[p] == strict_words(
                words,
                p,
                block_end(p),
            ).len(),
    ensures
        r.0@.len() == n_blocks,
        r.1@.len() == n_blocks,
        forall|b: int|
            0 <= b < n_blocks ==> #[trigger] r.0@[b] == (if walk_exit(words, 0, 128 * b) < 128 * b
                + 128 {
                walk_exit(words, 0, 128 * b)
            } else {
                SKIPPED as int
            }),
        forall|b: int|
            0 <= b < n_blocks ==> #[trigger] r.1@[b] == strict_words(words, 0, 128 * b).len(),
{
    let mut entries: Vec<u32> = Vec::with_capacity(n_blocks);
    let mut offsets: Vec<u32> = Vec::with_capacity(n_blocks);
    let mut cur: u32 = 0;
    let mut total: u32 = 0;
    let mut b: usize = 0;
    while b < n_blocks
        invariant
            b <= n_blocks,
            words.len() <= MAX_POSITIONS,
            n_blocks == dispatch::ceil_div(words.len() as int, 128),
            exits@.len() == 128 * n_blocks,
            counts@.len() == 128 * n_blocks,
            forall|p: int|
                0 <= p < 128 * n_blocks ==> #[trigger] exits@[p] == walk_exit(
                    words,
                    p,
                    block_end(p),
                ),
            forall|p: int|
                0 <= p < 128 * n_blocks ==> #[trigger] counts@[p] == strict_words(
                    words,
                    p,
                    block_end(p),
                ).len(),
            cur == walk_exit(words, 0, 128 * b),
            total == strict_words(words, 0, 128 * b).len(),
            total <= cur,
            entries@.len() == b,
            offsets@.len() == b,
            forall|k: int|
                0 <= k < b ==> #[trigger] entries@[k] == (if walk_exit(words, 0, 128 * k) < 128 * k
                    + 128 {
                    walk_exit(words, 0, 128 * k)
                } else {
                    SKIPPED as int
                }),
            forall|k: int|
                0 <= k < b ==> #[trigger] offsets@[k] == strict_words(words, 0, 128 * k).len(),
        decreases n_blocks - b,
    {
        let end: u32 = 128 * b as u32 + 128;
        let ghost start = 128 * b as int;
        proof {
            lemma_exit_bounds(words, 0, start);
            lemma_exit_bounds(words, 0, start + 128);
            law_walk_splits(words, 0, start, start + 128);
        }
        if cur < end {
            offsets.push(total);
            entries.push(cur);
            proof {
                if cur < start {
                    assert(cur >= words.len());
                    assert(false);
                }
                assert(block_end(cur as int) == end);
            }
            total = total + counts[cur as usize];
            cur = exits[cur as usize];
        } else {
            offsets.push(total);
            entries.push(SKIPPED);
        }
        b = b + 1;
    }
    (entries, offsets)
}

/// Third pass of the block-parallel walk: each block writes the words that it
/// selects behind those of the blocks before it.
fn block_emit(words: &[u32], entries: &Vec<u32>, offsets: &Vec<u32>) -> (r: (Vec<u32>, usize))
    requires
        words@.len() <= MAX_POSITIONS,
        entries@.len() == dispatch::ceil_div(words@.len() as int, 128),
        offsets@.len() == entries@.len(),
        forall|b: int|
            0 <= b < entries@.len() ==> #[trigger] entries@[b] == (if walk_exit(
                words@,
                0,
                128 * b,
            ) < 128 * b + 128 {
                walk_exit(words@, 0, 128 * b)
            } else {
                SKIPPED as int
            }),
        forall|b: int|
            0 <= b < entries@.len() ==> #[trigger] offsets@[b] == strict_words(
                words@,
                0,
                128 * b,
            ).len(),
    ensures
        r.1 <= r.0@.len(),
        r.0@.take(r.1 as int) == strict_words(words@, 0, words@.len() as int),
{
    let n: usize = words.len();
    let n_blocks: usize = entries.len();
    let mut walked: Vec<u32> = vec![0u32; n];
    let mut count: usize = 0;
    let mut b: usize = 0;
    assert(walked@.take(0) =~= strict_words(words@, 0, 0));
    while b < n_blocks
        invariant
            b <= n_blocks == entries@.len(),
            n == words@.len() <= MAX_POSITIONS,
            entries@.len() == dispatch::ceil_div(words@.len() as int, 128),
            offsets@.len() == entries@.len(),
            forall|k: int|
                0 <= k < entries@.len() ==> #[trigger] entries@[k] == (if walk_exit(
                    words@,
                    0,
                    128 * k,
                ) < 128 * k + 128 {
                    walk_exit(words@, 0, 128 * k)
                } else {
                    SKIPPED as int
                }),
            forall|k: int|
                0 <= k < entries@.len() ==> #[trigger] offsets@[k] == strict_words(
                    words@,
                    0,
                    128 * k,
                ).len(),
            walked@.len() == n,
            count == strict_words(words@, 0, 128 * b).len(),
            count <= n,
            walked@.take(count as int) == strict_words(words@, 0, 128 * b),
        decreases n_blocks - b,
    {
        let ghost start = 128 * b as int;
        let ghost done = strict_words(words@, 0, start);
        let end: usize = 128 * b + 128;
        proof {
            lemma_exit_bounds(words@, 0, start);
            law_walk_splits(words@, 0, start, start + 128);
            lemma_selected_fits(words@, 0, start);
        }
        if entries[b] != SKIPPED {
            let mut cur: usize = entries[b] as usize;
            let ghost entry = cur as int;
            let mut at: usize = offsets[b] as usize;
            assert(strict_words(words@, entry, entry) =~= Seq::<u32>::empty());
            while cur < n && cur < end
                invariant
                    n == words@.len() <= MAX_POSITIONS,
                    end == start + 128,
                    cur < n + 65536,
                    walked@.len() == n,
                    done.len() <= at <= n,
                    at <= cur,
                    walked@.take(at as int) + strict_words(words@, cur as int, end as int) == done
                        + strict_words(words@, entry, end as int),
                decreases n + 65536 - cur,
            {
                let w: u32 = words[cur];
                let ghost before = walked@.take(at as int);
                let ghost rest = strict_words(words@, cur as int, end as int);
                walked.set(at, w);
                at = at + 1;
                let len: u32 = w / 65536;
                let step: usize = if len == 0 {
                    1
                } else {
                    len as usize
                };
                cur = cur + step;
                proof {
                    assert(walked@.take(at as int) =~= before.push(w));
                    assert(walked@.take(at as int) + strict_words(words@, cur as int, end as int)
                        =~= before + rest);
                }
            }
            count = at;
            proof {
                assert(strict_words(words@, cur as int, end as int) =~= Seq::<u32>::empty());
                assert(walked@.take(at as int) + Seq::<u32>::empty() =~= walked@.take(at as int));
            }
        } else {
            assert(strict_words(words@, 0, start + 128) =~= done);
        }
        b = b + 1;
    }
    proof {
        lemma_walk_past_end(words@, 0, 128 * n_blocks as int);
    }
    (walked, count)
}

proof fn lemma_selected_fits(words: Seq<u32>, p: int, end: int)
    requires
        0 <= p,
    ensures
        p <= words.len() ==> strict_words(words, p, end).len() <= words.len() - p,
        strict_words(words, p, end).len() <= walk_exit(words, p, end) - p,
    decreases
            if p < end {
                end - p
            } else {
                0
            },
{
    if p < words.len() && p < end {
        let next = p + word_step(words[p]);
        lemma_selected_fits(words, next, end);
        if next >= words.len() {
            assert(strict_words(words, next, end) =~= Seq::<u32>::empty());
        }
    }
}

/// The strict walk over words in blocks, pass by pass as the device runs it.
pub fn block_walk(words: &[u32]) -> (r: Vec<u32>)
    requires
        words@.len() <= MAX_POSITIONS,
    ensures
        r@ == strict_words(words@, 0, words@.len() as int),
{
    match plan_block_walk(words) {
        None => {
            let out: Vec<u32> = Vec::new();
            assert(out@ =~= strict_words(words@, 0, words@.len() as int));
            out
        },
        Some(run) => {
            let n_blocks: usize = run.n_blocks as usize;
            let (exits, counts) = block_summary(words, n_blocks);
            let (entries, offsets) = chain_blocks(&exits, &counts, n_blocks, Ghost(words@));
            let (walked, count) = block_emit(words, &entries, &offsets);
            finish_walk(walked.as_slice(), count)
        },
    }
}

/// What the passes of the device leave: every block's words stand behind those
/// of the blocks before it, from where the walk enters the block, and the count
/// is how many words there are in all.
pub open spec fn blocks_walked(words: Seq<u32>, walked: Seq<u32>, count: int) -> bool {
    let n_blocks = dispatch::ceil_div(words.len() as int, BLOCK_SIZE as int);
    &&& count == strict_words(words, 0, BLOCK_SIZE * n_blocks).len()
    &&& count <= walked.len()
    &&& forall|b: int| 0 <= b < n_blocks ==> #[trigger] block_placed(words, walked, b)
}

/// The words that the walk selects in block `b` stand where they belong.
pub open spec fn block_placed(words: Seq<u32>, walked: Seq<u32>, b: int) -> bool {
    let offset = strict_words(words, 0, BLOCK_SIZE * b).len() as int;
    let selected = strict_words(
        words,
        walk_exit(words, 0, BLOCK_SIZE * b),
        BLOCK_SIZE * (b + 1),
    );
    &&& offset + selected.len() <= walked.len()
    &&& walked.subrange(offset, offset + selected.len()) == selected
}

proof fn lemma_blocks_walked(words: Seq<u32>, walked: Seq<u32>, count: int, b: int)
    requires
        blocks_walked(words, walked, count),
        0 <= b <= dispatch::ceil_div(words.len() as int, BLOCK_SIZE as int),
    ensures
        strict_words(words, 0, BLOCK_SIZE * b).len() <= walked.len(),
        walked.take(strict_words(words, 0, BLOCK_SIZE * b).len() as int) == strict_words(
            words,
            0,
            BLOCK_SIZE * b,
        ),
    decreases b,
{
    if b == 0 {
        assert(strict_words(words, 0, 0) =~= Seq::<u32>::empty());
        assert(walked.take(0) =~= Seq::<u32>::empty());
    } else {
        lemma_blocks_walked(words, walked, count, b - 1);
        assert(block_placed(words, walked, b - 1));
        let start = BLOCK_SIZE * (b - 1);
        let end = BLOCK_SIZE * b;
        let before = strict_words(words, 0, start);
        let selected = strict_words(words, walk_exit(words, 0, start), end);
        law_walk_splits(words, 0, start, end);
        assert(strict_words(words, 0, end) == before + selected);
        assert(walked.take((before.len() + selected.len()) as int) =~= walked.take(
            before.len() as int,
        ) + walked.subrange(before.len() as int, (before.len() + selected.len()) as int));
    }
}

/// Blocks make the walk: what the passes of the device leave, cut to the count,
/// are the tokens that the strict walk on the host selects, also where a match
/// reaches into the next block or over it.
pub proof fn law_blocks_make_the_walk(tokens: Seq<Token>, walked: Seq<u32>, count: int)
    requires
        forall|i: int| 0 <= i < tokens.len() ==> fits_word(#[trigger] tokens[i]),
        blocks_walked(packed_words(tokens), walked, count),
    ensures
        unpacked_tokens(walked.take(count)) == strict_tokens(tokens, 0),
{
    let words = packed_words(tokens);
    let n_blocks = dispatch::ceil_div(words.len() as int, BLOCK_SIZE as int);
    assert(BLOCK_SIZE == 128 && n_blocks == (words.len() + 127) / 128);
    assert(n_blocks >= 0 && BLOCK_SIZE * n_blocks >= words.len());
    lemma_blocks_walked(words, walked, count, n_blocks);
    lemma_walk_past_end(words, 0, BLOCK_SIZE * n_blocks);
    law_packed_walk(tokens);
}

/// Walked serially or in blocks, words give the same, and what they give holds
/// the tokens that the walk on the host selects.
pub proof fn law_all_walks_agree(
    tokens: &[Token],
    words: &[u32],
    host: Vec<Token>,
    serial: Vec<u32>,
    blocks: Vec<u32>,
)
    requires
        forall|i: int| 0 <= i < tokens@.len() ==> fits_word(#[trigger] tokens@[i]),
        words@ == packed_words(tokens@),
        call_ensures(host_strict_greedy, (tokens,), host),
        call_ensures(serial_walk, (words,), serial),
        call_ensures(block_walk, (words,), blocks),
    ensures
        serial@ == blocks@,
        unpacked_tokens(serial@) == host@,
{
    law_packed_walk(tokens@);
}

/// A word holds the length in its upper half and the distance in its lower.
pub proof fn law_words_hold_length_and_distance(token: Token, r: u32)
    requires
        fits_word(token),
        call_ensures(pack_token, (token,), r),
    ensures
        r / 65536 == token.length,
        r % 65536 == token.distance,
        unpacked_token(r) == token,
{
}

} // verus!
