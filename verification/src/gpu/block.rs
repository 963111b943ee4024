//! What a DEFLATE block holds, bit by bit, and the choice of codes for a block
//! with codes of its own.
use crate::gpu::bits;
use crate::gpu::canonical;
use crate::gpu::fixed;
use crate::gpu::huffman;
use crate::gpu::lz77;
use crate::gpu::lz77::Token;
use crate::gpu::rle;
use crate::gpu::rle::RleEntry;
use crate::gpu::tables;
use crate::gpu::tables::META_ORDER;
use vstd::arithmetic::power2;
use vstd::prelude::*;

verus! {

/// The literal or length symbol of a token.
pub open spec fn lit_symbol(token: Token) -> int {
    if token.is_literal() {
        token.distance as int
    } else {
        tables::length_code_spec(token.length as int).0
    }
}

/// The distance symbol of a match, -1 for a literal.
pub open spec fn dist_symbol(token: Token) -> int {
    if token.is_literal() {
        -1
    } else {
        tables::distance_code_spec(token.distance as int).0
    }
}

/// The bits of one token, under the given code lengths.
pub open spec fn token_bits(lit_lens: Seq<u8>, dist_lens: Seq<u8>, token: Token) -> Seq<bool> {
    if token.is_literal() {
        canonical::code_bits(lit_lens, token.distance as int)
    } else {
        let (ls, le, lv) = tables::length_code_spec(token.length as int);
        let (ds, de, dv) = tables::distance_code_spec(token.distance as int);
        canonical::code_bits(lit_lens, ls) + bits::lsb_bits(lv as nat, le as nat)
            + canonical::code_bits(dist_lens, ds) + bits::lsb_bits(dv as nat, de as nat)
    }
}

/// The bits of all the tokens, closed by the end-of-block symbol.
pub open spec fn body_bits(lit_lens: Seq<u8>, dist_lens: Seq<u8>, tokens: Seq<Token>) -> Seq<bool>
    decreases tokens.len(),
{
    if tokens.len() == 0 {
        canonical::code_bits(lit_lens, 256)
    } else {
        token_bits(lit_lens, dist_lens, tokens[0]) + body_bits(lit_lens, dist_lens, tokens.skip(1))
    }
}

/// A final block under the fixed code.
pub open spec fn fixed_block_bits(tokens: Seq<Token>) -> Seq<bool> {
    bits::lsb_bits(0b011, 3) + body_bits(fixed::litlen_lens(), fixed::dist_lens(), tokens)
}

/// How many of the first `k` tokens have the literal or length symbol `s`.
pub open spec fn lit_count(tokens: Seq<Token>, s: int, k: nat) -> nat
    decreases k,
{
    if k == 0 {
        0
    } else {
        lit_count(tokens, s, (k - 1) as nat) + (if lit_symbol(tokens[k - 1]) == s {
            1nat
        } else {
            0nat
        })
    }
}

/// How many of the first `k` tokens have the distance symbol `s`.
pub open spec fn dist_count(tokens: Seq<Token>, s: int, k: nat) -> nat
    decreases k,
{
    if k == 0 {
        0
    } else {
        dist_count(tokens, s, (k - 1) as nat) + (if dist_symbol(tokens[k - 1]) == s {
            1nat
        } else {
            0nat
        })
    }
}

/// How often each literal or length symbol occurs; the end of the block once.
pub open spec fn lit_freq(tokens: Seq<Token>) -> Seq<u32> {
    Seq::new(
        286,
        |s: int|
            (lit_count(tokens, s, tokens.len()) + (if s == 256 {
                1nat
            } else {
                0nat
            })) as u32,
    )
}

/// How often each distance symbol occurs.
pub open spec fn dist_freq(tokens: Seq<Token>) -> Seq<u32> {
    Seq::new(30, |s: int| dist_count(tokens, s, tokens.len()) as u32)
}

/// How many of the first `k` symbols have a code.
pub open spec fn coded(lens: Seq<u8>, k: nat) -> nat
    decreases k,
{
    if k == 0 {
        0
    } else {
        coded(lens, (k - 1) as nat) + (if lens[k - 1] > 0 {
            1nat
        } else {
            0nat
        })
    }
}

/// Distance code lengths with at least two codes: decoders want a tree.
pub open spec fn pad_dist_lens(lens: Seq<u8>) -> Seq<u8> {
    if coded(lens, lens.len()) == 0 {
        lens.update(0, 1).update(1, 1)
    } else if coded(lens, lens.len()) == 1 {
        if lens[0] > 0 {
            lens.update(1, 1)
        } else {
            lens.update(0, 1)
        }
    } else {
        lens
    }
}

/// Literal and length code lengths with at least two codes.
pub open spec fn pad_lit_lens(lens: Seq<u8>) -> Seq<u8> {
    if coded(lens, lens.len()) < 2 {
        lens.update(0, 1).update(256, 1)
    } else {
        lens
    }
}

/// The literal and length code lengths for the tokens, if 15 bits suffice.
pub open spec fn lit_lens_for(tokens: Seq<Token>) -> Option<Seq<u8>> {
    match huffman::code_lengths(lit_freq(tokens), 15) {
        Some(lens) => Some(pad_lit_lens(lens)),
        None => None,
    }
}

/// The distance code lengths for the tokens, if 15 bits suffice.
pub open spec fn dist_lens_for(tokens: Seq<Token>) -> Option<Seq<u8>> {
    match huffman::code_lengths(dist_freq(tokens), 15) {
        Some(lens) => Some(pad_dist_lens(lens)),
        None => None,
    }
}

/// How many of the first `n` entries are left without the trailing zeros, but
/// no fewer than `min`.
pub open spec fn trimmed(lens: Seq<u8>, n: nat, min: nat) -> nat
    decreases n,
{
    if n > min && lens[n - 1] == 0 {
        trimmed(lens, (n - 1) as nat, min)
    } else {
        n
    }
}

/// The lengths that the block header holds: those of the two codes in turn.
pub open spec fn header_lens(lit_lens: Seq<u8>, dist_lens: Seq<u8>) -> Seq<u8> {
    lit_lens.take(trimmed(lit_lens, lit_lens.len(), 257) as int) + dist_lens.take(
        trimmed(dist_lens, dist_lens.len(), 1) as int,
    )
}

/// The entries that the block header holds for the lengths of the two codes.
pub open spec fn header_entries(lit_lens: Seq<u8>, dist_lens: Seq<u8>) -> Seq<RleEntry> {
    rle::rle_from(header_lens(lit_lens, dist_lens), 0)
}

/// How many of the first `k` entries have the symbol `c`.
pub open spec fn entry_count(entries: Seq<RleEntry>, c: int, k: nat) -> nat
    decreases k,
{
    if k == 0 {
        0
    } else {
        entry_count(entries, c, (k - 1) as nat) + (if entries[k - 1].code == c {
            1nat
        } else {
            0nat
        })
    }
}

/// How often each symbol of the code length alphabet occurs.
pub open spec fn meta_freq(entries: Seq<RleEntry>) -> Seq<u32> {
    Seq::new(19, |c: int| entry_count(entries, c, entries.len()) as u32)
}

/// The lengths of the code length code, if 7 bits suffice.
pub open spec fn meta_lens_for(entries: Seq<RleEntry>) -> Option<Seq<u8>> {
    huffman::code_lengths(meta_freq(entries), 7)
}

/// How many of the first `n` lengths in writing order are left without the
/// trailing zeros, but no fewer than four.
pub open spec fn meta_count(meta_lens: Seq<u8>, n: nat) -> nat
    decreases n,
{
    if n > 4 && meta_lens[META_ORDER@[n - 1] as int] == 0 {
        meta_count(meta_lens, (n - 1) as nat)
    } else {
        n
    }
}

/// The lengths of the code length code in writing order, from the `i`-th to
/// the `n`-th, three bits each.
pub open spec fn meta_bits(meta_lens: Seq<u8>, i: nat, n: nat) -> Seq<bool>
    decreases n - i,
{
    if i >= n {
        Seq::empty()
    } else {
        bits::lsb_bits(meta_lens[META_ORDER@[i as int] as int] as nat, 3) + meta_bits(
            meta_lens,
            i + 1,
            n,
        )
    }
}

/// The bits of one entry under the code length code.
pub open spec fn entry_bits(meta_lens: Seq<u8>, e: RleEntry) -> Seq<bool> {
    canonical::code_bits(meta_lens, e.code as int) + bits::lsb_bits(
        e.extra_value as nat,
        e.extra_bits as nat,
    )
}

/// The bits of all the entries.
pub open spec fn entries_bits(meta_lens: Seq<u8>, entries: Seq<RleEntry>) -> Seq<bool>
    decreases entries.len(),
{
    if entries.len() == 0 {
        Seq::empty()
    } else {
        entry_bits(meta_lens, entries[0]) + entries_bits(meta_lens, entries.skip(1))
    }
}

/// The header of a final block with codes of its own.
pub open spec fn header_bits(
    lit_lens: Seq<u8>,
    dist_lens: Seq<u8>,
    meta_lens: Seq<u8>,
) -> Seq<bool> {
    let nlit = trimmed(lit_lens, lit_lens.len(), 257);
    let ndist = trimmed(dist_lens, dist_lens.len(), 1);
    let nmeta = meta_count(meta_lens, 19);
    bits::lsb_bits(0b101, 3) + bits::lsb_bits((nlit - 257) as nat, 5) + bits::lsb_bits(
        (ndist - 1) as nat,
        5,
    ) + bits::lsb_bits((nmeta - 4) as nat, 4) + meta_bits(meta_lens, 0, nmeta) + entries_bits(
        meta_lens,
        header_entries(lit_lens, dist_lens),
    )
}

/// The three sets of code lengths of a block with codes of its own: literals
/// and lengths, distances, and the code length code.
pub open spec fn dynamic_lens(tokens: Seq<Token>) -> Option<(Seq<u8>, Seq<u8>, Seq<u8>)> {
    match (lit_lens_for(tokens), dist_lens_for(tokens)) {
        (Some(ll), Some(dl)) => match meta_lens_for(header_entries(ll, dl)) {
            Some(ml) => Some((ll, dl, ml)),
            None => None,
        },
        _ => None,
    }
}

/// A final block with codes of its own, where these are short enough.
pub open spec fn dynamic_block_bits(tokens: Seq<Token>) -> Option<Seq<bool>> {
    match dynamic_lens(tokens) {
        Some((ll, dl, ml)) => Some(header_bits(ll, dl, ml) + body_bits(ll, dl, tokens)),
        None => None,
    }
}

/// The block that the encoders write: with codes of its own if these are short
/// enough, else under the fixed code.
pub open spec fn block_bits(tokens: Seq<Token>) -> Seq<bool> {
    match dynamic_block_bits(tokens) {
        Some(b) => b,
        None => fixed_block_bits(tokens),
    }
}

pub proof fn lemma_symbols(token: Token)
    requires
        token.encodable(),
    ensures
        0 <= lit_symbol(token) < 286,
        lit_symbol(token) != 256,
        -1 <= dist_symbol(token) < 30,
        token.is_literal() <==> lit_symbol(token) < 256,
        token.is_literal() <==> dist_symbol(token) == -1,
{
    if !token.is_literal() {
        tables::lemma_length_row(token.length as int);
        tables::lemma_dist_row(token.distance as int);
    }
}

pub proof fn lemma_lit_count(tokens: Seq<Token>, s: int, k: nat)
    requires
        k <= tokens.len(),
    ensures
        lit_count(tokens, s, k) <= k,
        forall|i: int| 0 <= i < k && lit_symbol(#[trigger] tokens[i]) == s ==> lit_count(tokens, s, k) > 0,
    decreases k,
{
    if k > 0 {
        lemma_lit_count(tokens, s, (k - 1) as nat);
    }
}

pub proof fn lemma_dist_count(tokens: Seq<Token>, s: int, k: nat)
    requires
        k <= tokens.len(),
    ensures
        dist_count(tokens, s, k) <= k,
        forall|i: int|
            0 <= i < k && dist_symbol(#[trigger] tokens[i]) == s ==> dist_count(tokens, s, k) > 0,
    decreases k,
{
    if k > 0 {
        lemma_dist_count(tokens, s, (k - 1) as nat);
    }
}

pub proof fn lemma_entry_count(entries: Seq<RleEntry>, c: int, k: nat)
    requires
        k <= entries.len(),
    ensures
        entry_count(entries, c, k) <= k,
        forall|i: int| 0 <= i < k && (#[trigger] entries[i]).code == c ==> entry_count(entries, c, k) > 0,
    decreases k,
{
    if k > 0 {
        lemma_entry_count(entries, c, (k - 1) as nat);
    }
}

proof fn lemma_coded_used(freq: Seq<u32>, lens: Seq<u8>, k: nat)
    requires
        k <= freq.len() == lens.len(),
        forall|s: int| 0 <= s < lens.len() ==> (#[trigger] lens[s] > 0) == (freq[s] > 0),
    ensures
        coded(lens, k) == huffman::used_count(freq, k),
    decreases k,
{
    if k > 0 {
        lemma_coded_used(freq, lens, (k - 1) as nat);
        assert((lens[k - 1] > 0) == (freq[k - 1] > 0));
    }
}

proof fn lemma_coded_update(lens: Seq<u8>, i: int, k: nat)
    requires
        0 <= i < lens.len(),
        k <= lens.len(),
        lens[i] == 0,
    ensures
        coded(lens.update(i, 1), k) == coded(lens, k) + (if i < k {
            1nat
        } else {
            0nat
        }),
    decreases k,
{
    if k > 0 {
        lemma_coded_update(lens, i, (k - 1) as nat);
    }
}

proof fn lemma_coded_pos(lens: Seq<u8>, i: int, k: nat)
    requires
        0 <= i < k <= lens.len(),
        lens[i] > 0,
    ensures
        coded(lens, k) >= 1,
    decreases k,
{
    if i < k - 1 {
        lemma_coded_pos(lens, i, (k - 1) as nat);
    }
}

proof fn lemma_coded_two(lens: Seq<u8>, i: int, j: int, k: nat)
    requires
        0 <= i < j < k <= lens.len(),
        lens[i] > 0,
        lens[j] > 0,
    ensures
        coded(lens, k) >= 2,
    decreases k,
{
    if j < k - 1 {
        lemma_coded_two(lens, i, j, (k - 1) as nat);
    } else {
        lemma_coded_pos(lens, i, (k - 1) as nat);
    }
}

/// Two codes of one bit fill the room.
proof fn lemma_kraft_bits(lens: Seq<u8>, d: nat, k: nat)
    requires
        d >= 1,
        k <= lens.len(),
        forall|s: int| 0 <= s < lens.len() ==> #[trigger] lens[s] <= 1,
    ensures
        canonical::kraft(lens, d, k) == coded(lens, k) * power2::pow2((d - 1) as nat),
    decreases k,
{
    let p = power2::pow2((d - 1) as nat);
    if k > 0 {
        let j = (k - 1) as nat;
        lemma_kraft_bits(lens, d, j);
        let c = coded(lens, j);
        assert(lens[j as int] <= 1);
        assert((c + 1) * p == c * p + p) by (nonlinear_arith);
    } else {
        assert(0 * p == 0) by (nonlinear_arith);
    }
}

proof fn lemma_two_bits_ok(lens: Seq<u8>, d: nat)
    requires
        d >= 1,
        coded(lens, lens.len()) == 2,
        forall|s: int| 0 <= s < lens.len() ==> #[trigger] lens[s] <= 1,
    ensures
        canonical::kraft_ok(lens, d),
{
    lemma_kraft_bits(lens, d, lens.len());
    power2::lemma_pow2_unfold(d);
}

proof fn lemma_lens_for(freq: Seq<u32>, lens: Seq<u8>)
    requires
        2 <= freq.len() <= 286,
        huffman::code_lengths(freq, 15) == Some(lens),
    ensures
        lens.len() == freq.len(),
        canonical::kraft_ok(lens, 15),
        forall|s: int| 0 <= s < lens.len() ==> (#[trigger] lens[s] > 0) == (freq[s] > 0),
        coded(lens, lens.len()) <= 1 ==> forall|s: int|
            0 <= s < lens.len() ==> #[trigger] lens[s] <= 1,
{
    canonical::law_code_lengths(freq, 15, 15);
    lemma_coded_used(freq, lens, lens.len());
}

proof fn lemma_pad_lit(lens: Seq<u8>)
    requires
        lens.len() == 286,
        canonical::kraft_ok(lens, 15),
        lens[256] > 0,
        coded(lens, 286) <= 1 ==> forall|s: int| 0 <= s < 286 ==> #[trigger] lens[s] <= 1,
    ensures
        pad_lit_lens(lens).len() == 286,
        canonical::kraft_ok(pad_lit_lens(lens), 15),
        forall|s: int| 0 <= s < 286 && #[trigger] lens[s] > 0 ==> pad_lit_lens(lens)[s] > 0,
        coded(pad_lit_lens(lens), 286) >= 2,
{
    lemma_coded_pos(lens, 256, 286);
    if coded(lens, 286) < 2 {
        assert(lens[0] == 0) by {
            if lens[0] > 0 {
                lemma_coded_two(lens, 0, 256, 286);
            }
        }
        let padded = pad_lit_lens(lens);
        assert(padded =~= lens.update(0, 1));
        lemma_coded_update(lens, 0, 286);
        assert forall|s: int| 0 <= s < padded.len() implies #[trigger] padded[s] <= 1 by {
            assert(lens[s] <= 1);
        }
        lemma_two_bits_ok(padded, 15);
    }
}

proof fn lemma_pad_dist(lens: Seq<u8>)
    requires
        lens.len() == 30,
        canonical::kraft_ok(lens, 15),
        coded(lens, 30) <= 1 ==> forall|s: int| 0 <= s < 30 ==> #[trigger] lens[s] <= 1,
    ensures
        pad_dist_lens(lens).len() == 30,
        canonical::kraft_ok(pad_dist_lens(lens), 15),
        forall|s: int| 0 <= s < 30 && #[trigger] lens[s] > 0 ==> pad_dist_lens(lens)[s] > 0,
        coded(pad_dist_lens(lens), 30) >= 2,
{
    let padded = pad_dist_lens(lens);
    if coded(lens, 30) == 0 {
        assert(lens[0] == 0) by {
            if lens[0] > 0 {
                lemma_coded_pos(lens, 0, 30);
            }
        }
        assert(lens[1] == 0) by {
            if lens[1] > 0 {
                lemma_coded_pos(lens, 1, 30);
            }
        }
        lemma_coded_update(lens, 0, 30);
        lemma_coded_update(lens.update(0, 1), 1, 30);
    } else if coded(lens, 30) == 1 {
        if lens[0] > 0 {
            assert(lens[1] == 0) by {
                if lens[1] > 0 {
                    lemma_coded_two(lens, 0, 1, 30);
                }
            }
            lemma_coded_update(lens, 1, 30);
        } else {
            lemma_coded_update(lens, 0, 30);
        }
    }
    if coded(lens, 30) <= 1 {
        assert forall|s: int| 0 <= s < padded.len() implies #[trigger] padded[s] <= 1 by {
            assert(lens[s] <= 1);
        }
        lemma_two_bits_ok(padded, 15);
    }
}

pub proof fn lemma_trimmed(lens: Seq<u8>, n: nat, min: nat)
    requires
        min <= n <= lens.len(),
    ensures
        min <= trimmed(lens, n, min) <= n,
        forall|i: int| trimmed(lens, n, min) <= i < n ==> #[trigger] lens[i] == 0,
    decreases n,
{
    if n > min && lens[n - 1] == 0 {
        lemma_trimmed(lens, (n - 1) as nat, min);
    }
}

pub proof fn lemma_meta_count(meta_lens: Seq<u8>, n: nat)
    requires
        4 <= n <= 19,
    ensures
        4 <= meta_count(meta_lens, n) <= n,
        forall|i: int|
            meta_count(meta_lens, n) <= i < n ==> meta_lens[#[trigger] META_ORDER@[i] as int] == 0,
    decreases n,
{
    if n > 4 && meta_lens[META_ORDER@[n - 1] as int] == 0 {
        lemma_meta_count(meta_lens, (n - 1) as nat);
    }
}

/// The code lengths of a block give a code to every symbol that it holds.
pub open spec fn lens_serve(lit_lens: Seq<u8>, dist_lens: Seq<u8>, tokens: Seq<Token>) -> bool {
    &&& lit_lens.len() >= 286
    &&& dist_lens.len() == 30
    &&& canonical::kraft_ok(lit_lens, 15)
    &&& canonical::kraft_ok(dist_lens, 15)
    &&& lit_lens[256] > 0
    &&& forall|i: int|
        0 <= i < tokens.len() ==> lit_lens[lit_symbol(#[trigger] tokens[i])] > 0 && (
        !tokens[i].is_literal() ==> dist_lens[dist_symbol(tokens[i])] > 0)
}

/// The code lengths that a block is given serve it.
pub proof fn lemma_dynamic_lens(tokens: Seq<Token>)
    requires
        lz77::all_encodable(tokens),
        tokens.len() < u32::MAX,
        lit_lens_for(tokens) is Some,
        dist_lens_for(tokens) is Some,
    ensures
        ({
            let ll = lit_lens_for(tokens)->0;
            let dl = dist_lens_for(tokens)->0;
            &&& ll.len() == 286
            &&& lens_serve(ll, dl, tokens)
            &&& 257 <= trimmed(ll, 286, 257) <= 286
            &&& 1 <= trimmed(dl, 30, 1) <= 30
            &&& header_lens(ll, dl).len() <= 316
            &&& forall|i: int|
                0 <= i < header_lens(ll, dl).len() ==> #[trigger] header_lens(ll, dl)[i] <= 15
        }),
{
    let lf = lit_freq(tokens);
    let df = dist_freq(tokens);
    let l0 = huffman::code_lengths(lf, 15)->0;
    let d0 = huffman::code_lengths(df, 15)->0;
    let ll = lit_lens_for(tokens)->0;
    let dl = dist_lens_for(tokens)->0;
    let n = tokens.len();
    lemma_lens_for(lf, l0);
    lemma_lens_for(df, d0);
    lemma_lit_count(tokens, 256, n);
    assert(lf[256] > 0);
    assert(l0[256] > 0);
    lemma_pad_lit(l0);
    lemma_pad_dist(d0);
    assert forall|i: int| 0 <= i < n implies ll[lit_symbol(#[trigger] tokens[i])] > 0 && (
    !tokens[i].is_literal() ==> dl[dist_symbol(tokens[i])] > 0) by {
        assert(tokens[i].encodable());
        lemma_symbols(tokens[i]);
        let s = lit_symbol(tokens[i]);
        lemma_lit_count(tokens, s, n);
        assert(lf[s] > 0);
        assert(l0[s] > 0);
        if !tokens[i].is_literal() {
            let t = dist_symbol(tokens[i]);
            lemma_dist_count(tokens, t, n);
            assert(df[t] > 0);
            assert(d0[t] > 0);
        }
    }
    lemma_trimmed(ll, 286, 257);
    lemma_trimmed(dl, 30, 1);
}

proof fn lemma_zero_entries_len(n: nat)
    ensures
        rle::zero_entries(n).len() <= n,
    decreases n,
{
    if n >= 138 {
        lemma_zero_entries_len((n - 138) as nat);
    } else if 0 < n < 3 {
        lemma_zero_entries_len((n - 1) as nat);
    }
}

proof fn lemma_repeat_entries_len(cur: u8, n: nat)
    ensures
        rle::repeat_entries(cur, n).len() <= n,
    decreases n,
{
    if n >= 6 {
        lemma_repeat_entries_len(cur, (n - 6) as nat);
    } else if 0 < n < 3 {
        lemma_repeat_entries_len(cur, (n - 1) as nat);
    }
}

pub proof fn lemma_rle_len(lens: Seq<u8>, i: int)
    requires
        0 <= i <= lens.len(),
    ensures
        rle::rle_from(lens, i).len() <= lens.len() - i,
    decreases lens.len() - i,
{
    if i < lens.len() {
        rle::lemma_run_len(lens, i);
        let run = rle::run_len(lens, i);
        lemma_rle_len(lens, i + run);
        lemma_zero_entries_len(run);
        lemma_repeat_entries_len(lens[i], (run - 1) as nat);
    }
}

pub proof fn lemma_entries_all_ok(out: Seq<u8>, entries: Seq<RleEntry>)
    requires
        rle::entries_ok(out, entries),
    ensures
        forall|i: int| 0 <= i < entries.len() ==> rle::entry_ok(#[trigger] entries[i]),
    decreases entries.len(),
{
    if entries.len() > 0 {
        lemma_entries_all_ok(rle::apply_entry(out, entries[0]), entries.skip(1));
        assert forall|i: int| 0 <= i < entries.len() implies rle::entry_ok(#[trigger] entries[i]) by {
            if i > 0 {
                assert(entries[i] == entries.skip(1)[i - 1]);
            }
        }
    }
}

/// The entries of the header, and the code length code that serves them.
pub proof fn lemma_meta_lens(lit_lens: Seq<u8>, dist_lens: Seq<u8>)
    requires
        header_lens(lit_lens, dist_lens).len() <= 316,
        forall|i: int|
            0 <= i < header_lens(lit_lens, dist_lens).len() ==> #[trigger] header_lens(
                lit_lens,
                dist_lens,
            )[i] <= 15,
    ensures
        ({
            let entries = header_entries(lit_lens, dist_lens);
            &&& entries.len() <= 316
            &&& rle::entries_ok(Seq::empty(), entries)
            &&& forall|i: int| 0 <= i < entries.len() ==> rle::entry_ok(#[trigger] entries[i])
            &&& meta_lens_for(entries) matches Some(ml) ==> {
                &&& ml.len() == 19
                &&& canonical::kraft_ok(ml, 7)
                &&& forall|i: int| 0 <= i < entries.len() ==> ml[(#[trigger] entries[i]).code as int] > 0
                &&& 4 <= meta_count(ml, 19) <= 19
            }
        }),
{
    let lens = header_lens(lit_lens, dist_lens);
    let entries = header_entries(lit_lens, dist_lens);
    lemma_rle_len(lens, 0);
    rle::law_rle_expands(lens);
    lemma_entries_all_ok(Seq::empty(), entries);
    if meta_lens_for(entries) is Some {
        let ml = meta_lens_for(entries)->0;
        let mf = meta_freq(entries);
        canonical::law_code_lengths(mf, 7, 7);
        assert forall|i: int| 0 <= i < entries.len() implies ml[(#[trigger] entries[i]).code as int]
            > 0 by {
            assert(rle::entry_ok(entries[i]));
            let c = entries[i].code as int;
            lemma_entry_count(entries, c, entries.len());
            assert(mf[c] > 0);
        }
        lemma_meta_count(ml, 19);
    }
}

} // verus!
