//! What holds of every block that the encoders write.
use crate::gpu::bits;
use crate::gpu::block;
use crate::gpu::canonical;
use crate::gpu::dispatch;
use crate::gpu::fixed;
use crate::gpu::huffman;
use crate::gpu::huffman_emit_v2::DynamicHuffman;
use crate::gpu::huffman_laws;
use crate::gpu::inflate;
use crate::gpu::lz77;
use crate::gpu::lz77::Token;
use crate::gpu::rle::RleEntry;
use crate::gpu::tables;
use vstd::arithmetic::power2;
use vstd::prelude::*;

verus! {

/// The bytes are those of the block, filled up with zero bits.
pub open spec fn holds_block(bytes: Seq<u8>, block: Seq<bool>) -> bool {
    bits::bytes_bits(bytes) == bits::pad_to_byte(block)
}

/// The first three bits of the bytes, as a number: whether the block is the last
/// one, and its type.
pub open spec fn block_kind(bytes: Seq<u8>) -> Option<nat> {
    match inflate::read_number(bits::bytes_bits(bytes), 3) {
        Some((kind, _)) => Some(kind),
        None => None,
    }
}

/// Bytes that hold a block are as many as it needs, and what is left of the last
/// of them is zero.
pub proof fn law_padding_is_zero(block: Seq<bool>, bytes: Seq<u8>)
    requires
        holds_block(bytes, block),
    ensures
        bytes.len() == dispatch::ceil_div(block.len() as int, 8),
        bits::bytes_bits(bytes).take(block.len() as int) == block,
        forall|p: int|
            block.len() <= p < 8 * bytes.len() ==> !(#[trigger] bits::bytes_bits(bytes)[p]),
{
    bits::lemma_bytes_bits_len(bytes);
    assert(bits::bytes_bits(bytes).take(block.len() as int) =~= block);
}

proof fn lemma_kind(kind: nat, body: Seq<bool>, bytes: Seq<u8>)
    requires
        kind < 8,
        holds_block(bytes, bits::lsb_bits(kind, 3) + body),
    ensures
        block_kind(bytes) == Some(kind),
{
    let whole = bits::lsb_bits(kind, 3) + body;
    let rest = body + bits::zero_bits(bits::byte_padding(whole.len()));
    assert(bits::pad_to_byte(whole) =~= bits::lsb_bits(kind, 3) + rest);
    power2::lemma2_to64();
    inflate::lemma_read_number(kind, 3, rest);
}

/// A block under the fixed code says that it is one, is no longer than it needs
/// to be, and stands for what its tokens stand for.
pub proof fn law_fixed_block(tokens: Seq<Token>, bytes: Seq<u8>)
    requires
        lz77::all_encodable(tokens),
        holds_block(bytes, block::fixed_block_bits(tokens)),
    ensures
        block_kind(bytes) == Some(0b011nat),
        bytes.len() == dispatch::ceil_div(block::fixed_block_bits(tokens).len() as int, 8),
        lz77::reaches_back(Seq::empty(), tokens) ==> inflate::inflate(bytes) == Some(
            lz77::expand(tokens),
        ),
{
    let b = block::fixed_block_bits(tokens);
    law_padding_is_zero(b, bytes);
    lemma_kind(
        0b011,
        block::body_bits(fixed::litlen_lens(), fixed::dist_lens(), tokens),
        bytes,
    );
    inflate::law_fixed_block_decodes(tokens, bits::zero_bits(bits::byte_padding(b.len())));
}

/// Some code of the block's own would be too long: one for literals and lengths,
/// one for distances, or one for the code lengths themselves.
pub open spec fn some_code_too_long(tokens: Seq<Token>) -> bool {
    ||| huffman::code_lengths(block::lit_freq(tokens), 15) is None
    ||| huffman::code_lengths(block::dist_freq(tokens), 15) is None
    ||| huffman::code_lengths(
        block::meta_freq(
            block::header_entries(
                block::lit_lens_for(tokens)->0,
                block::dist_lens_for(tokens)->0,
            ),
        ),
        7,
    ) is None
}

/// A block has codes of its own unless some of them would be too long. Then it is
/// the block under the fixed code, byte for byte.
pub proof fn law_block_kind(tokens: Seq<Token>, bytes: Seq<u8>, fixed_bytes: Seq<u8>)
    requires
        holds_block(bytes, block::block_bits(tokens)),
        holds_block(fixed_bytes, block::fixed_block_bits(tokens)),
    ensures
        !some_code_too_long(tokens) ==> block_kind(bytes) == Some(0b101nat),
        some_code_too_long(tokens) ==> block_kind(bytes) == Some(0b011nat) && bytes == fixed_bytes,
{
    match block::dynamic_lens(tokens) {
        Some((ll, dl, ml)) => {
            let header = block::header_bits(ll, dl, ml);
            let body = block::body_bits(ll, dl, tokens);
            let rest = (header + body).skip(3);
            bits::lemma_lsb_len(0b101, 3);
            assert(block::block_bits(tokens) =~= bits::lsb_bits(0b101, 3) + rest);
            lemma_kind(0b101, rest, bytes);
        },
        None => {
            bits::law_same_bits_same_bytes(bytes, fixed_bytes);
            lemma_kind(
                0b011,
                block::body_bits(fixed::litlen_lens(), fixed::dist_lens(), tokens),
                bytes,
            );
        },
    }
}

/// The two encoders write the same bytes, and these stand for what the tokens
/// stand for.
pub proof fn law_encoders_agree(tokens: Seq<Token>, slow: Seq<u8>, fast: Seq<u8>)
    requires
        lz77::all_encodable(tokens),
        tokens.len() < u32::MAX,
        holds_block(slow, block::block_bits(tokens)),
        holds_block(fast, block::block_bits(tokens)),
    ensures
        slow == fast,
        slow.len() == dispatch::ceil_div(block::block_bits(tokens).len() as int, 8),
        lz77::reaches_back(Seq::empty(), tokens) ==> inflate::inflate(slow) == Some(
            lz77::expand(tokens),
        ),
{
    bits::law_same_bits_same_bytes(slow, fast);
    law_padding_is_zero(block::block_bits(tokens), slow);
    if lz77::reaches_back(Seq::empty(), tokens) {
        inflate::law_encoded_block_inflates(tokens, slow);
    }
}

/// The header that is made for a device is the start of the block that the host
/// writes, and the sizes add up to the size of that block.
pub proof fn law_device_header(tokens: Seq<Token>, made: DynamicHuffman, bytes: Seq<u8>)
    requires
        made.describes(tokens),
        holds_block(bytes, block::block_bits(tokens)),
    ensures
        made.header_bytes@.len() == dispatch::ceil_div(made.header_bit_count as int, 8),
        made.header_bit_count <= 8 * bytes.len(),
        bits::bytes_bits(bytes).take(made.header_bit_count as int) == bits::bytes_bits(
            made.header_bytes@,
        ).take(made.header_bit_count as int),
        bytes.len() == dispatch::ceil_div(
            made.header_bit_count + made.body_bit_count + made.eob_bits,
            8,
        ),
{
    let (ll, dl, ml) = block::dynamic_lens(tokens)->0;
    let header = block::header_bits(ll, dl, ml);
    let body = block::body_bits(ll, dl, tokens);
    let b = block::block_bits(tokens);
    assert(b == header + body);
    law_padding_is_zero(header, made.header_bytes@);
    law_padding_is_zero(b, bytes);
    bits::lemma_bytes_bits_len(bytes);
    assert(bits::bytes_bits(bytes).take(header.len() as int) =~= header);
}

proof fn lemma_counts(tokens: Seq<Token>, s: int, k: nat)
    requires
        k <= tokens.len(),
    ensures
        block::lit_count(tokens, s, k) == tokens.take(k as int).filter(
            |t: Token| block::lit_symbol(t) == s,
        ).len(),
        block::dist_count(tokens, s, k) == tokens.take(k as int).filter(
            |t: Token| block::dist_symbol(t) == s,
        ).len(),
    decreases k,
{
    reveal(Seq::filter);
    if k > 0 {
        lemma_counts(tokens, s, (k - 1) as nat);
        assert(tokens.take(k as int).drop_last() =~= tokens.take(k - 1));
    }
}

proof fn lemma_entry_counts(entries: Seq<RleEntry>, c: int, k: nat)
    requires
        k <= entries.len(),
    ensures
        block::entry_count(entries, c, k) == entries.take(k as int).filter(
            |e: RleEntry| e.code == c,
        ).len(),
    decreases k,
{
    reveal(Seq::filter);
    if k > 0 {
        lemma_entry_counts(entries, c, (k - 1) as nat);
        assert(entries.take(k as int).drop_last() =~= entries.take(k - 1));
    }
}

/// Symbols are counted as often as they occur among the tokens, and the end of
/// the block once.
pub proof fn law_frequencies_are_counts(tokens: Seq<Token>, entries: Seq<RleEntry>, s: int)
    requires
        lz77::all_encodable(tokens),
        tokens.len() < u32::MAX,
        entries.len() < u32::MAX,
    ensures
        0 <= s < 286 && s != 256 ==> block::lit_freq(tokens)[s] == tokens.filter(
            |t: Token| block::lit_symbol(t) == s,
        ).len(),
        block::lit_freq(tokens)[256] == 1,
        0 <= s < 30 ==> block::dist_freq(tokens)[s] == tokens.filter(
            |t: Token| block::dist_symbol(t) == s,
        ).len(),
        0 <= s < 19 ==> block::meta_freq(entries)[s] == entries.filter(
            |e: RleEntry| e.code == s,
        ).len(),
{
    let n = tokens.len();
    lemma_counts(tokens, s, n);
    block::lemma_lit_count(tokens, s, n);
    block::lemma_dist_count(tokens, s, n);
    assert(tokens.take(n as int) =~= tokens);
    lemma_entry_counts(entries, s, entries.len());
    block::lemma_entry_count(entries, s, entries.len());
    assert(entries.take(entries.len() as int) =~= entries);
    lemma_no_end_among(tokens, n);
}

proof fn lemma_no_end_among(tokens: Seq<Token>, k: nat)
    requires
        lz77::all_encodable(tokens),
        k <= tokens.len(),
    ensures
        block::lit_count(tokens, 256, k) == 0,
    decreases k,
{
    if k > 0 {
        lemma_no_end_among(tokens, (k - 1) as nat);
        assert(tokens[k - 1].encodable());
        block::lemma_symbols(tokens[k - 1]);
    }
}

/// How many extra bits a token has.
pub open spec fn extra_bits(token: Token) -> nat {
    if token.is_literal() {
        0
    } else {
        (tables::length_code_spec(token.length as int).1 + tables::distance_code_spec(
            token.distance as int,
        ).1) as nat
    }
}

/// How many bits the first `k` tokens take, with codes of the given lengths.
pub open spec fn spent(lit: Seq<nat>, dist: Seq<nat>, tokens: Seq<Token>, k: nat) -> nat
    decreases k,
{
    if k == 0 {
        0
    } else {
        let t = tokens[k - 1];
        spent(lit, dist, tokens, (k - 1) as nat) + lit[block::lit_symbol(t)] + (
        if t.is_literal() {
            0
        } else {
            dist[block::dist_symbol(t)]
        }) + extra_bits(t)
    }
}

/// How many bits a block takes behind its header, with codes of the given lengths:
/// those of its tokens, and the end of the block.
pub open spec fn body_size(lit: Seq<nat>, dist: Seq<nat>, tokens: Seq<Token>) -> nat {
    spent(lit, dist, tokens, tokens.len()) + lit[256]
}

proof fn lemma_spent_first(lit: Seq<nat>, dist: Seq<nat>, tokens: Seq<Token>, k: nat)
    requires
        1 <= k <= tokens.len(),
    ensures
        spent(lit, dist, tokens, k) == spent(lit, dist, tokens, 1) + spent(
            lit,
            dist,
            tokens.skip(1),
            (k - 1) as nat,
        ),
    decreases k,
{
    if k > 1 {
        lemma_spent_first(lit, dist, tokens, (k - 1) as nat);
        assert(tokens.skip(1)[k - 2] == tokens[k - 1]);
    }
}

proof fn lemma_body_size(ll: Seq<u8>, dl: Seq<u8>, tokens: Seq<Token>)
    requires
        lz77::all_encodable(tokens),
        ll.len() == 286,
        dl.len() == 30,
    ensures
        block::body_bits(ll, dl, tokens).len() == body_size(
            huffman_laws::as_nats(ll),
            huffman_laws::as_nats(dl),
            tokens,
        ),
    decreases tokens.len(),
{
    let (l, d) = (huffman_laws::as_nats(ll), huffman_laws::as_nats(dl));
    bits::lemma_msb_len(canonical::code_of(ll, 256), ll[256] as nat);
    if tokens.len() > 0 {
        let t = tokens[0];
        assert(t.encodable());
        block::lemma_symbols(t);
        let rest = tokens.skip(1);
        assert forall|i: int| 0 <= i < rest.len() implies (#[trigger] rest[i]).encodable() by {
            assert(rest[i] == tokens[i + 1]);
        }
        lemma_body_size(ll, dl, rest);
        lemma_spent_first(l, d, tokens, tokens.len());
        assert(spent(l, d, tokens, 0) == 0);
        if t.is_literal() {
            bits::lemma_msb_len(
                canonical::code_of(ll, t.distance as int),
                ll[t.distance as int] as nat,
            );
        } else {
            let (ls, le, lv) = tables::length_code_spec(t.length as int);
            let (ds, de, dv) = tables::distance_code_spec(t.distance as int);
            bits::lemma_msb_len(canonical::code_of(ll, ls), ll[ls] as nat);
            bits::lemma_msb_len(canonical::code_of(dl, ds), dl[ds] as nat);
            bits::lemma_lsb_len(lv as nat, le as nat);
            bits::lemma_lsb_len(dv as nat, de as nat);
        }
        assert(block::token_bits(ll, dl, t).len() == spent(l, d, tokens, 1));
    }
}

/// How many extra bits the first `k` tokens have.
spec fn extras(tokens: Seq<Token>, k: nat) -> nat
    decreases k,
{
    if k == 0 {
        0
    } else {
        extras(tokens, (k - 1) as nat) + extra_bits(tokens[k - 1])
    }
}

proof fn lemma_lit_sum(lit: Seq<nat>, tokens: Seq<Token>, k: nat)
    requires
        lz77::all_encodable(tokens),
        lit.len() == 286,
        k <= tokens.len(),
        k > 0,
    ensures
        ({
            let now = Seq::new(286, |s: int| block::lit_count(tokens, s, k) as int * lit[s]);
            let before = Seq::new(
                286,
                |s: int| block::lit_count(tokens, s, (k - 1) as nat) as int * lit[s],
            );
            huffman_laws::sum(now) == huffman_laws::sum(before) + lit[block::lit_symbol(
                tokens[k - 1],
            )]
        }),
{
    let j = (k - 1) as nat;
    let now = Seq::new(286, |s: int| block::lit_count(tokens, s, k) as int * lit[s]);
    let before = Seq::new(286, |s: int| block::lit_count(tokens, s, j) as int * lit[s]);
    assert(tokens[k - 1].encodable());
    block::lemma_symbols(tokens[k - 1]);
    let x = block::lit_symbol(tokens[k - 1]);
    huffman_laws::lemma_sum_update(before, x, now[x]);
    assert(now =~= before.update(x, now[x]));
    let (c, l) = (block::lit_count(tokens, x, j) as int, lit[x] as int);
    assert((c + 1) * l == c * l + l) by (nonlinear_arith);
}

proof fn lemma_dist_sum(dist: Seq<nat>, tokens: Seq<Token>, k: nat)
    requires
        lz77::all_encodable(tokens),
        dist.len() == 30,
        k <= tokens.len(),
        k > 0,
    ensures
        ({
            let now = Seq::new(30, |s: int| block::dist_count(tokens, s, k) as int * dist[s]);
            let before = Seq::new(
                30,
                |s: int| block::dist_count(tokens, s, (k - 1) as nat) as int * dist[s],
            );
            huffman_laws::sum(now) == huffman_laws::sum(before) + (
            if tokens[k - 1].is_literal() {
                0
            } else {
                dist[block::dist_symbol(tokens[k - 1])] as int
            })
        }),
{
    let j = (k - 1) as nat;
    let now = Seq::new(30, |s: int| block::dist_count(tokens, s, k) as int * dist[s]);
    let before = Seq::new(30, |s: int| block::dist_count(tokens, s, j) as int * dist[s]);
    let t = tokens[k - 1];
    assert(t.encodable());
    block::lemma_symbols(t);
    let x = block::dist_symbol(t);
    if t.is_literal() {
        assert(now =~= before);
    } else {
        huffman_laws::lemma_sum_update(before, x, now[x]);
        assert(now =~= before.update(x, now[x]));
        let (c, l) = (block::dist_count(tokens, x, j) as int, dist[x] as int);
        assert((c + 1) * l == c * l + l) by (nonlinear_arith);
    }
}

proof fn lemma_spent_by_symbol(lit: Seq<nat>, dist: Seq<nat>, tokens: Seq<Token>, k: nat)
    requires
        lz77::all_encodable(tokens),
        lit.len() == 286,
        dist.len() == 30,
        k <= tokens.len(),
    ensures
        spent(lit, dist, tokens, k) == huffman_laws::sum(
            Seq::new(286, |s: int| block::lit_count(tokens, s, k) as int * lit[s]),
        ) + huffman_laws::sum(
            Seq::new(30, |s: int| block::dist_count(tokens, s, k) as int * dist[s]),
        ) + extras(tokens, k),
    decreases k,
{
    if k == 0 {
        let a = Seq::new(286, |s: int| block::lit_count(tokens, s, 0) as int * lit[s]);
        let b = Seq::new(30, |s: int| block::dist_count(tokens, s, 0) as int * dist[s]);
        assert forall|s: int| 0 <= s < 286 implies #[trigger] a[s] == 0 by {
            let l = lit[s] as int;
            assert(0 * l == 0) by (nonlinear_arith);
        }
        assert forall|s: int| 0 <= s < 30 implies #[trigger] b[s] == 0 by {
            let l = dist[s] as int;
            assert(0 * l == 0) by (nonlinear_arith);
        }
        huffman_laws::lemma_sum_zero(a);
        huffman_laws::lemma_sum_zero(b);
    } else {
        lemma_spent_by_symbol(lit, dist, tokens, (k - 1) as nat);
        lemma_lit_sum(lit, tokens, k);
        lemma_dist_sum(dist, tokens, k);
    }
}

proof fn lemma_body_by_symbol(lit: Seq<nat>, dist: Seq<nat>, tokens: Seq<Token>)
    requires
        lz77::all_encodable(tokens),
        tokens.len() < u32::MAX,
        lit.len() == 286,
        dist.len() == 30,
    ensures
        body_size(lit, dist, tokens) == huffman_laws::coded_bits(block::lit_freq(tokens), lit)
            + huffman_laws::coded_bits(block::dist_freq(tokens), dist) + extras(
            tokens,
            tokens.len(),
        ),
{
    let n = tokens.len();
    lemma_spent_by_symbol(lit, dist, tokens, n);
    lemma_no_end_among(tokens, n);
    let counts = Seq::new(286, |s: int| block::lit_count(tokens, s, n) as int * lit[s]);
    let f = block::lit_freq(tokens);
    let coded = Seq::new(f.len(), |s: int| f[s] * lit[s]);
    huffman_laws::lemma_sum_update(counts, 256, lit[256] as int);
    let l = lit[256] as int;
    assert(0 * l == 0 && 1 * l == l) by (nonlinear_arith);
    assert forall|s: int| 0 <= s < 286 implies #[trigger] coded[s] == counts.update(
        256,
        lit[256] as int,
    )[s] by {
        block::lemma_lit_count(tokens, s, n);
    }
    assert(coded =~= counts.update(256, lit[256] as int));
    let g = block::dist_freq(tokens);
    let dists = Seq::new(30, |s: int| block::dist_count(tokens, s, n) as int * dist[s]);
    let coded_d = Seq::new(g.len(), |s: int| g[s] * dist[s]);
    assert forall|s: int| 0 <= s < 30 implies #[trigger] coded_d[s] == dists[s] by {
        block::lemma_dist_count(tokens, s, n);
    }
    assert(coded_d =~= dists);
}

/// The lengths serve the symbols of the tokens: those that occur have a code of a
/// bit at least, and the codes have room side by side.
pub open spec fn serves(lit: Seq<nat>, dist: Seq<nat>, tokens: Seq<Token>, d: nat) -> bool {
    &&& huffman_laws::are_code_lengths(block::lit_freq(tokens), lit, d)
    &&& huffman_laws::are_code_lengths(block::dist_freq(tokens), dist, d)
    &&& forall|s: int| 0 <= s < 286 && block::lit_freq(tokens)[s] > 0 ==> #[trigger] lit[s] >= 1
    &&& forall|s: int| 0 <= s < 30 && block::dist_freq(tokens)[s] > 0 ==> #[trigger] dist[s] >= 1
}

proof fn lemma_padded_bits(freq: Seq<u32>, lens: Seq<u8>, padded: Seq<u8>)
    requires
        lens.len() == freq.len() == padded.len(),
        forall|s: int| 0 <= s < freq.len() && freq[s] > 0 ==> #[trigger] padded[s] == lens[s],
    ensures
        huffman_laws::coded_bits(freq, huffman_laws::as_nats(padded)) == huffman_laws::coded_bits(
            freq,
            huffman_laws::as_nats(lens),
        ),
{
    let (a, b) = (huffman_laws::as_nats(padded), huffman_laws::as_nats(lens));
    let x = Seq::new(freq.len(), |s: int| freq[s] * a[s]);
    let y = Seq::new(freq.len(), |s: int| freq[s] * b[s]);
    assert forall|s: int| 0 <= s < freq.len() implies #[trigger] x[s] == y[s] by {
        if freq[s] == 0 {
            let (u, v) = (a[s] as int, b[s] as int);
            assert(0 * u == 0 && 0 * v == 0) by (nonlinear_arith);
        } else {
            assert(padded[s] == lens[s]);
        }
    }
    assert(x =~= y);
}

proof fn lemma_kept_codes(lens: Seq<u8>, freq: Seq<u32>, s: int, dist: bool)
    requires
        lens.len() == freq.len(),
        dist ==> lens.len() == 30,
        !dist ==> lens.len() == 286,
        0 <= s < lens.len(),
        lens[s] > 0,
        block::coded(lens, lens.len()) < 2 ==> lens[s] == 1,
    ensures
        dist ==> block::pad_dist_lens(lens)[s] == lens[s],
        !dist ==> block::pad_lit_lens(lens)[s] == lens[s],
{
    lemma_coded_some(lens, lens.len(), s);
}

proof fn lemma_coded_some(lens: Seq<u8>, k: nat, s: int)
    requires
        0 <= s < k <= lens.len(),
        lens[s] > 0,
    ensures
        block::coded(lens, k) >= 1,
    decreases k,
{
    if s < k - 1 {
        lemma_coded_some(lens, (k - 1) as nat, s);
    }
}

proof fn lemma_coded_used(lens: Seq<u8>, freq: Seq<u32>, k: nat)
    requires
        k <= lens.len() == freq.len(),
        forall|s: int| 0 <= s < lens.len() ==> (#[trigger] lens[s] > 0) == (freq[s] > 0),
    ensures
        block::coded(lens, k) == huffman::used_count(freq, k),
    decreases k,
{
    if k > 0 {
        lemma_coded_used(lens, freq, (k - 1) as nat);
        assert((lens[k - 1] > 0) == (freq[k - 1] > 0));
    }
}

/// A block with codes of its own is as short as prefix codes make it: behind its
/// header it takes no more bits than the same tokens would with any other codes
/// that serve them.
pub proof fn law_block_body_is_the_shortest(
    tokens: Seq<Token>,
    ll: Seq<u8>,
    dl: Seq<u8>,
    ml: Seq<u8>,
    lit: Seq<nat>,
    dist: Seq<nat>,
    d: nat,
)
    requires
        lz77::all_encodable(tokens),
        tokens.len() < u32::MAX,
        block::dynamic_lens(tokens) == Some((ll, dl, ml)),
        lit.len() == 286,
        dist.len() == 30,
        serves(lit, dist, tokens, d),
    ensures
        block::body_bits(ll, dl, tokens).len() <= body_size(lit, dist, tokens),
{
    let f = block::lit_freq(tokens);
    let g = block::dist_freq(tokens);
    let own_l = huffman::code_lengths(f, 15)->0;
    let own_d = huffman::code_lengths(g, 15)->0;
    canonical::law_code_lengths(f, 15, 15);
    canonical::law_code_lengths(g, 15, 15);
    lemma_coded_used(own_l, f, 286);
    lemma_coded_used(own_d, g, 30);
    assert forall|s: int| 0 <= s < 286 && f[s] > 0 implies #[trigger] ll[s] == own_l[s] by {
        assert((own_l[s] > 0) == (f[s] > 0));
        lemma_kept_codes(own_l, f, s, false);
    }
    assert forall|s: int| 0 <= s < 30 && g[s] > 0 implies #[trigger] dl[s] == own_d[s] by {
        assert((own_d[s] > 0) == (g[s] > 0));
        lemma_kept_codes(own_d, g, s, true);
    }
    lemma_padded_bits(f, own_l, ll);
    lemma_padded_bits(g, own_d, dl);
    huffman_laws::lemma_shortest(f, 15, lit, d);
    huffman_laws::lemma_shortest(g, 15, dist, d);
    lemma_body_size(ll, dl, tokens);
    lemma_body_by_symbol(huffman_laws::as_nats(ll), huffman_laws::as_nats(dl), tokens);
    lemma_body_by_symbol(lit, dist, tokens);
}

proof fn lemma_trimmed_tight(lens: Seq<u8>, n: nat, min: nat)
    requires
        min <= n <= lens.len(),
    ensures
        block::trimmed(lens, n, min) == min || lens[block::trimmed(lens, n, min) - 1] > 0,
    decreases n,
{
    if n > min && lens[n - 1] == 0 {
        lemma_trimmed_tight(lens, (n - 1) as nat, min);
    }
}

proof fn lemma_meta_tight(lens: Seq<u8>, n: nat)
    requires
        4 <= n <= 19,
        lens.len() == 19,
    ensures
        block::meta_count(lens, n) == 4 || lens[tables::META_ORDER@[block::meta_count(lens, n)
            - 1] as int] > 0,
    decreases n,
{
    if n > 4 && lens[tables::META_ORDER@[n - 1] as int] == 0 {
        lemma_meta_tight(lens, (n - 1) as nat);
    }
}

/// A header tells no more lengths than it needs to: the last of each kind is not 0
/// unless there must be so many, and what is left out is 0.
pub proof fn law_headers_are_trimmed(ll: Seq<u8>, dl: Seq<u8>, ml: Seq<u8>)
    requires
        ll.len() == 286,
        dl.len() == 30,
        ml.len() == 19,
    ensures
        ({
            let b = block::header_bits(ll, dl, ml);
            let (nlit, _) = inflate::read_number(b.skip(3), 5)->0;
            let (ndist, _) = inflate::read_number(b.skip(8), 5)->0;
            let (nmeta, _) = inflate::read_number(b.skip(13), 4)->0;
            &&& b.len() >= 17
            &&& nlit == 0 || ll[nlit as int + 256] > 0
            &&& forall|s: int| nlit + 257 <= s < 286 ==> #[trigger] ll[s] == 0
            &&& ndist == 0 || dl[ndist as int] > 0
            &&& forall|s: int| ndist + 1 <= s < 30 ==> #[trigger] dl[s] == 0
            &&& nmeta == 0 || ml[tables::META_ORDER@[nmeta as int + 3] as int] > 0
            &&& forall|i: int|
                nmeta + 4 <= i < 19 ==> ml[#[trigger] tables::META_ORDER@[i] as int] == 0
        }),
{
    let b = block::header_bits(ll, dl, ml);
    let nlit = block::trimmed(ll, 286, 257);
    let ndist = block::trimmed(dl, 30, 1);
    let nmeta = block::meta_count(ml, 19);
    block::lemma_trimmed(ll, 286, 257);
    block::lemma_trimmed(dl, 30, 1);
    block::lemma_meta_count(ml, 19);
    lemma_trimmed_tight(ll, 286, 257);
    lemma_trimmed_tight(dl, 30, 1);
    lemma_meta_tight(ml, 19);
    let tail = block::meta_bits(ml, 0, nmeta) + block::entries_bits(
        ml,
        block::header_entries(ll, dl),
    );
    let (h, d, m) = (
        bits::lsb_bits((nlit - 257) as nat, 5),
        bits::lsb_bits((ndist - 1) as nat, 5),
        bits::lsb_bits((nmeta - 4) as nat, 4),
    );
    bits::lemma_lsb_len(0b101, 3);
    bits::lemma_lsb_len((nlit - 257) as nat, 5);
    bits::lemma_lsb_len((ndist - 1) as nat, 5);
    bits::lemma_lsb_len((nmeta - 4) as nat, 4);
    assert(b.skip(3) =~= h + (d + m + tail));
    assert(b.skip(8) =~= d + (m + tail));
    assert(b.skip(13) =~= m + tail);
    power2::lemma2_to64();
    inflate::lemma_read_number((nlit - 257) as nat, 5, d + m + tail);
    inflate::lemma_read_number((ndist - 1) as nat, 5, m + tail);
    inflate::lemma_read_number((nmeta - 4) as nat, 4, tail);
}

/// The code in which a header tells the lengths is the shortest for its entries,
/// too.
pub proof fn law_header_code_is_the_shortest(
    entries: Seq<RleEntry>,
    ml: Seq<u8>,
    other: Seq<nat>,
    d: nat,
)
    requires
        block::meta_lens_for(entries) == Some(ml),
        huffman_laws::are_code_lengths(block::meta_freq(entries), other, d),
        forall|c: int|
            0 <= c < 19 && block::meta_freq(entries)[c] > 0 ==> #[trigger] other[c] >= 1,
    ensures
        huffman_laws::coded_bits(block::meta_freq(entries), huffman_laws::as_nats(ml))
            <= huffman_laws::coded_bits(block::meta_freq(entries), other),
{
    huffman_laws::lemma_shortest(block::meta_freq(entries), 7, other, d);
}

} // verus!
