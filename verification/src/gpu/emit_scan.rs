//! Where the threads of a device place the bits of a block, and what comes of
//! it.
//!
//! Tokens are handled in groups of `WG_SIZE`. One pass adds up the bits of the tokens in
//! front of each token in its group, a second one the bits of the groups in
//! front of each group. The sum of the two is where the bits of the token go.
use crate::gpu::bits;
use crate::gpu::block;
use crate::gpu::canonical;
use crate::gpu::dispatch;
use crate::gpu::fixed;
use crate::gpu::huffman_emit_v2::WG_SIZE;
use crate::gpu::lz77::Token;
use vstd::prelude::*;

verus! {

/// How many bits the tokens from `a` up to `b` have.
pub open spec fn bits_between(
    lit_lens: Seq<u8>,
    dist_lens: Seq<u8>,
    tokens: Seq<Token>,
    a: int,
    b: int,
) -> nat
    decreases b - a,
{
    if a >= b {
        0
    } else {
        bits_between(lit_lens, dist_lens, tokens, a, b - 1) + block::token_bits(
            lit_lens,
            dist_lens,
            tokens[b - 1],
        ).len()
    }
}

/// How many bits the tokens of group `w` have.
pub open spec fn group_total(
    lit_lens: Seq<u8>,
    dist_lens: Seq<u8>,
    tokens: Seq<Token>,
    w: int,
) -> nat {
    let end = WG_SIZE * (w + 1);
    bits_between(
        lit_lens,
        dist_lens,
        tokens,
        WG_SIZE * w,
        if end < tokens.len() {
            end
        } else {
            tokens.len() as int
        },
    )
}

/// How many bits the tokens of the groups in front of group `w` have.
pub open spec fn group_base(
    lit_lens: Seq<u8>,
    dist_lens: Seq<u8>,
    tokens: Seq<Token>,
    w: int,
) -> nat
    decreases w,
{
    if w <= 0 {
        0
    } else {
        group_base(lit_lens, dist_lens, tokens, w - 1) + group_total(
            lit_lens,
            dist_lens,
            tokens,
            w - 1,
        )
    }
}

/// Where the bits of token `i` go, behind the header: the base of its group,
/// and the bits of the tokens in front of it in the group.
pub open spec fn offset(
    lit_lens: Seq<u8>,
    dist_lens: Seq<u8>,
    tokens: Seq<Token>,
    i: int,
) -> nat {
    group_base(lit_lens, dist_lens, tokens, i / (WG_SIZE as int)) + bits_between(
        lit_lens,
        dist_lens,
        tokens,
        WG_SIZE * (i / (WG_SIZE as int)),
        i,
    )
}

proof fn lemma_between_split(
    lit_lens: Seq<u8>,
    dist_lens: Seq<u8>,
    tokens: Seq<Token>,
    a: int,
    b: int,
    c: int,
)
    requires
        a <= b <= c,
    ensures
        bits_between(lit_lens, dist_lens, tokens, a, c) == bits_between(
            lit_lens,
            dist_lens,
            tokens,
            a,
            b,
        ) + bits_between(lit_lens, dist_lens, tokens, b, c),
    decreases c - b,
{
    if b < c {
        lemma_between_split(lit_lens, dist_lens, tokens, a, b, c - 1);
    }
}

proof fn lemma_group_base(lit_lens: Seq<u8>, dist_lens: Seq<u8>, tokens: Seq<Token>, w: int)
    requires
        0 <= w,
        WG_SIZE * w <= tokens.len(),
    ensures
        group_base(lit_lens, dist_lens, tokens, w) == bits_between(
            lit_lens,
            dist_lens,
            tokens,
            0,
            WG_SIZE * w,
        ),
    decreases w,
{
    if w > 0 {
        lemma_group_base(lit_lens, dist_lens, tokens, w - 1);
        lemma_between_split(lit_lens, dist_lens, tokens, 0, WG_SIZE * (w - 1), WG_SIZE * w);
    }
}

/// Two scans make one: where the bits of a token go is how many bits all the
/// tokens in front of it have.
pub proof fn law_two_scans_make_one(
    lit_lens: Seq<u8>,
    dist_lens: Seq<u8>,
    tokens: Seq<Token>,
    i: int,
)
    requires
        0 <= i <= tokens.len(),
    ensures
        offset(lit_lens, dist_lens, tokens, i) == bits_between(
            lit_lens,
            dist_lens,
            tokens,
            0,
            i,
        ),
{
    let w = i / (WG_SIZE as int);
    assert(WG_SIZE * w <= i);
    lemma_group_base(lit_lens, dist_lens, tokens, w);
    lemma_between_split(lit_lens, dist_lens, tokens, 0, WG_SIZE * w, i);
}

/// The output holds the header, the bits of every token where they go, the end
/// of the block behind the last one, and nothing else.
pub open spec fn emitted(
    out: Seq<bool>,
    header: Seq<bool>,
    lit_lens: Seq<u8>,
    dist_lens: Seq<u8>,
    tokens: Seq<Token>,
) -> bool {
    let n = tokens.len() as int;
    let start = header.len();
    let end = start + offset(lit_lens, dist_lens, tokens, n);
    let eob = canonical::code_bits(lit_lens, 256);
    &&& end + eob.len() <= out.len()
    &&& out.take(start as int) == header
    &&& forall|i: int|
        0 <= i < n ==> holds_at(
            out,
            start + offset(lit_lens, dist_lens, tokens, i),
            #[trigger] block::token_bits(lit_lens, dist_lens, tokens[i]),
        )
    &&& holds_at(out, end, eob)
    &&& forall|p: int| end + eob.len() <= p < out.len() ==> !(#[trigger] out[p])
}

/// The bits stand at `p`.
pub open spec fn holds_at(out: Seq<bool>, p: nat, b: Seq<bool>) -> bool {
    p + b.len() <= out.len() && out.subrange(p as int, (p + b.len()) as int) == b
}

proof fn lemma_holds_both(out: Seq<bool>, p: nat, x: Seq<bool>, y: Seq<bool>)
    requires
        holds_at(out, p, x),
        holds_at(out, p + x.len(), y),
    ensures
        holds_at(out, p, x + y),
{
    let both = x + y;
    let q = (p + x.len()) as int;
    assert forall|k: int| 0 <= k < both.len() implies out[p + k] == both[k] by {
        if k < x.len() {
            assert(out.subrange(p as int, q)[k] == x[k]);
        } else {
            assert(out.subrange(q, q + y.len())[k - x.len()] == y[k - x.len()]);
        }
    }
    assert(out.subrange(p as int, (p + both.len()) as int) =~= both);
}

/// Every token stands behind those in front of it, and the end of the block
/// behind all of them.
proof fn lemma_placed(
    out: Seq<bool>,
    header: Seq<bool>,
    lit_lens: Seq<u8>,
    dist_lens: Seq<u8>,
    tokens: Seq<Token>,
    i: int,
)
    requires
        emitted(out, header, lit_lens, dist_lens, tokens),
        0 <= i <= tokens.len(),
    ensures
        holds_at(
            out,
            header.len() + bits_between(lit_lens, dist_lens, tokens, 0, i),
            if i < tokens.len() {
                block::token_bits(lit_lens, dist_lens, tokens[i])
            } else {
                canonical::code_bits(lit_lens, 256)
            },
        ),
{
    law_two_scans_make_one(lit_lens, dist_lens, tokens, i);
    if i < tokens.len() {
        let b = block::token_bits(lit_lens, dist_lens, tokens[i]);
        assert(holds_at(out, header.len() + offset(lit_lens, dist_lens, tokens, i), b));
    }
}

/// From every token on, the output holds what is left of the body.
proof fn lemma_body_from(
    out: Seq<bool>,
    h: nat,
    lit_lens: Seq<u8>,
    dist_lens: Seq<u8>,
    tokens: Seq<Token>,
    i: int,
)
    requires
        0 <= i <= tokens.len(),
        forall|j: int|
            0 <= j <= tokens.len() ==> holds_at(
                out,
                h + #[trigger] bits_between(lit_lens, dist_lens, tokens, 0, j),
                if j < tokens.len() {
                    block::token_bits(lit_lens, dist_lens, tokens[j])
                } else {
                    canonical::code_bits(lit_lens, 256)
                },
            ),
    ensures
        holds_at(
            out,
            h + bits_between(lit_lens, dist_lens, tokens, 0, i),
            block::body_bits(lit_lens, dist_lens, tokens.skip(i)),
        ),
        bits_between(lit_lens, dist_lens, tokens, 0, i) + block::body_bits(
            lit_lens,
            dist_lens,
            tokens.skip(i),
        ).len() == bits_between(lit_lens, dist_lens, tokens, 0, tokens.len() as int)
            + canonical::code_bits(lit_lens, 256).len(),
    decreases tokens.len() - i,
{
    let n = tokens.len() as int;
    let before = bits_between(lit_lens, dist_lens, tokens, 0, i);
    if i == n {
        assert(tokens.skip(i) =~= Seq::<Token>::empty());
    } else {
        lemma_body_from(out, h, lit_lens, dist_lens, tokens, i + 1);
        let rest = tokens.skip(i);
        assert(rest[0] == tokens[i]);
        assert(rest.skip(1) =~= tokens.skip(i + 1));
        let head = block::token_bits(lit_lens, dist_lens, tokens[i]);
        let tail = block::body_bits(lit_lens, dist_lens, tokens.skip(i + 1));
        assert(bits_between(lit_lens, dist_lens, tokens, 0, i + 1) == before + head.len());
        lemma_holds_both(out, h + before, head, tail);
        assert(block::body_bits(lit_lens, dist_lens, rest) == head + tail);
    }
}

/// Whatever order the threads work in, what they place makes up the block: the
/// header and the body, with only zeros behind. Cut to whole bytes, the output
/// is the block as the encoders write it.
pub proof fn law_placed_bits_are_the_block(
    raw: Seq<u8>,
    header: Seq<bool>,
    lit_lens: Seq<u8>,
    dist_lens: Seq<u8>,
    tokens: Seq<Token>,
)
    requires
        emitted(bits::bytes_bits(raw), header, lit_lens, dist_lens, tokens),
    ensures
        ({
            let stream = header + block::body_bits(lit_lens, dist_lens, tokens);
            let size = dispatch::ceil_div(stream.len() as int, 8);
            &&& size <= raw.len()
            &&& bits::bytes_bits(raw.take(size)) == bits::pad_to_byte(stream)
        }),
{
    let out = bits::bytes_bits(raw);
    let body = block::body_bits(lit_lens, dist_lens, tokens);
    let stream = header + body;
    assert forall|j: int| 0 <= j <= tokens.len() implies holds_at(
        out,
        header.len() + #[trigger] bits_between(lit_lens, dist_lens, tokens, 0, j),
        if j < tokens.len() {
            block::token_bits(lit_lens, dist_lens, tokens[j])
        } else {
            canonical::code_bits(lit_lens, 256)
        },
    ) by {
        lemma_placed(out, header, lit_lens, dist_lens, tokens, j);
    }
    lemma_body_from(out, header.len(), lit_lens, dist_lens, tokens, 0);
    law_two_scans_make_one(lit_lens, dist_lens, tokens, tokens.len() as int);
    assert(tokens.skip(0) =~= tokens);
    let h = header.len() as int;
    let spare = (out.len() - stream.len()) as nat;
    assert(out =~= stream + bits::zero_bits(spare)) by {
        assert forall|p: int| 0 <= p < out.len() implies out[p] == (stream + bits::zero_bits(
            spare,
        ))[p] by {
            if p < h {
                assert(out.take(h)[p] == header[p]);
            } else if p < stream.len() {
                assert(out.subrange(h, h + body.len())[p - h] == body[p - h]);
            }
        }
    }
    dispatch::law_trimmed_output(raw, stream, spare);
}

/// Under the fixed code, the output is the block that the host would write,
/// byte for byte.
pub proof fn law_emitted_fixed_block(raw: Seq<u8>, tokens: Seq<Token>, written: Seq<u8>)
    requires
        emitted(
            bits::bytes_bits(raw),
            bits::lsb_bits(0b011, 3),
            fixed::litlen_lens(),
            fixed::dist_lens(),
            tokens,
        ),
        bits::bytes_bits(written) == bits::pad_to_byte(block::fixed_block_bits(tokens)),
    ensures
        raw.take(dispatch::ceil_div(block::fixed_block_bits(tokens).len() as int, 8)) == written,
{
    law_placed_bits_are_the_block(
        raw,
        bits::lsb_bits(0b011, 3),
        fixed::litlen_lens(),
        fixed::dist_lens(),
        tokens,
    );
    bits::law_same_bits_same_bytes(
        raw.take(dispatch::ceil_div(block::fixed_block_bits(tokens).len() as int, 8)),
        written,
    );
}

/// With codes of its own, the output is the block that the host would write,
/// byte for byte.
pub proof fn law_emitted_dynamic_block(raw: Seq<u8>, tokens: Seq<Token>, written: Seq<u8>)
    requires
        block::dynamic_lens(tokens) is Some,
        ({
            let (ll, dl, ml) = block::dynamic_lens(tokens)->0;
            emitted(bits::bytes_bits(raw), block::header_bits(ll, dl, ml), ll, dl, tokens)
        }),
        bits::bytes_bits(written) == bits::pad_to_byte(block::block_bits(tokens)),
    ensures
        raw.take(dispatch::ceil_div(block::block_bits(tokens).len() as int, 8)) == written,
{
    let (ll, dl, ml) = block::dynamic_lens(tokens)->0;
    law_placed_bits_are_the_block(raw, block::header_bits(ll, dl, ml), ll, dl, tokens);
    bits::law_same_bits_same_bytes(
        raw.take(dispatch::ceil_div(block::block_bits(tokens).len() as int, 8)),
        written,
    );
}

} // verus!
