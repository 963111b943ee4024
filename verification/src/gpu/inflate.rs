//! What a DEFLATE decoder makes of a block, and the proof that it gets back the
//! tokens that were encoded.
use crate::cpu::parallel;
use crate::cpu::parallel_decompress;
use crate::gpu::bits;
use crate::gpu::block;
use crate::gpu::canonical;
use crate::gpu::fixed;
use crate::gpu::lz77;
use crate::gpu::lz77::Token;
use crate::gpu::rle;
use crate::gpu::rle::RleEntry;
use crate::gpu::tables;
use crate::gpu::tables::META_ORDER;
use crate::gzip;
use vstd::arithmetic::power2;
use vstd::prelude::*;

verus! {

/// The number whose bits are given, least significant first.
pub open spec fn bits_value(b: Seq<bool>) -> nat
    decreases b.len(),
{
    if b.len() == 0 {
        0
    } else {
        (if b[0] {
            1nat
        } else {
            0nat
        }) + 2 * bits_value(b.skip(1))
    }
}

/// Reads a number of `n` bits. The second part is what follows.
pub open spec fn read_number(b: Seq<bool>, n: nat) -> Option<(nat, Seq<bool>)> {
    if b.len() < n {
        None
    } else {
        Some((bits_value(b.take(n as int)), b.skip(n as int)))
    }
}

/// The stream begins with the code of `sym`.
pub open spec fn starts_with_code(lens: Seq<u8>, sym: int, b: Seq<bool>) -> bool {
    &&& 0 <= sym < lens.len()
    &&& lens[sym] > 0
    &&& canonical::is_prefix(canonical::code_bits(lens, sym), b)
}

/// Reads a symbol: the one whose code the stream begins with.
pub open spec fn read_symbol(lens: Seq<u8>, b: Seq<bool>) -> Option<(int, Seq<bool>)> {
    if exists|s: int| starts_with_code(lens, s, b) {
        let s = choose|s: int| starts_with_code(lens, s, b);
        Some((s, b.skip(lens[s] as int)))
    } else {
        None
    }
}

pub proof fn lemma_symbol_shortens(lens: Seq<u8>, b: Seq<bool>)
    ensures
        read_symbol(lens, b) matches Some((s, rest)) ==> rest.len() < b.len(),
{
    if exists|s: int| starts_with_code(lens, s, b) {
        let s = choose|s: int| starts_with_code(lens, s, b);
        bits::lemma_msb_len(canonical::code_of(lens, s), lens[s] as nat);
    }
}

/// Reads what follows a length symbol: its extra bits, the distance symbol and
/// its extra bits.
pub open spec fn read_match(dist_lens: Seq<u8>, sym: int, b: Seq<bool>) -> Option<
    (Token, Seq<bool>),
> {
    let row = sym - 257;
    match read_number(b, tables::LENGTH_EXTRA@[row] as nat) {
        Some((lv, b1)) => match read_symbol(dist_lens, b1) {
            Some((ds, b2)) => match read_number(b2, tables::DIST_EXTRA@[ds] as nat) {
                Some((dv, b3)) => Some(
                    (
                        Token {
                            length: (tables::LENGTH_BASE@[row] + lv) as u32,
                            distance: (tables::DIST_BASE@[ds] + dv) as u32,
                        },
                        b3,
                    ),
                ),
                None => None,
            },
            None => None,
        },
        None => None,
    }
}

pub proof fn lemma_match_shortens(dist_lens: Seq<u8>, sym: int, b: Seq<bool>)
    ensures
        read_match(dist_lens, sym, b) matches Some((t, rest)) ==> rest.len() <= b.len(),
{
    let row = sym - 257;
    match read_number(b, tables::LENGTH_EXTRA@[row] as nat) {
        Some((lv, b1)) => {
            lemma_symbol_shortens(dist_lens, b1);
        },
        None => {},
    }
}

/// Reads tokens up to the end-of-block symbol.
pub open spec fn read_tokens(lit_lens: Seq<u8>, dist_lens: Seq<u8>, b: Seq<bool>) -> Option<
    (Seq<Token>, Seq<bool>),
>
    decreases b.len(),
{
    proof {
        lemma_symbol_shortens(lit_lens, b);
    }
    match read_symbol(lit_lens, b) {
        Some((s, rest)) => if s < 256 {
            match read_tokens(lit_lens, dist_lens, rest) {
                Some((tokens, end)) => Some(
                    (seq![Token { length: 0, distance: s as u32 }] + tokens, end),
                ),
                None => None,
            }
        } else if s == 256 {
            Some((Seq::empty(), rest))
        } else if s < 286 {
            proof {
                lemma_match_shortens(dist_lens, s, rest);
            }
            match read_match(dist_lens, s, rest) {
                Some((token, next)) => match read_tokens(lit_lens, dist_lens, next) {
                    Some((tokens, end)) => Some((seq![token] + tokens, end)),
                    None => None,
                },
                None => None,
            }
        } else {
            None
        },
        None => None,
    }
}

/// Reads the lengths of the code length code from the `i`-th to the `n`-th in
/// writing order.
pub open spec fn read_meta_lens(lens: Seq<u8>, i: nat, n: nat, b: Seq<bool>) -> Option<
    (Seq<u8>, Seq<bool>),
>
    decreases n - i,
{
    if i >= n {
        Some((lens, b))
    } else {
        match read_number(b, 3) {
            Some((v, rest)) => read_meta_lens(
                lens.update(META_ORDER@[i as int] as int, v as u8),
                i + 1,
                n,
                rest,
            ),
            None => None,
        }
    }
}

/// How many extra bits follow a symbol of the code length alphabet.
pub open spec fn meta_extra(code: int) -> nat {
    if code == 16 {
        2
    } else if code == 17 {
        3
    } else if code == 18 {
        7
    } else {
        0
    }
}

/// Reads code lengths until there are `total`.
pub open spec fn read_lens(meta_lens: Seq<u8>, total: nat, out: Seq<u8>, b: Seq<bool>) -> Option<
    (Seq<u8>, Seq<bool>),
>
    decreases b.len(),
{
    proof {
        lemma_symbol_shortens(meta_lens, b);
    }
    if out.len() == total {
        Some((out, b))
    } else if out.len() > total {
        None
    } else {
        match read_symbol(meta_lens, b) {
            Some((c, rest)) => match read_number(rest, meta_extra(c)) {
                Some((v, next)) => if c == 16 && out.len() == 0 {
                    None
                } else {
                    read_lens(
                        meta_lens,
                        total,
                        rle::apply_entry(
                            out,
                            RleEntry {
                                code: c as u8,
                                extra_bits: meta_extra(c) as u32,
                                extra_value: v as u32,
                            },
                        ),
                        next,
                    )
                },
                None => None,
            },
            None => None,
        }
    }
}

/// Reads a block with codes of its own, from behind the block type.
pub open spec fn read_dynamic(b: Seq<bool>) -> Option<(Seq<Token>, Seq<bool>)> {
    match (read_number(b, 5), read_number(b.skip(5), 5), read_number(b.skip(10), 4)) {
        (Some((hlit, _)), Some((hdist, _)), Some((hclen, b1))) => match read_meta_lens(
            rle::copies(0, 19),
            0,
            hclen + 4,
            b1,
        ) {
            Some((meta_lens, b2)) => {
                let nlit = hlit + 257;
                let ndist = hdist + 1;
                match read_lens(meta_lens, nlit + ndist, Seq::empty(), b2) {
                    Some((lens, b3)) => if nlit <= 286 && ndist <= 30 {
                        read_tokens(
                            lens.take(nlit as int) + rle::copies(0, (286 - nlit) as nat),
                            lens.skip(nlit as int) + rle::copies(0, (30 - ndist) as nat),
                            b3,
                        )
                    } else {
                        None
                    },
                    None => None,
                }
            },
            None => None,
        },
        _ => None,
    }
}

/// Reads a final block: its tokens, and what follows it in the stream. Stored
/// blocks, which the encoders never write, are left out.
pub open spec fn read_block(b: Seq<bool>) -> Option<(Seq<Token>, Seq<bool>)> {
    match read_number(b, 3) {
        Some((kind, rest)) => if kind == 0b011 {
            read_tokens(fixed::litlen_lens(), fixed::dist_lens(), rest)
        } else if kind == 0b101 {
            read_dynamic(rest)
        } else {
            None
        },
        None => None,
    }
}

/// The bytes that a one-block DEFLATE stream stands for.
pub open spec fn inflate(bytes: Seq<u8>) -> Option<Seq<u8>> {
    match read_block(bits::bytes_bits(bytes)) {
        Some((tokens, rest)) => if lz77::reaches_back(Seq::empty(), tokens) && rest.len() < 8 {
            Some(lz77::expand(tokens))
        } else {
            None
        },
        None => None,
    }
}

/// Reads the gzip member at the start of a stream: the bytes that it stands for,
/// if its header, checksum and size are in order, and how long it is.
pub open spec fn first_member(bytes: Seq<u8>) -> Option<(Seq<u8>, int)> {
    if bytes.len() < 10 || bytes.take(10) != gzip::GZIP_HEADER@ {
        None
    } else {
        match read_block(bits::bytes_bits(bytes.skip(10))) {
            Some((tokens, rest)) => {
                let data = lz77::expand(tokens);
                let end = bytes.len() - rest.len() as int / 8;
                if lz77::reaches_back(Seq::empty(), tokens) && end + 8 <= bytes.len()
                    && bytes.subrange(end, end + 8) == gzip::trailer(data) {
                    Some((data, end + 8))
                } else {
                    None
                }
            },
            None => None,
        }
    }
}

/// The bytes that a gzip member stands for.
pub open spec fn read_member(bytes: Seq<u8>) -> Option<Seq<u8>> {
    match first_member(bytes) {
        Some((data, n)) => if n == bytes.len() {
            Some(data)
        } else {
            None
        },
        None => None,
    }
}

/// The member stands for the bytes, whatever follows it.
pub open spec fn is_member(member: Seq<u8>, data: Seq<u8>) -> bool {
    forall|rest: Seq<u8>| #[trigger] first_member(member + rest) == Some((data, member.len() as int))
}

/// The bytes that a stream of gzip members stands for.
pub open spec fn read_members(bytes: Seq<u8>) -> Option<Seq<u8>>
    decreases bytes.len(),
{
    if bytes.len() == 0 {
        Some(Seq::empty())
    } else {
        match first_member(bytes) {
            Some((data, n)) => if 0 < n <= bytes.len() {
                match read_members(bytes.skip(n)) {
                    Some(more) => Some(data + more),
                    None => None,
                }
            } else {
                None
            },
            None => None,
        }
    }
}

proof fn lemma_bits_value(v: nat, n: nat)
    requires
        v < power2::pow2(n),
    ensures
        bits_value(bits::lsb_bits(v, n)) == v,
    decreases n,
{
    power2::lemma2_to64();
    if n > 0 {
        let m = (n - 1) as nat;
        power2::lemma_pow2_unfold(n);
        lemma_bits_value(v / 2, m);
        let b = bits::lsb_bits(v, n);
        assert(b[0] == (v % 2 == 1));
        assert(b.skip(1) =~= bits::lsb_bits(v / 2, m));
    }
}

/// A number that was written is read back.
pub proof fn lemma_read_number(v: nat, n: nat, rest: Seq<bool>)
    requires
        v < power2::pow2(n),
    ensures
        read_number(bits::lsb_bits(v, n) + rest, n) == Some((v, rest)),
{
    lemma_bits_value(v, n);
    bits::lemma_lsb_len(v, n);
    let b = bits::lsb_bits(v, n) + rest;
    assert(b.take(n as int) =~= bits::lsb_bits(v, n));
    assert(b.skip(n as int) =~= rest);
}

/// A symbol that was written is read back.
pub proof fn lemma_read_symbol(lens: Seq<u8>, d: nat, s: int, rest: Seq<bool>)
    requires
        canonical::kraft_ok(lens, d),
        0 <= s < lens.len(),
        lens[s] > 0,
    ensures
        read_symbol(lens, canonical::code_bits(lens, s) + rest) == Some((s, rest)),
{
    let code = canonical::code_bits(lens, s);
    let b = code + rest;
    bits::lemma_msb_len(canonical::code_of(lens, s), lens[s] as nat);
    assert(b.take(code.len() as int) =~= code);
    assert(starts_with_code(lens, s, b));
    let t = choose|t: int| starts_with_code(lens, t, b);
    assert(starts_with_code(lens, t, b));
    if t != s {
        let other = canonical::code_bits(lens, t);
        bits::lemma_msb_len(canonical::code_of(lens, t), lens[t] as nat);
        if other.len() <= code.len() {
            assert(code.take(other.len() as int) =~= b.take(other.len() as int));
            canonical::law_prefix_free(lens, d, t, s);
        } else {
            assert(other.take(code.len() as int) =~= b.take(code.len() as int));
            canonical::law_prefix_free(lens, d, s, t);
        }
    }
    assert(b.skip(lens[s] as int) =~= rest);
}

proof fn lemma_read_match(dist_lens: Seq<u8>, token: Token, rest: Seq<bool>)
    requires
        token.encodable(),
        !token.is_literal(),
        dist_lens.len() == 30,
        canonical::kraft_ok(dist_lens, 15),
        dist_lens[block::dist_symbol(token)] > 0,
    ensures
        ({
            let (ls, le, lv) = tables::length_code_spec(token.length as int);
            let (ds, de, dv) = tables::distance_code_spec(token.distance as int);
            read_match(
                dist_lens,
                ls,
                bits::lsb_bits(lv as nat, le as nat) + (canonical::code_bits(dist_lens, ds) + (
                bits::lsb_bits(dv as nat, de as nat) + rest)),
            ) == Some((token, rest))
        }),
{
    let (ls, le, lv) = tables::length_code_spec(token.length as int);
    let (ds, de, dv) = tables::distance_code_spec(token.distance as int);
    tables::lemma_length_row(token.length as int);
    tables::lemma_dist_row(token.distance as int);
    let b2 = bits::lsb_bits(dv as nat, de as nat) + rest;
    let b1 = canonical::code_bits(dist_lens, ds) + b2;
    lemma_read_number(lv as nat, le as nat, b1);
    lemma_read_symbol(dist_lens, 15, ds, b2);
    lemma_read_number(dv as nat, de as nat, rest);
}

proof fn lemma_read_literal(
    lit_lens: Seq<u8>,
    dist_lens: Seq<u8>,
    token: Token,
    after: Seq<bool>,
    more: Seq<Token>,
    rest: Seq<bool>,
)
    requires
        token.encodable(),
        token.is_literal(),
        lit_lens.len() >= 286,
        canonical::kraft_ok(lit_lens, 15),
        lit_lens[block::lit_symbol(token)] > 0,
        read_tokens(lit_lens, dist_lens, after) == Some((more, rest)),
    ensures
        read_tokens(lit_lens, dist_lens, block::token_bits(lit_lens, dist_lens, token) + after)
            == Some((seq![token] + more, rest)),
{
    lemma_read_symbol(lit_lens, 15, token.distance as int, after);
    assert(token == Token { length: 0, distance: token.distance });
}

proof fn lemma_read_reference(
    lit_lens: Seq<u8>,
    dist_lens: Seq<u8>,
    token: Token,
    after: Seq<bool>,
    more: Seq<Token>,
    rest: Seq<bool>,
)
    requires
        token.encodable(),
        !token.is_literal(),
        lit_lens.len() >= 286,
        dist_lens.len() == 30,
        canonical::kraft_ok(lit_lens, 15),
        canonical::kraft_ok(dist_lens, 15),
        lit_lens[block::lit_symbol(token)] > 0,
        dist_lens[block::dist_symbol(token)] > 0,
        read_tokens(lit_lens, dist_lens, after) == Some((more, rest)),
    ensures
        read_tokens(lit_lens, dist_lens, block::token_bits(lit_lens, dist_lens, token) + after)
            == Some((seq![token] + more, rest)),
{
    let b = block::token_bits(lit_lens, dist_lens, token) + after;
    let s = block::lit_symbol(token);
    let (ls, le, lv) = tables::length_code_spec(token.length as int);
    let (ds, de, dv) = tables::distance_code_spec(token.distance as int);
    block::lemma_symbols(token);
    let tail = bits::lsb_bits(lv as nat, le as nat) + (canonical::code_bits(dist_lens, ds) + (
    bits::lsb_bits(dv as nat, de as nat) + after));
    assert(b =~= canonical::code_bits(lit_lens, s) + tail);
    lemma_read_symbol(lit_lens, 15, s, tail);
    lemma_read_match(dist_lens, token, after);
}

/// Tokens that were written are read back.
proof fn lemma_read_tokens(
    lit_lens: Seq<u8>,
    dist_lens: Seq<u8>,
    tokens: Seq<Token>,
    rest: Seq<bool>,
)
    requires
        lz77::all_encodable(tokens),
        block::lens_serve(lit_lens, dist_lens, tokens),
    ensures
        read_tokens(lit_lens, dist_lens, block::body_bits(lit_lens, dist_lens, tokens) + rest)
            == Some((tokens, rest)),
    decreases tokens.len(),
{
    let b = block::body_bits(lit_lens, dist_lens, tokens) + rest;
    if tokens.len() == 0 {
        lemma_read_symbol(lit_lens, 15, 256, rest);
        assert(Seq::<Token>::empty() =~= tokens);
    } else {
        let t = tokens[0];
        let more = tokens.skip(1);
        assert(t.encodable());
        assert forall|i: int| 0 <= i < more.len() implies (#[trigger] more[i]).encodable() && {
            &&& lit_lens[block::lit_symbol(more[i])] > 0
            &&& !more[i].is_literal() ==> dist_lens[block::dist_symbol(more[i])] > 0
        } by {
            assert(more[i] == tokens[i + 1]);
        }
        lemma_read_tokens(lit_lens, dist_lens, more, rest);
        let after = block::body_bits(lit_lens, dist_lens, more) + rest;
        assert(seq![t] + more =~= tokens);
        assert(b =~= block::token_bits(lit_lens, dist_lens, t) + after);
        if t.is_literal() {
            lemma_read_literal(lit_lens, dist_lens, t, after, more, rest);
        } else {
            lemma_read_reference(lit_lens, dist_lens, t, after, more, rest);
        }
    }
}

proof fn lemma_entry_adds(out: Seq<u8>, e: RleEntry)
    ensures
        rle::apply_entry(out, e).len() > out.len(),
{
}

proof fn lemma_entries_add(out: Seq<u8>, entries: Seq<RleEntry>)
    ensures
        rle::apply_entries(out, entries).len() >= out.len() + entries.len(),
    decreases entries.len(),
{
    if entries.len() > 0 {
        lemma_entry_adds(out, entries[0]);
        lemma_entries_add(rle::apply_entry(out, entries[0]), entries.skip(1));
    }
}

/// Code lengths that were written are read back.
proof fn lemma_read_lens(
    meta_lens: Seq<u8>,
    out: Seq<u8>,
    entries: Seq<RleEntry>,
    rest: Seq<bool>,
)
    requires
        meta_lens.len() == 19,
        canonical::kraft_ok(meta_lens, 7),
        rle::entries_ok(out, entries),
        forall|i: int|
            0 <= i < entries.len() ==> meta_lens[(#[trigger] entries[i]).code as int] > 0,
    ensures
        read_lens(
            meta_lens,
            rle::apply_entries(out, entries).len(),
            out,
            block::entries_bits(meta_lens, entries) + rest,
        ) == Some((rle::apply_entries(out, entries), rest)),
    decreases entries.len(),
{
    let total = rle::apply_entries(out, entries).len();
    let b = block::entries_bits(meta_lens, entries) + rest;
    if entries.len() == 0 {
        assert(b =~= rest);
    } else {
        let e = entries[0];
        let more = entries.skip(1);
        let next = rle::apply_entry(out, e);
        lemma_entry_adds(out, e);
        lemma_entries_add(next, more);
        assert forall|i: int| 0 <= i < more.len() implies meta_lens[(
        #[trigger] more[i]).code as int] > 0 by {
            assert(more[i] == entries[i + 1]);
        }
        lemma_read_lens(meta_lens, next, more, rest);
        let after = block::entries_bits(meta_lens, more) + rest;
        let extra = bits::lsb_bits(e.extra_value as nat, e.extra_bits as nat) + after;
        assert(b =~= canonical::code_bits(meta_lens, e.code as int) + extra);
        lemma_read_symbol(meta_lens, 7, e.code as int, extra);
        power2::lemma2_to64();
        lemma_read_number(e.extra_value as nat, e.extra_bits as nat, after);
        assert(meta_extra(e.code as int) == e.extra_bits);
    }
}

/// Where each symbol of the code length alphabet stands in writing order.
const META_POSITION: [usize; 19] = [
    3, 17, 15, 13, 11, 9, 7, 5, 4, 6, 8, 10, 12, 14, 16, 18, 0, 1, 2,
];

/// The lengths of the code length code of which the first `i` in writing order
/// are known.
spec fn known_meta(meta_lens: Seq<u8>, i: nat) -> Seq<u8> {
    Seq::new(
        19,
        |k: int|
            if META_POSITION@[k] < i {
                meta_lens[k]
            } else {
                0
            },
    )
}

proof fn lemma_meta_position(i: int)
    requires
        0 <= i < 19,
    ensures
        META_POSITION@[META_ORDER@[i] as int] == i,
        META_ORDER@[i] < 19,
        META_ORDER@[META_POSITION@[i] as int] == i,
        META_POSITION@[i] < 19,
{
}

proof fn lemma_read_meta_lens(meta_lens: Seq<u8>, i: nat, n: nat, rest: Seq<bool>)
    requires
        i <= n <= 19,
        meta_lens.len() == 19,
        forall|k: int| 0 <= k < 19 ==> #[trigger] meta_lens[k] <= 7,
    ensures
        read_meta_lens(
            known_meta(meta_lens, i),
            i,
            n,
            block::meta_bits(meta_lens, i, n) + rest,
        ) == Some((known_meta(meta_lens, n), rest)),
    decreases n - i,
{
    let b = block::meta_bits(meta_lens, i, n) + rest;
    if i < n {
        lemma_meta_position(i as int);
        let at = META_ORDER@[i as int] as int;
        let v = meta_lens[at] as nat;
        let after = block::meta_bits(meta_lens, i + 1, n) + rest;
        assert(b =~= bits::lsb_bits(v, 3) + after);
        power2::lemma2_to64();
        lemma_read_number(v, 3, after);
        lemma_read_meta_lens(meta_lens, i + 1, n, rest);
        assert(known_meta(meta_lens, i).update(at, v as u8) =~= known_meta(meta_lens, i + 1)) by {
            assert forall|k: int| 0 <= k < 19 implies #[trigger] known_meta(meta_lens, i).update(
                at,
                v as u8,
            )[k] == known_meta(meta_lens, i + 1)[k] by {
                lemma_meta_position(k);
            }
        }
    } else {
        assert(b =~= rest);
    }
}

proof fn lemma_all_meta_known(meta_lens: Seq<u8>)
    requires
        meta_lens.len() == 19,
    ensures
        known_meta(meta_lens, block::meta_count(meta_lens, 19)) == meta_lens,
{
    let n = block::meta_count(meta_lens, 19);
    block::lemma_meta_count(meta_lens, 19);
    assert forall|k: int| 0 <= k < 19 implies #[trigger] known_meta(meta_lens, n)[k]
        == meta_lens[k] by {
        lemma_meta_position(k);
        let j = META_POSITION@[k] as int;
        if j >= n {
            assert(meta_lens[META_ORDER@[j] as int] == 0);
        }
    }
    assert(known_meta(meta_lens, n) =~= meta_lens);
}

/// Trimmed lengths with zeros put back.
proof fn lemma_refill(lens: Seq<u8>, min: nat)
    requires
        min <= lens.len(),
    ensures
        lens.take(block::trimmed(lens, lens.len(), min) as int) + rle::copies(
            0,
            (lens.len() - block::trimmed(lens, lens.len(), min)) as nat,
        ) == lens,
{
    let n = block::trimmed(lens, lens.len(), min);
    block::lemma_trimmed(lens, lens.len(), min);
    assert(lens.take(n as int) + rle::copies(0, (lens.len() - n) as nat) =~= lens);
}

/// A block under the fixed code is read back.
pub proof fn law_fixed_block_decodes(tokens: Seq<Token>, rest: Seq<bool>)
    requires
        lz77::all_encodable(tokens),
    ensures
        read_block(block::fixed_block_bits(tokens) + rest) == Some((tokens, rest)),
{
    let ll = fixed::litlen_lens();
    let dl = fixed::dist_lens();
    fixed::lemma_fixed_kraft();
    assert forall|i: int| 0 <= i < tokens.len() implies ll[block::lit_symbol(#[trigger] tokens[i])]
        > 0 && (!tokens[i].is_literal() ==> dl[block::dist_symbol(tokens[i])] > 0) by {
        assert(tokens[i].encodable());
        block::lemma_symbols(tokens[i]);
    }
    lemma_read_tokens(ll, dl, tokens, rest);
    let body = block::body_bits(ll, dl, tokens) + rest;
    assert(block::fixed_block_bits(tokens) + rest =~= bits::lsb_bits(0b011, 3) + body);
    power2::lemma2_to64();
    lemma_read_number(0b011, 3, body);
}

/// The three numbers at the start of a header are read back.
proof fn lemma_read_counts(hlit: nat, hdist: nat, hclen: nat, rest: Seq<bool>)
    requires
        hlit < 32,
        hdist < 32,
        hclen < 16,
    ensures
        ({
            let b = bits::lsb_bits(hlit, 5) + bits::lsb_bits(hdist, 5) + bits::lsb_bits(hclen, 4)
                + rest;
            &&& read_number(b, 5) matches Some((v, _)) && v == hlit
            &&& read_number(b.skip(5), 5) matches Some((v, _)) && v == hdist
            &&& read_number(b.skip(10), 4) == Some((hclen, rest))
        }),
{
    let b2 = bits::lsb_bits(hclen, 4) + rest;
    let b1 = bits::lsb_bits(hdist, 5) + b2;
    let b = bits::lsb_bits(hlit, 5) + b1;
    power2::lemma2_to64();
    lemma_read_number(hlit, 5, b1);
    lemma_read_number(hdist, 5, b2);
    lemma_read_number(hclen, 4, rest);
    assert(bits::lsb_bits(hlit, 5) + bits::lsb_bits(hdist, 5) + bits::lsb_bits(hclen, 4) + rest
        =~= b);
    assert(b.skip(5) == b1);
    assert(b.skip(10) =~= b1.skip(5));
}

/// The header of a block, from behind the block type.
spec fn header_tail(lit_lens: Seq<u8>, dist_lens: Seq<u8>, meta_lens: Seq<u8>) -> Seq<bool> {
    let nlit = block::trimmed(lit_lens, lit_lens.len(), 257);
    let ndist = block::trimmed(dist_lens, dist_lens.len(), 1);
    let nmeta = block::meta_count(meta_lens, 19);
    bits::lsb_bits((nlit - 257) as nat, 5) + bits::lsb_bits((ndist - 1) as nat, 5)
        + bits::lsb_bits((nmeta - 4) as nat, 4) + (block::meta_bits(meta_lens, 0, nmeta)
        + block::entries_bits(meta_lens, block::header_entries(lit_lens, dist_lens)))
}

/// A header that was written is read back, and the tokens are read with its
/// codes.
proof fn lemma_read_header(
    lit_lens: Seq<u8>,
    dist_lens: Seq<u8>,
    meta_lens: Seq<u8>,
    rest: Seq<bool>,
)
    requires
        lit_lens.len() == 286,
        dist_lens.len() == 30,
        meta_lens.len() == 19,
        canonical::kraft_ok(meta_lens, 7),
        forall|i: int|
            0 <= i < block::header_lens(lit_lens, dist_lens).len()
                ==> #[trigger] block::header_lens(lit_lens, dist_lens)[i] <= 15,
        forall|i: int|
            0 <= i < block::header_entries(lit_lens, dist_lens).len() ==> meta_lens[(
            #[trigger] block::header_entries(lit_lens, dist_lens)[i]).code as int] > 0,
    ensures
        read_dynamic(header_tail(lit_lens, dist_lens, meta_lens) + rest) == read_tokens(
            lit_lens,
            dist_lens,
            rest,
        ),
{
    let nlit = block::trimmed(lit_lens, 286, 257);
    let ndist = block::trimmed(dist_lens, 30, 1);
    let nmeta = block::meta_count(meta_lens, 19);
    block::lemma_trimmed(lit_lens, 286, 257);
    block::lemma_trimmed(dist_lens, 30, 1);
    block::lemma_meta_count(meta_lens, 19);
    let entries = block::header_entries(lit_lens, dist_lens);
    let lens = block::header_lens(lit_lens, dist_lens);
    let b3 = block::entries_bits(meta_lens, entries) + rest;
    let b2 = block::meta_bits(meta_lens, 0, nmeta) + b3;
    let b = header_tail(lit_lens, dist_lens, meta_lens) + rest;
    assert(b =~= bits::lsb_bits((nlit - 257) as nat, 5) + bits::lsb_bits((ndist - 1) as nat, 5)
        + bits::lsb_bits((nmeta - 4) as nat, 4) + b2);
    lemma_read_counts((nlit - 257) as nat, (ndist - 1) as nat, (nmeta - 4) as nat, b2);
    lemma_read_meta_lens(meta_lens, 0, nmeta, b3);
    assert(known_meta(meta_lens, 0) =~= rle::copies(0, 19));
    lemma_all_meta_known(meta_lens);
    rle::law_rle_expands(lens);
    lemma_read_lens(meta_lens, Seq::empty(), entries, rest);
    assert(lens.len() == nlit + ndist);
    lemma_refill(lit_lens, 257);
    lemma_refill(dist_lens, 1);
    assert(lens.take(nlit as int) =~= lit_lens.take(nlit as int));
    assert(lens.skip(nlit as int) =~= dist_lens.take(ndist as int));
}

proof fn lemma_header_tail(lit_lens: Seq<u8>, dist_lens: Seq<u8>, meta_lens: Seq<u8>)
    ensures
        block::header_bits(lit_lens, dist_lens, meta_lens) == bits::lsb_bits(0b101, 3)
            + header_tail(lit_lens, dist_lens, meta_lens),
{
    assert(block::header_bits(lit_lens, dist_lens, meta_lens) =~= bits::lsb_bits(0b101, 3)
        + header_tail(lit_lens, dist_lens, meta_lens));
}

proof fn lemma_regroup(a: Seq<bool>, b: Seq<bool>, c: Seq<bool>, d: Seq<bool>)
    ensures
        (a + b) + c + d == a + (b + (c + d)),
{
    assert((a + b) + c + d =~= a + (b + (c + d)));
}

/// A block with codes of its own is read back.
proof fn lemma_read_dynamic(
    tokens: Seq<Token>,
    lit_lens: Seq<u8>,
    dist_lens: Seq<u8>,
    meta_lens: Seq<u8>,
    rest: Seq<bool>,
)
    requires
        lz77::all_encodable(tokens),
        tokens.len() < u32::MAX,
        block::dynamic_lens(tokens) == Some((lit_lens, dist_lens, meta_lens)),
    ensures
        read_block(
            block::header_bits(lit_lens, dist_lens, meta_lens) + block::body_bits(
                lit_lens,
                dist_lens,
                tokens,
            ) + rest,
        ) == Some((tokens, rest)),
{
    let body = block::body_bits(lit_lens, dist_lens, tokens);
    let tail = header_tail(lit_lens, dist_lens, meta_lens);
    let after = tail + (body + rest);
    lemma_header_tail(lit_lens, dist_lens, meta_lens);
    lemma_regroup(bits::lsb_bits(0b101, 3), tail, body, rest);
    assert(read_number(bits::lsb_bits(0b101, 3) + after, 3) == Some((0b101nat, after))) by {
        power2::lemma2_to64();
        lemma_read_number(0b101, 3, after);
    }
    assert(read_dynamic(after) == read_tokens(lit_lens, dist_lens, body + rest)) by {
        block::lemma_dynamic_lens(tokens);
        block::lemma_meta_lens(lit_lens, dist_lens);
        lemma_read_header(lit_lens, dist_lens, meta_lens, body + rest);
    }
    assert(read_tokens(lit_lens, dist_lens, body + rest) == Some((tokens, rest))) by {
        block::lemma_dynamic_lens(tokens);
        lemma_read_tokens(lit_lens, dist_lens, tokens, rest);
    }
}

/// What the encoders write is read back: a decoder gets the tokens of the
/// block, and leaves alone what follows it.
pub proof fn law_block_decodes(tokens: Seq<Token>, rest: Seq<bool>)
    requires
        lz77::all_encodable(tokens),
        tokens.len() < u32::MAX,
    ensures
        read_block(block::block_bits(tokens) + rest) == Some((tokens, rest)),
{
    match block::dynamic_lens(tokens) {
        Some((ll, dl, ml)) => {
            lemma_read_dynamic(tokens, ll, dl, ml, rest);
        },
        None => {
            law_fixed_block_decodes(tokens, rest);
        },
    }
}

/// The bytes of an encoded block inflate to what its tokens stand for.
pub proof fn law_encoded_block_inflates(tokens: Seq<Token>, bytes: Seq<u8>)
    requires
        lz77::all_encodable(tokens),
        lz77::reaches_back(Seq::empty(), tokens),
        tokens.len() < u32::MAX,
        bits::bytes_bits(bytes) == bits::pad_to_byte(block::block_bits(tokens)),
    ensures
        inflate(bytes) == Some(lz77::expand(tokens)),
{
    law_block_decodes(tokens, bits::zero_bits(bits::byte_padding(block::block_bits(tokens).len())));
}

/// A member around an encoded block stands for what its tokens stand for,
/// whatever follows it.
pub proof fn law_encoded_member_is_read(tokens: Seq<Token>, bytes: Seq<u8>)
    requires
        lz77::all_encodable(tokens),
        lz77::reaches_back(Seq::empty(), tokens),
        tokens.len() < u32::MAX,
        bits::bytes_bits(bytes) == bits::pad_to_byte(block::block_bits(tokens)),
    ensures
        is_member(gzip::member(bytes, lz77::expand(tokens)), lz77::expand(tokens)),
{
    let data = lz77::expand(tokens);
    let m = gzip::member(bytes, data);
    let end = gzip::trailer(data);
    let padding = bits::zero_bits(bits::byte_padding(block::block_bits(tokens).len()));
    assert forall|rest: Seq<u8>| #[trigger]
        first_member(m + rest) == Some((data, m.len() as int)) by {
        let all = m + rest;
        assert(all.take(10) =~= gzip::GZIP_HEADER@);
        assert(all.skip(10) =~= bytes + (end + rest));
        bits::lemma_bytes_bits_append(bytes, end + rest);
        bits::lemma_bytes_bits_len(end + rest);
        let after = padding + bits::bytes_bits(end + rest);
        assert(bits::bytes_bits(all.skip(10)) =~= block::block_bits(tokens) + after);
        law_block_decodes(tokens, after);
        assert(after.len() as int / 8 == 8 + rest.len());
        let at = 10 + bytes.len() as int;
        assert(all.subrange(at, at + 8) =~= end);
    }
}

pub proof fn lemma_member_is_long(member: Seq<u8>, data: Seq<u8>)
    requires
        is_member(member, data),
    ensures
        member.len() >= 10,
        read_member(member) == Some(data),
{
    assert(member + Seq::<u8>::empty() =~= member);
    assert(first_member(member + Seq::<u8>::empty()) is Some);
}

/// A stream of members stands for what they stand for, one after the other.
pub proof fn law_members_are_read_in_series(members: Seq<Seq<u8>>, datas: Seq<Seq<u8>>)
    requires
        members.len() == datas.len(),
        forall|i: int| 0 <= i < members.len() ==> is_member(#[trigger] members[i], datas[i]),
    ensures
        read_members(parallel::flat(members)) == Some(parallel::flat(datas)),
    decreases members.len(),
{
    if members.len() > 0 {
        let m = members[0];
        let d = datas[0];
        let more = members.skip(1);
        let rest = datas.skip(1);
        parallel_decompress::lemma_flat_first(members);
        parallel_decompress::lemma_flat_first(datas);
        assert forall|i: int| 0 <= i < more.len() implies is_member(#[trigger] more[i], rest[i]) by {
            assert(more[i] == members[i + 1]);
        }
        law_members_are_read_in_series(more, rest);
        let all = m + parallel::flat(more);
        assert(is_member(m, d));
        assert(first_member(all) == Some((d, m.len() as int)));
        lemma_member_is_long(m, d);
        assert(all.skip(m.len() as int) =~= parallel::flat(more));
    }
}

/// Compression can be undone: matches that are true of the input, selected by
/// the lazy walk, encoded and wrapped, make a gzip member that stands for the
/// input, alone and in front of others.
pub proof fn law_gzip_round_trip(per_position: Seq<Token>, input: Seq<u8>, bytes: Seq<u8>)
    requires
        lz77::matches_input(per_position, input),
        lz77::all_encodable(per_position),
        input.len() < u32::MAX,
        bits::bytes_bits(bytes) == bits::pad_to_byte(
            block::block_bits(lz77::lazy_tokens(per_position, input, 0)),
        ),
    ensures
        inflate(bytes) == Some(input),
        read_member(gzip::member(bytes, input)) == Some(input),
        is_member(gzip::member(bytes, input), input),
{
    let tokens = lz77::lazy_tokens(per_position, input, 0);
    lz77::law_walk_reconstructs(per_position, input);
    lz77::lemma_lazy_encodable(per_position, input, 0);
    law_encoded_block_inflates(tokens, bytes);
    law_encoded_member_is_read(tokens, bytes);
    lemma_member_is_long(gzip::member(bytes, input), input);
}

} // verus!
