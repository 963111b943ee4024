//! Encodes LZ77 tokens as a DEFLATE block.
use crate::error::Error;
use crate::gpu::bits;
use crate::gpu::bits::{BitWriter, VecBitWriter};
use crate::gpu::block;
use crate::gpu::canonical;
use crate::gpu::fixed;
use crate::gpu::lz77;
use crate::gpu::lz77::Token;
use crate::gpu::plan;
use crate::gpu::plan::DynamicPlan;
use crate::gpu::tables;
use crate::gpu::tables::{DistTables, SymbolEntry, META_ORDER};
use vstd::arithmetic::power2;
use vstd::prelude::*;

verus! {

/// Writes a block under the fixed code.
pub fn write_fixed_block(tokens: &[Token], bw: &mut BitWriter)
    requires
        lz77::all_encodable(tokens@),
        old(bw).wf(),
    ensures
        final(bw).wf(),
        final(bw)@ == old(bw)@ + block::fixed_block_bits(tokens@),
{
    let ghost ll = fixed::litlen_lens();
    let ghost dl = fixed::dist_lens();
    let ghost all = bw@ + block::fixed_block_bits(tokens@);
    bw.write_bits(0b011, 3);
    let mut i: usize = 0;
    proof {
        assert(tokens@.skip(0) =~= tokens@);
        assert(bw@ + block::body_bits(ll, dl, tokens@) =~= all);
    }
    while i < tokens.len()
        invariant
            i <= tokens@.len(),
            lz77::all_encodable(tokens@),
            ll == fixed::litlen_lens(),
            dl == fixed::dist_lens(),
            bw.wf(),
            bw@ + block::body_bits(ll, dl, tokens@.skip(i as int)) == all,
        decreases tokens@.len() - i,
    {
        let tok = tokens[i];
        let ghost start = bw@;
        proof {
            assert(tokens@[i as int].encodable());
            block::lemma_symbols(tok);
            fixed::lemma_litlen_canonical(block::lit_symbol(tok));
        }
        if tok.is_literal() {
            let (code, bits) = fixed::fixed_litlen_code(tok.distance);
            bw.write_huffman(code, bits);
        } else {
            let (lcode, lextra_bits, lextra_val) = tables::length_code(tok.length);
            proof {
                tables::lemma_length_row(tok.length as int);
                tables::lemma_dist_row(tok.distance as int);
                fixed::lemma_dist_canonical(block::dist_symbol(tok));
            }
            let (lhuf, lhuf_bits) = fixed::fixed_litlen_code(lcode);
            bw.write_huffman(lhuf, lhuf_bits);
            bw.write_bits(lextra_val, lextra_bits);
            let (dcode, dextra_bits, dextra_val) = tables::distance_code(tok.distance);
            let (dhuf, dhuf_bits) = fixed::fixed_dist_code(dcode);
            bw.write_huffman(dhuf, dhuf_bits);
            bw.write_bits(dextra_val, dextra_bits);
        }
        proof {
            assert(bw@ =~= start + block::token_bits(ll, dl, tok));
            assert(tokens@.skip(i as int)[0] == tok);
            assert(tokens@.skip(i as int).skip(1) =~= tokens@.skip(i + 1));
            assert(bw@ + block::body_bits(ll, dl, tokens@.skip(i + 1)) =~= start
                + block::body_bits(ll, dl, tokens@.skip(i as int)));
        }
        i = i + 1;
    }
    proof {
        fixed::lemma_litlen_canonical(256);
    }
    let (eob, eob_bits) = fixed::fixed_litlen_code(256);
    bw.write_huffman(eob, eob_bits);
}

/// Encodes the tokens as one block under the fixed code.
pub fn encode_fixed_block(tokens: &[Token]) -> (r: Result<Vec<u8>, Error>)
    requires
        lz77::all_encodable(tokens@),
    ensures
        r matches Ok(v) && bits::bytes_bits(v@) == bits::pad_to_byte(
            block::fixed_block_bits(tokens@),
        ),
{
    let mut bw = BitWriter::new();
    write_fixed_block(tokens, &mut bw);
    assert(bw@ =~= block::fixed_block_bits(tokens@));
    Ok(bw.finish())
}

/// Writes the header of a planned block.
fn write_header(p: &DynamicPlan, bw: &mut BitWriter, Ghost(tokens): Ghost<Seq<Token>>)
    requires
        p.plans(tokens),
        old(bw).wf(),
    ensures
        final(bw).wf(),
        final(bw)@ == old(bw)@ + block::header_bits(p.lit_lens@, p.dist_lens@, p.meta_lens@),
{
    let ghost ml = p.meta_lens@;
    let ghost entries = p.entries@;
    let ghost all = bw@ + block::header_bits(p.lit_lens@, p.dist_lens@, ml);
    bw.write_bits(0b101, 3);
    bw.write_bits((p.nlit - 257) as u32, 5);
    bw.write_bits((p.ndist - 1) as u32, 5);
    bw.write_bits((p.nmeta - 4) as u32, 4);
    let mut i: usize = 0;
    assert(bw@ + block::meta_bits(ml, 0, p.nmeta as nat) + block::entries_bits(ml, entries) =~= all);
    while i < p.nmeta
        invariant
            i <= p.nmeta,
            p.plans(tokens),
            ml == p.meta_lens@,
            entries == p.entries@,
            bw.wf(),
            bw@ + block::meta_bits(ml, i as nat, p.nmeta as nat) + block::entries_bits(ml, entries)
                == all,
        decreases p.nmeta - i,
    {
        let ghost start = bw@;
        bw.write_bits(p.meta_lens[META_ORDER[i]] as u32, 3);
        assert(bw@ + block::meta_bits(ml, (i + 1) as nat, p.nmeta as nat) =~= start
            + block::meta_bits(ml, i as nat, p.nmeta as nat));
        i = i + 1;
    }
    let mut j: usize = 0;
    assert(entries.skip(0) =~= entries);
    assert(bw@ + Seq::<bool>::empty() =~= bw@);
    while j < p.entries.len()
        invariant
            j <= entries.len(),
            p.plans(tokens),
            ml == p.meta_lens@,
            entries == p.entries@,
            bw.wf(),
            bw@ + block::entries_bits(ml, entries.skip(j as int)) == all,
        decreases entries.len() - j,
    {
        let e = p.entries[j];
        let ghost start = bw@;
        proof {
            assert(p.entries@[j as int] == e);
            assert(ml[e.code as int] <= 7);
            assert(p.meta_codes@[e.code as int] == canonical::code_of(ml, e.code as int));
        }
        let code: u32 = p.meta_codes[e.code as usize];
        let bits: u32 = p.meta_lens[e.code as usize] as u32;
        bw.write_huffman(code, bits);
        bw.write_bits(e.extra_value, e.extra_bits);
        proof {
            assert(bw@ =~= start + block::entry_bits(ml, e));
            assert(entries.skip(j as int)[0] == e);
            assert(entries.skip(j as int).skip(1) =~= entries.skip(j + 1));
            assert(bw@ + block::entries_bits(ml, entries.skip(j + 1)) =~= start
                + block::entries_bits(ml, entries.skip(j as int)));
        }
        j = j + 1;
    }
    assert(bw@ + Seq::<bool>::empty() =~= bw@);
}

/// Writes a block with codes of its own, or nothing if some code would be too
/// long for DEFLATE.
pub fn try_write_dynamic_block(tokens: &[Token], bw: &mut BitWriter) -> (r: bool)
    requires
        lz77::all_encodable(tokens@),
        tokens@.len() < u32::MAX,
        old(bw).wf(),
    ensures
        final(bw).wf(),
        r <==> block::dynamic_block_bits(tokens@) is Some,
        r ==> final(bw)@ == old(bw)@ + block::dynamic_block_bits(tokens@)->0,
        !r ==> *final(bw) == *old(bw),
{
    let len_table = tables::len_lut();
    let dist_tables = DistTables::new();
    let p = match plan::plan_dynamic_block(tokens, &len_table, &dist_tables) {
        Some(p) => p,
        None => {
            return false;
        },
    };
    let ghost ll = p.lit_lens@;
    let ghost dl = p.dist_lens@;
    let ghost all = bw@ + block::dynamic_block_bits(tokens@)->0;
    write_header(&p, bw, Ghost(tokens@));
    let mut i: usize = 0;
    proof {
        assert(tokens@.skip(0) =~= tokens@);
        assert(bw@ + block::body_bits(ll, dl, tokens@) =~= all);
    }
    while i < tokens.len()
        invariant
            i <= tokens@.len(),
            lz77::all_encodable(tokens@),
            p.plans(tokens@),
            ll == p.lit_lens@,
            dl == p.dist_lens@,
            bw.wf(),
            bw@ + block::body_bits(ll, dl, tokens@.skip(i as int)) == all,
        decreases tokens@.len() - i,
    {
        let tok = tokens[i];
        let ghost start = bw@;
        proof {
            assert(tokens@[i as int].encodable());
            block::lemma_symbols(tok);
            let s = block::lit_symbol(tok);
            assert(ll[s] <= 15);
            assert(p.lit_codes@[s] == canonical::code_of(ll, s));
        }
        if tok.is_literal() {
            let sym: usize = tok.distance as usize;
            bw.write_huffman(p.lit_codes[sym], p.lit_lens[sym] as u32);
        } else {
            let (lcode, lex_bits, lex_val) = tables::length_code(tok.length);
            let (dcode, dex_bits, dex_val) = tables::distance_code(tok.distance);
            proof {
                tables::lemma_length_row(tok.length as int);
                tables::lemma_dist_row(tok.distance as int);
                let t = block::dist_symbol(tok);
                assert(dl[t] <= 15);
                assert(p.dist_codes@[t] == canonical::code_of(dl, t));
            }
            let lsym: usize = lcode as usize;
            bw.write_huffman(p.lit_codes[lsym], p.lit_lens[lsym] as u32);
            bw.write_bits(lex_val, lex_bits);
            let dsym: usize = dcode as usize;
            bw.write_huffman(p.dist_codes[dsym], p.dist_lens[dsym] as u32);
            bw.write_bits(dex_val, dex_bits);
        }
        proof {
            assert(bw@ =~= start + block::token_bits(ll, dl, tok));
            assert(tokens@.skip(i as int)[0] == tok);
            assert(tokens@.skip(i as int).skip(1) =~= tokens@.skip(i + 1));
            assert(bw@ + block::body_bits(ll, dl, tokens@.skip(i + 1)) =~= start
                + block::body_bits(ll, dl, tokens@.skip(i as int)));
        }
        i = i + 1;
    }
    proof {
        assert(ll[256] <= 15);
        assert(p.lit_codes@[256] == canonical::code_of(ll, 256));
    }
    bw.write_huffman(p.lit_codes[256], p.lit_lens[256] as u32);
    true
}

/// Encodes the tokens as one DEFLATE block: with codes of its own, or under
/// the fixed code where some code of its own would be too long.
pub fn encode_block(tokens: &[Token]) -> (r: Result<Vec<u8>, Error>)
    requires
        lz77::all_encodable(tokens@),
        tokens@.len() < u32::MAX,
    ensures
        r matches Ok(v) && bits::bytes_bits(v@) == bits::pad_to_byte(block::block_bits(tokens@)),
{
    let mut bw = BitWriter::new();
    if !try_write_dynamic_block(tokens, &mut bw) {
        bw = BitWriter::new();
        write_fixed_block(tokens, &mut bw);
    }
    assert(bw@ =~= block::block_bits(tokens@));
    Ok(bw.finish())
}

/// The codes in `pre` are those of the lengths, with their bits in stream order.
pub open spec fn stream_order(pre: Seq<u32>, lens: Seq<u8>) -> bool {
    &&& pre.len() == lens.len()
    &&& forall|s: int|
        0 <= s < lens.len() ==> {
            &&& #[trigger] pre[s] < power2::pow2(lens[s] as nat)
            &&& bits::lsb_bits(pre[s] as nat, lens[s] as nat) == canonical::code_bits(lens, s)
        }
}

/// Reverses every code once, so that the token loop need not.
pub fn reverse_codes(codes: &Vec<u32>, lens: &Vec<u8>) -> (r: Vec<u32>)
    requires
        plan::codes_match(codes@, lens@),
        forall|s: int| 0 <= s < lens@.len() ==> #[trigger] lens@[s] <= 15,
    ensures
        stream_order(r@, lens@),
{
    let mut pre: Vec<u32> = Vec::with_capacity(codes.len());
    let mut i: usize = 0;
    while i < codes.len()
        invariant
            i <= codes@.len(),
            plan::codes_match(codes@, lens@),
            forall|s: int| 0 <= s < lens@.len() ==> #[trigger] lens@[s] <= 15,
            pre@.len() == i,
            forall|s: int|
                0 <= s < i ==> {
                    &&& #[trigger] pre@[s] < power2::pow2(lens@[s] as nat)
                    &&& bits::lsb_bits(pre@[s] as nat, lens@[s] as nat) == canonical::code_bits(
                        lens@,
                        s,
                    )
                },
        decreases codes@.len() - i,
    {
        assert(codes@[i as int] == canonical::code_of(lens@, i as int));
        assert(lens@[i as int] <= 15);
        pre.push(bits::reverse_bits(codes[i], lens[i] as u32));
        i = i + 1;
    }
    pre
}

/// Writes a block under the fixed code, by table lookups.
pub fn write_fixed_block_fast(tokens: &[Token], bw: &mut VecBitWriter)
    requires
        lz77::all_encodable(tokens@),
        old(bw).wf(),
    ensures
        final(bw).wf(),
        final(bw)@ == old(bw)@ + block::fixed_block_bits(tokens@),
{
    let ghost ll = fixed::litlen_lens();
    let ghost dl = fixed::dist_lens();
    let ghost all = bw@ + block::fixed_block_bits(tokens@);
    proof {
        power2::lemma2_to64();
    }
    bw.write_bits(0b011, 3);
    let fixed_lit = fixed::fixed_litlen_pre();
    let fixed_dist = fixed::fixed_dist_pre();
    let len_table = tables::len_lut();
    let dist_tables = DistTables::new();
    let mut i: usize = 0;
    proof {
        assert(tokens@.skip(0) =~= tokens@);
        assert(bw@ + block::body_bits(ll, dl, tokens@) =~= all);
    }
    while i < tokens.len()
        invariant
            i <= tokens@.len(),
            lz77::all_encodable(tokens@),
            ll == fixed::litlen_lens(),
            dl == fixed::dist_lens(),
            bw.wf(),
            bw@ + block::body_bits(ll, dl, tokens@.skip(i as int)) == all,
            len_table@.len() == 259,
            forall|l: int| 3 <= l <= 258 ==> tables::is_length_entry(#[trigger] len_table@[l], l),
            dist_tables.wf(),
            fixed_lit@.len() == 288,
            forall|s: int|
                0 <= s < 288 ==> {
                    let e = #[trigger] fixed_lit@[s];
                    &&& e.1 == ll[s]
                    &&& e.0 < power2::pow2(e.1 as nat)
                    &&& bits::lsb_bits(e.0 as nat, e.1 as nat) == canonical::code_bits(ll, s)
                },
            fixed_dist@.len() == 30,
            forall|s: int|
                0 <= s < 30 ==> {
                    let e = #[trigger] fixed_dist@[s];
                    &&& e.1 == 5
                    &&& e.0 < power2::pow2(5)
                    &&& bits::lsb_bits(e.0 as nat, 5) == canonical::code_bits(dl, s)
                },
        decreases tokens@.len() - i,
    {
        let tok = tokens[i];
        let ghost start = bw@;
        proof {
            assert(tokens@[i as int].encodable());
            block::lemma_symbols(tok);
        }
        if tok.is_literal() {
            let (pre, nbits) = fixed_lit[tok.distance as usize];
            bw.write_pre(pre, nbits);
        } else {
            proof {
                tables::lemma_length_row(tok.length as int);
                tables::lemma_dist_row(tok.distance as int);
            }
            let le: SymbolEntry = len_table[tok.length as usize];
            let (pre, nbits) = fixed_lit[le.sym as usize];
            bw.write_pre(pre, nbits);
            bw.write_bits(tok.length - le.base as u32, le.extra_bits as u32);
            let de: SymbolEntry = dist_tables.dist_entry(tok.distance);
            let (dpre, dbits) = fixed_dist[de.sym as usize];
            bw.write_pre(dpre, dbits);
            bw.write_bits(tok.distance - de.base as u32, de.extra_bits as u32);
        }
        proof {
            assert(bw@ =~= start + block::token_bits(ll, dl, tok));
            assert(tokens@.skip(i as int)[0] == tok);
            assert(tokens@.skip(i as int).skip(1) =~= tokens@.skip(i + 1));
            assert(bw@ + block::body_bits(ll, dl, tokens@.skip(i + 1)) =~= start
                + block::body_bits(ll, dl, tokens@.skip(i as int)));
        }
        i = i + 1;
    }
    let (eob, eob_bits) = fixed_lit[256];
    bw.write_pre(eob, eob_bits);
}

/// Writes the header of a planned block.
fn write_header_fast(
    p: &DynamicPlan,
    meta_pre: &Vec<u32>,
    bw: &mut VecBitWriter,
    Ghost(tokens): Ghost<Seq<Token>>,
)
    requires
        p.plans(tokens),
        stream_order(meta_pre@, p.meta_lens@),
        old(bw).wf(),
    ensures
        final(bw).wf(),
        final(bw)@ == old(bw)@ + block::header_bits(p.lit_lens@, p.dist_lens@, p.meta_lens@),
{
    let ghost ml = p.meta_lens@;
    let ghost entries = p.entries@;
    let ghost all = bw@ + block::header_bits(p.lit_lens@, p.dist_lens@, ml);
    proof {
        power2::lemma2_to64();
    }
    bw.write_bits(0b101, 3);
    bw.write_bits((p.nlit - 257) as u32, 5);
    bw.write_bits((p.ndist - 1) as u32, 5);
    bw.write_bits((p.nmeta - 4) as u32, 4);
    let mut i: usize = 0;
    assert(bw@ + block::meta_bits(ml, 0, p.nmeta as nat) + block::entries_bits(ml, entries) =~= all);
    while i < p.nmeta
        invariant
            i <= p.nmeta,
            p.plans(tokens),
            ml == p.meta_lens@,
            entries == p.entries@,
            bw.wf(),
            power2::pow2(3) == 8,
            bw@ + block::meta_bits(ml, i as nat, p.nmeta as nat) + block::entries_bits(ml, entries)
                == all,
        decreases p.nmeta - i,
    {
        let ghost start = bw@;
        assert(ml[META_ORDER@[i as int] as int] <= 7);
        bw.write_bits(p.meta_lens[META_ORDER[i]] as u32, 3);
        assert(bw@ + block::meta_bits(ml, (i + 1) as nat, p.nmeta as nat) =~= start
            + block::meta_bits(ml, i as nat, p.nmeta as nat));
        i = i + 1;
    }
    let mut j: usize = 0;
    assert(entries.skip(0) =~= entries);
    assert(bw@ + Seq::<bool>::empty() =~= bw@);
    while j < p.entries.len()
        invariant
            j <= entries.len(),
            p.plans(tokens),
            stream_order(meta_pre@, p.meta_lens@),
            ml == p.meta_lens@,
            entries == p.entries@,
            bw.wf(),
            power2::pow2(0) == 1,
            power2::pow2(2) == 4,
            power2::pow2(3) == 8,
            power2::pow2(7) == 128,
            bw@ + block::entries_bits(ml, entries.skip(j as int)) == all,
        decreases entries.len() - j,
    {
        let e = p.entries[j];
        let ghost start = bw@;
        proof {
            assert(p.entries@[j as int] == e);
            assert(ml[e.code as int] <= 7);
            assert(meta_pre@[e.code as int] < power2::pow2(ml[e.code as int] as nat));
        }
        let nbits: u32 = p.meta_lens[e.code as usize] as u32;
        bw.write_pre(meta_pre[e.code as usize], nbits);
        bw.write_bits(e.extra_value, e.extra_bits);
        proof {
            assert(bw@ =~= start + block::entry_bits(ml, e));
            assert(entries.skip(j as int)[0] == e);
            assert(entries.skip(j as int).skip(1) =~= entries.skip(j + 1));
            assert(bw@ + block::entries_bits(ml, entries.skip(j + 1)) =~= start
                + block::entries_bits(ml, entries.skip(j as int)));
        }
        j = j + 1;
    }
    assert(bw@ + Seq::<bool>::empty() =~= bw@);
}

/// Writes a block with codes of its own, by table lookups, or nothing if some
/// code would be too long for DEFLATE.
pub fn try_write_dynamic_block_fast(tokens: &[Token], bw: &mut VecBitWriter) -> (r: bool)
    requires
        lz77::all_encodable(tokens@),
        tokens@.len() < u32::MAX,
        old(bw).wf(),
    ensures
        final(bw).wf(),
        r <==> block::dynamic_block_bits(tokens@) is Some,
        r ==> final(bw)@ == old(bw)@ + block::dynamic_block_bits(tokens@)->0,
        !r ==> *final(bw) == *old(bw),
{
    let len_table = tables::len_lut();
    let dist_tables = DistTables::new();
    let p = match plan::plan_dynamic_block(tokens, &len_table, &dist_tables) {
        Some(p) => p,
        None => {
            return false;
        },
    };
    let ghost ll = p.lit_lens@;
    let ghost dl = p.dist_lens@;
    let ghost all = bw@ + block::dynamic_block_bits(tokens@)->0;
    let lit_pre = reverse_codes(&p.lit_codes, &p.lit_lens);
    let dist_pre = reverse_codes(&p.dist_codes, &p.dist_lens);
    let meta_pre = reverse_codes(&p.meta_codes, &p.meta_lens);
    write_header_fast(&p, &meta_pre, bw, Ghost(tokens@));
    let mut i: usize = 0;
    proof {
        assert(tokens@.skip(0) =~= tokens@);
        assert(bw@ + block::body_bits(ll, dl, tokens@) =~= all);
    }
    while i < tokens.len()
        invariant
            i <= tokens@.len(),
            lz77::all_encodable(tokens@),
            p.plans(tokens@),
            ll == p.lit_lens@,
            dl == p.dist_lens@,
            stream_order(lit_pre@, ll),
            stream_order(dist_pre@, dl),
            len_table@.len() == 259,
            forall|l: int| 3 <= l <= 258 ==> tables::is_length_entry(#[trigger] len_table@[l], l),
            dist_tables.wf(),
            bw.wf(),
            bw@ + block::body_bits(ll, dl, tokens@.skip(i as int)) == all,
        decreases tokens@.len() - i,
    {
        let tok = tokens[i];
        let ghost start = bw@;
        proof {
            assert(tokens@[i as int].encodable());
            block::lemma_symbols(tok);
            let s = block::lit_symbol(tok);
            assert(ll[s] <= 15);
            assert(lit_pre@[s] < power2::pow2(ll[s] as nat));
        }
        if tok.is_literal() {
            let sym: usize = tok.distance as usize;
            bw.write_pre(lit_pre[sym], p.lit_lens[sym] as u32);
        } else {
            proof {
                tables::lemma_length_row(tok.length as int);
                tables::lemma_dist_row(tok.distance as int);
                let t = block::dist_symbol(tok);
                assert(dl[t] <= 15);
                assert(dist_pre@[t] < power2::pow2(dl[t] as nat));
            }
            let le: SymbolEntry = len_table[tok.length as usize];
            let sym: usize = le.sym as usize;
            bw.write_pre(lit_pre[sym], p.lit_lens[sym] as u32);
            bw.write_bits(tok.length - le.base as u32, le.extra_bits as u32);
            let de: SymbolEntry = dist_tables.dist_entry(tok.distance);
            let dsym: usize = de.sym as usize;
            bw.write_pre(dist_pre[dsym], p.dist_lens[dsym] as u32);
            bw.write_bits(tok.distance - de.base as u32, de.extra_bits as u32);
        }
        proof {
            assert(bw@ =~= start + block::token_bits(ll, dl, tok));
            assert(tokens@.skip(i as int)[0] == tok);
            assert(tokens@.skip(i as int).skip(1) =~= tokens@.skip(i + 1));
            assert(bw@ + block::body_bits(ll, dl, tokens@.skip(i + 1)) =~= start
                + block::body_bits(ll, dl, tokens@.skip(i as int)));
        }
        i = i + 1;
    }
    proof {
        assert(ll[256] <= 15);
        assert(lit_pre@[256] < power2::pow2(ll[256] as nat));
    }
    bw.write_pre(lit_pre[256], p.lit_lens[256] as u32);
    true
}

/// Encodes the tokens as one DEFLATE block, the same as `encode_block`, by
/// table lookups and codes that are reversed once.
pub fn encode_block_fast(tokens: &[Token]) -> (r: Result<Vec<u8>, Error>)
    requires
        lz77::all_encodable(tokens@),
        tokens@.len() < u32::MAX,
    ensures
        r matches Ok(v) && bits::bytes_bits(v@) == bits::pad_to_byte(block::block_bits(tokens@)),
{
    let est: usize = if tokens.len() > 64 {
        tokens.len()
    } else {
        64
    };
    let mut bw = VecBitWriter::new(est);
    if !try_write_dynamic_block_fast(tokens, &mut bw) {
        bw = VecBitWriter::new(est);
        write_fixed_block_fast(tokens, &mut bw);
    }
    assert(bw@ =~= block::block_bits(tokens@));
    Ok(bw.finish())
}

} // verus!
