//! Choosing the codes of a block with codes of its own.
use crate::gpu::block;
use crate::gpu::canonical;
use crate::gpu::huffman;
use crate::gpu::lz77;
use crate::gpu::lz77::Token;
use crate::gpu::rle;
use crate::gpu::rle::RleEntry;
use crate::gpu::tables;
use crate::gpu::tables::{DistTables, SymbolEntry, META_ORDER};
use vstd::arithmetic::power2;
use vstd::prelude::*;

verus! {

/// Counts the literal and length symbols and the distance symbols of a block.
fn token_frequencies(
    tokens: &[Token],
    len_table: &Vec<SymbolEntry>,
    dist_tables: &DistTables,
) -> (r: (Vec<u32>, Vec<u32>))
    requires
        lz77::all_encodable(tokens@),
        tokens@.len() < u32::MAX,
        len_table@.len() == 259,
        forall|l: int| 3 <= l <= 258 ==> tables::is_length_entry(#[trigger] len_table@[l], l),
        dist_tables.wf(),
    ensures
        r.0@ == block::lit_freq(tokens@),
        r.1@ == block::dist_freq(tokens@),
{
    let mut lit: Vec<u32> = vec![0u32; 286];
    let mut dist: Vec<u32> = vec![0u32; 30];
    let mut i: usize = 0;
    while i < tokens.len()
        invariant
            i <= tokens@.len() < u32::MAX,
            lz77::all_encodable(tokens@),
            len_table@.len() == 259,
            forall|l: int| 3 <= l <= 258 ==> tables::is_length_entry(#[trigger] len_table@[l], l),
            dist_tables.wf(),
            lit@.len() == 286,
            dist@.len() == 30,
            forall|s: int|
                0 <= s < 286 ==> #[trigger] lit@[s] == block::lit_count(tokens@, s, i as nat),
            forall|s: int|
                0 <= s < 30 ==> #[trigger] dist@[s] == block::dist_count(tokens@, s, i as nat),
        decreases tokens@.len() - i,
    {
        let tok = tokens[i];
        proof {
            assert(tokens@[i as int].encodable());
            block::lemma_symbols(tok);
            block::lemma_lit_count(tokens@, block::lit_symbol(tok), i as nat);
            block::lemma_dist_count(tokens@, block::dist_symbol(tok), i as nat);
        }
        if tok.is_literal() {
            let s: usize = tok.distance as usize;
            let c: u32 = lit[s];
            lit.set(s, c + 1);
        } else {
            let s: usize = len_table[tok.length as usize].sym as usize;
            let c: u32 = lit[s];
            lit.set(s, c + 1);
            let t: usize = dist_tables.dist_entry(tok.distance).sym as usize;
            let d: u32 = dist[t];
            dist.set(t, d + 1);
        }
        i = i + 1;
    }
    proof {
        assert forall|s: int| 0 <= s < 286 implies block::lit_count(tokens@, s, tokens@.len())
            <= tokens@.len() by {
            block::lemma_lit_count(tokens@, s, tokens@.len());
        }
        block::lemma_lit_count(tokens@, 256, tokens@.len());
        assert(block::lit_count(tokens@, 256, tokens@.len()) == lit@[256]);
    }
    let eob: u32 = lit[256];
    lit.set(256, eob + 1);
    assert(lit@ =~= block::lit_freq(tokens@));
    assert(dist@ =~= block::dist_freq(tokens@));
    (lit, dist)
}

/// Counts the symbols that have a code.
fn count_coded(lens: &Vec<u8>) -> (r: usize)
    ensures
        r == block::coded(lens@, lens@.len()),
{
    let mut n: usize = 0;
    let mut i: usize = 0;
    while i < lens.len()
        invariant
            n <= i <= lens@.len(),
            n == block::coded(lens@, i as nat),
        decreases lens@.len() - i,
    {
        if lens[i] > 0 {
            n = n + 1;
        }
        i = i + 1;
    }
    n
}

/// Gives the distance alphabet at least two codes.
fn pad_dist(lens: &mut Vec<u8>)
    requires
        old(lens)@.len() >= 2,
    ensures
        final(lens)@ == block::pad_dist_lens(old(lens)@),
{
    let used: usize = count_coded(lens);
    if used == 0 {
        lens.set(0, 1);
        lens.set(1, 1);
    } else if used == 1 {
        if lens[0] > 0 {
            lens.set(1, 1);
        } else {
            lens.set(0, 1);
        }
    }
}

/// Gives the literal alphabet at least two codes.
fn pad_lit(lens: &mut Vec<u8>)
    requires
        old(lens)@.len() >= 257,
    ensures
        final(lens)@ == block::pad_lit_lens(old(lens)@),
{
    if count_coded(lens) < 2 {
        lens.set(0, 1);
        lens.set(256, 1);
    }
}

/// How many entries are left without the trailing zeros, but no fewer than
/// `min` of those that there are.
pub fn trim_to_min(lens: &[u8], min: usize) -> (r: usize)
    ensures
        r == block::trimmed(lens@, lens@.len(), min as nat),
        r <= lens@.len(),
{
    let mut n: usize = lens.len();
    while n > min && lens[n - 1] == 0
        invariant
            n <= lens@.len(),
            block::trimmed(lens@, n as nat, min as nat) == block::trimmed(
                lens@,
                lens@.len(),
                min as nat,
            ),
        decreases n,
    {
        n = n - 1;
    }
    n
}

/// Counts the symbols of the code length alphabet.
fn entry_frequencies(entries: &Vec<RleEntry>) -> (r: Vec<u32>)
    requires
        entries@.len() < u32::MAX,
        forall|i: int| 0 <= i < entries@.len() ==> rle::entry_ok(#[trigger] entries@[i]),
    ensures
        r@ == block::meta_freq(entries@),
{
    let mut freq: Vec<u32> = vec![0u32; 19];
    let mut i: usize = 0;
    while i < entries.len()
        invariant
            i <= entries@.len() < u32::MAX,
            forall|k: int| 0 <= k < entries@.len() ==> rle::entry_ok(#[trigger] entries@[k]),
            freq@.len() == 19,
            forall|c: int|
                0 <= c < 19 ==> #[trigger] freq@[c] == block::entry_count(entries@, c, i as nat),
        decreases entries@.len() - i,
    {
        assert(rle::entry_ok(entries@[i as int]));
        let c: usize = entries[i].code as usize;
        proof {
            block::lemma_entry_count(entries@, c as int, i as nat);
        }
        let f: u32 = freq[c];
        freq.set(c, f + 1);
        i = i + 1;
    }
    assert(freq@ =~= block::meta_freq(entries@));
    freq
}

/// How many lengths of the code length code are written.
fn count_meta(meta_lens: &Vec<u8>) -> (r: usize)
    requires
        meta_lens@.len() == 19,
    ensures
        r == block::meta_count(meta_lens@, 19),
        4 <= r <= 19,
{
    let mut n: usize = 19;
    while n > 4 && meta_lens[META_ORDER[n - 1]] == 0
        invariant
            4 <= n <= 19,
            meta_lens@.len() == 19,
            block::meta_count(meta_lens@, n as nat) == block::meta_count(meta_lens@, 19),
        decreases n,
    {
        n = n - 1;
    }
    n
}

/// The codes of a block, and what its header says of them.
pub struct DynamicPlan {
    pub lit_lens: Vec<u8>,
    pub dist_lens: Vec<u8>,
    pub meta_lens: Vec<u8>,
    pub lit_codes: Vec<u32>,
    pub dist_codes: Vec<u32>,
    pub meta_codes: Vec<u32>,
    pub entries: Vec<RleEntry>,
    pub nlit: usize,
    pub ndist: usize,
    pub nmeta: usize,
}

/// The codes are the canonical ones for the lengths.
pub open spec fn codes_match(codes: Seq<u32>, lens: Seq<u8>) -> bool {
    &&& codes.len() == lens.len()
    &&& forall|s: int| 0 <= s < lens.len() ==> #[trigger] codes[s] == canonical::code_of(lens, s)
}

impl DynamicPlan {
    /// The plan is the one for these tokens.
    pub open spec fn plans(&self, tokens: Seq<Token>) -> bool {
        let ll = self.lit_lens@;
        let dl = self.dist_lens@;
        let ml = self.meta_lens@;
        &&& block::dynamic_lens(tokens) == Some((ll, dl, ml))
        &&& ll.len() == 286
        &&& block::lens_serve(ll, dl, tokens)
        &&& ml.len() == 19
        &&& canonical::kraft_ok(ml, 7)
        &&& codes_match(self.lit_codes@, ll)
        &&& codes_match(self.dist_codes@, dl)
        &&& codes_match(self.meta_codes@, ml)
        &&& self.entries@ == block::header_entries(ll, dl)
        &&& self.entries@.len() <= 316
        &&& forall|i: int|
            0 <= i < self.entries@.len() ==> {
                &&& rle::entry_ok(#[trigger] self.entries@[i])
                &&& ml[self.entries@[i].code as int] > 0
            }
        &&& self.nlit == block::trimmed(ll, 286, 257)
        &&& self.ndist == block::trimmed(dl, 30, 1)
        &&& self.nmeta == block::meta_count(ml, 19)
        &&& 257 <= self.nlit <= 286
        &&& 1 <= self.ndist <= 30
        &&& 4 <= self.nmeta <= 19
    }
}

/// Canonical codes for lengths that have room side by side.
fn codes_for(lens: &Vec<u8>, Ghost(d): Ghost<nat>) -> (r: Vec<u32>)
    requires
        canonical::kraft_ok(lens@, d),
        d <= 15,
    ensures
        codes_match(r@, lens@),
{
    let codes = canonical::canonical_codes(lens.as_slice());
    proof {
        assert forall|s: int| 0 <= s < lens@.len() implies #[trigger] codes@[s]
            == canonical::code_of(lens@, s) by {
            canonical::lemma_code_fits(lens@, d, s);
            assert(lens@[s] <= d);
            power2::lemma2_to64();
            if lens@[s] < 32 {
                power2::lemma_pow2_strictly_increases(lens@[s] as nat, 32);
            }
        }
    }
    codes
}

/// Chooses the codes for a block, unless some code would be too long.
pub fn plan_dynamic_block(
    tokens: &[Token],
    len_table: &Vec<SymbolEntry>,
    dist_tables: &DistTables,
) -> (r: Option<DynamicPlan>)
    requires
        lz77::all_encodable(tokens@),
        tokens@.len() < u32::MAX,
        len_table@.len() == 259,
        forall|l: int| 3 <= l <= 258 ==> tables::is_length_entry(#[trigger] len_table@[l], l),
        dist_tables.wf(),
    ensures
        r is None <==> block::dynamic_lens(tokens@) is None,
        r matches Some(plan) ==> plan.plans(tokens@),
{
    let (lit_freq, dist_freq) = token_frequencies(tokens, len_table, dist_tables);
    let mut lit_lens = match huffman::try_build_code_lengths(lit_freq.as_slice(), 15) {
        Some(lens) => lens,
        None => {
            return None;
        },
    };
    let mut dist_lens = match huffman::try_build_code_lengths(dist_freq.as_slice(), 15) {
        Some(lens) => lens,
        None => {
            return None;
        },
    };
    proof {
        canonical::law_code_lengths(lit_freq@, 15, 15);
        canonical::law_code_lengths(dist_freq@, 15, 15);
    }
    pad_dist(&mut dist_lens);
    pad_lit(&mut lit_lens);
    proof {
        block::lemma_dynamic_lens(tokens@);
        block::lemma_meta_lens(lit_lens@, dist_lens@);
    }
    let nlit: usize = trim_to_min(lit_lens.as_slice(), 257);
    let ndist: usize = trim_to_min(dist_lens.as_slice(), 1);
    let mut combined: Vec<u8> = Vec::with_capacity(nlit + ndist);
    let mut i: usize = 0;
    while i < nlit
        invariant
            i <= nlit <= lit_lens@.len(),
            combined@ == lit_lens@.take(i as int),
        decreases nlit - i,
    {
        assert(lit_lens@.take(i as int).push(lit_lens@[i as int]) =~= lit_lens@.take(i + 1));
        combined.push(lit_lens[i]);
        i = i + 1;
    }
    let mut j: usize = 0;
    assert(combined@ =~= lit_lens@.take(nlit as int) + dist_lens@.take(0));
    while j < ndist
        invariant
            j <= ndist <= dist_lens@.len(),
            combined@ == lit_lens@.take(nlit as int) + dist_lens@.take(j as int),
        decreases ndist - j,
    {
        assert((lit_lens@.take(nlit as int) + dist_lens@.take(j as int)).push(
            dist_lens@[j as int],
        ) =~= lit_lens@.take(nlit as int) + dist_lens@.take(j + 1));
        combined.push(dist_lens[j]);
        j = j + 1;
    }
    let entries = rle::rle_encode_lengths(combined.as_slice());
    let meta_freq = entry_frequencies(&entries);
    let meta_lens = match huffman::try_build_code_lengths(meta_freq.as_slice(), 7) {
        Some(lens) => lens,
        None => {
            return None;
        },
    };
    let lit_codes = codes_for(&lit_lens, Ghost(15));
    let dist_codes = codes_for(&dist_lens, Ghost(15));
    let meta_codes = codes_for(&meta_lens, Ghost(7));
    let nmeta: usize = count_meta(&meta_lens);
    Some(
        DynamicPlan {
            lit_lens,
            dist_lens,
            meta_lens,
            lit_codes,
            dist_codes,
            meta_codes,
            entries,
            nlit,
            ndist,
            nmeta,
        },
    )
}

} // verus!
