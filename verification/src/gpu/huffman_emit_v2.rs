//! Block emission on a device that looks codes up and places them itself: the
//! tables it is given, the header it starts from, and the sizes of a run.
use crate::error::Error;
use crate::gpu::bits;
use crate::gpu::bits::HostBitWriter;
use crate::gpu::block;
use crate::gpu::canonical;
use crate::gpu::deflate;
use crate::gpu::dispatch;
use crate::gpu::fixed;
use crate::gpu::identity;
use crate::gpu::lz77;
use crate::gpu::lz77::Token;
use crate::gpu::plan;
use crate::gpu::plan::DynamicPlan;
use crate::gpu::rle;
use crate::gpu::rle::RleEntry;
use crate::gpu::tables;
use crate::gpu::tables::{DistTables, META_ORDER};
use crate::gpu::walk;
use vstd::arithmetic::power2;
use vstd::prelude::*;

verus! {

/// The most tokens that the buffers of one run hold.
pub const MAX_TOKENS: usize = 32768;

/// Room for the output of one run.
pub const MAX_OUTPUT_BYTES: usize = 132096;

/// Room for the block header of one run.
pub const MAX_HEADER_BYTES: usize = 1024;

/// How many tokens one workgroup handles.
pub const WG_SIZE: u32 = 256;

/// A table entry in one word: symbol, number of extra bits and base.
pub open spec fn packed_entry(sym: int, extra: int, base: int) -> int {
    sym + 256 * extra + 65536 * base
}

/// One packed entry per match length, with symbols counted from 257. Those
/// below the shortest match are 0.
pub fn build_len_lut() -> (r: Vec<u32>)
    ensures
        r@.len() == 259,
        forall|l: int| 0 <= l < 3 ==> #[trigger] r@[l] == 0,
        forall|l: int|
            3 <= l <= 258 ==> #[trigger] r@[l] == packed_entry(
                tables::length_row(l),
                tables::LENGTH_EXTRA@[tables::length_row(l)] as int,
                tables::LENGTH_BASE@[tables::length_row(l)] as int,
            ),
{
    let entries = tables::len_lut();
    let mut out: Vec<u32> = Vec::with_capacity(259);
    let mut l: usize = 0;
    while l < 259
        invariant
            l <= 259,
            entries@.len() == 259,
            forall|k: int| 3 <= k <= 258 ==> tables::is_length_entry(#[trigger] entries@[k], k),
            out@.len() == l,
            forall|k: int| 0 <= k < 3 && k < l ==> #[trigger] out@[k] == 0,
            forall|k: int|
                3 <= k < l ==> #[trigger] out@[k] == packed_entry(
                    tables::length_row(k),
                    tables::LENGTH_EXTRA@[tables::length_row(k)] as int,
                    tables::LENGTH_BASE@[tables::length_row(k)] as int,
                ),
        decreases 259 - l,
    {
        if l < 3 {
            out.push(0);
        } else {
            let e = entries[l];
            proof {
                tables::lemma_length_row(l as int);
            }
            out.push((e.sym as u32 - 257) + 256 * e.extra_bits as u32 + 65536 * e.base as u32);
        }
        l = l + 1;
    }
    out
}

/// The packed entry of a distance.
pub open spec fn packed_dist(distance: int) -> int {
    packed_entry(
        tables::dist_row(distance),
        tables::DIST_EXTRA@[tables::dist_row(distance)] as int,
        tables::DIST_BASE@[tables::dist_row(distance)] as int,
    )
}

/// One packed entry per distance up to 256. The first is 0.
pub fn build_dist_lut_lo() -> (r: Vec<u32>)
    ensures
        r@.len() == 257,
        r@[0] == 0,
        forall|d: int| 1 <= d <= 256 ==> #[trigger] r@[d] == packed_dist(d),
{
    let dists = DistTables::new();
    let mut out: Vec<u32> = Vec::with_capacity(257);
    out.push(0);
    let mut d: u32 = 1;
    while d < 257
        invariant
            1 <= d <= 257,
            dists.wf(),
            out@.len() == d,
            out@[0] == 0,
            forall|k: int| 1 <= k < d ==> #[trigger] out@[k] == packed_dist(k),
        decreases 257 - d,
    {
        let e = dists.dist_entry(d);
        proof {
            tables::lemma_dist_row(d as int);
        }
        out.push(e.sym as u32 + 256 * e.extra_bits as u32 + 65536 * e.base as u32);
        d = d + 1;
    }
    out
}

/// One packed entry per 128 distances above 256. The first two are 0.
pub fn build_dist_lut_hi() -> (r: Vec<u32>)
    ensures
        r@.len() == 256,
        r@[0] == 0,
        r@[1] == 0,
        forall|d: int| 257 <= d <= 32768 ==> r@[(d - 1) / 128] == #[trigger] packed_dist(d),
{
    let dists = DistTables::new();
    let mut out: Vec<u32> = Vec::with_capacity(256);
    out.push(0);
    out.push(0);
    let mut b: u32 = 2;
    while b < 256
        invariant
            2 <= b <= 256,
            dists.wf(),
            out@.len() == b,
            out@[0] == 0,
            out@[1] == 0,
            forall|k: int| 2 <= k < b ==> #[trigger] out@[k] == packed_dist(128 * k + 1),
        decreases 256 - b,
    {
        let d: u32 = 128 * b + 1;
        let e = dists.dist_entry(d);
        proof {
            tables::lemma_dist_row(d as int);
        }
        out.push(e.sym as u32 + 256 * e.extra_bits as u32 + 65536 * e.base as u32);
        b = b + 1;
    }
    proof {
        assert forall|d: int| 257 <= d <= 32768 implies out@[(d - 1) / 128]
            == #[trigger] packed_dist(d) by {
            tables::lemma_dist_block((d - 1) / 128, d);
        }
    }
    out
}

/// The packed tables, as the host looks symbols up in them.
pub struct HostTables {
    len: Vec<u32>,
    lo: Vec<u32>,
    hi: Vec<u32>,
}

impl HostTables {
    pub closed spec fn wf(&self) -> bool {
        &&& self.len@.len() == 259
        &&& self.lo@.len() == 257
        &&& self.hi@.len() == 256
        &&& forall|l: int|
            3 <= l <= 258 ==> #[trigger] self.len@[l] == packed_entry(
                tables::length_row(l),
                tables::LENGTH_EXTRA@[tables::length_row(l)] as int,
                tables::LENGTH_BASE@[tables::length_row(l)] as int,
            )
        &&& forall|d: int| 1 <= d <= 256 ==> #[trigger] self.lo@[d] == packed_dist(d)
        &&& forall|d: int|
            257 <= d <= 32768 ==> self.hi@[(d - 1) / 128] == #[trigger] packed_dist(d)
    }

    pub fn new() -> (r: Self)
        ensures
            r.wf(),
    {
        HostTables { len: build_len_lut(), lo: build_dist_lut_lo(), hi: build_dist_lut_hi() }
    }

    /// Maps a match length to its symbol, its number of extra bits and their
    /// value.
    pub fn host_length_code(&self, length: u32) -> (r: (u32, u32, u32))
        requires
            self.wf(),
            3 <= length <= 258,
        ensures
            (r.0 as int, r.1 as int, r.2 as int) == tables::length_code_spec(length as int),
    {
        proof {
            tables::lemma_length_row(length as int);
        }
        let packed: u32 = self.len[length as usize];
        let sym: u32 = packed % 256 + 257;
        let extra: u32 = packed / 256 % 256;
        let base: u32 = packed / 65536;
        (sym, extra, length - base)
    }

    /// Maps a distance to its symbol, its number of extra bits and their value.
    pub fn host_distance_code(&self, distance: u32) -> (r: (u32, u32, u32))
        requires
            self.wf(),
            1 <= distance <= 32768,
        ensures
            (r.0 as int, r.1 as int, r.2 as int) == tables::distance_code_spec(distance as int),
    {
        proof {
            tables::lemma_dist_row(distance as int);
            if distance > 256 {
                assert(self.hi@[(distance - 1) as int / 128] == packed_dist(distance as int));
            }
        }
        let packed: u32 = if distance <= 256 {
            self.lo[distance as usize]
        } else {
            self.hi[((distance - 1) / 128) as usize]
        };
        assert(packed == packed_dist(distance as int));
        let sym: u32 = packed % 256;
        let extra: u32 = packed / 256 % 256;
        let base: u32 = packed / 65536;
        (sym, extra, distance - base)
    }
}

/// The lengths of the fixed literal and length codes.
pub fn build_fixed_lit_lens() -> (r: Vec<u32>)
    ensures
        r@.len() == 288,
        forall|s: int| 0 <= s < 288 ==> #[trigger] r@[s] == fixed::litlen_lens()[s],
{
    let mut out: Vec<u32> = Vec::with_capacity(288);
    let mut s: u32 = 0;
    while s < 288
        invariant
            s <= 288,
            out@.len() == s,
            forall|k: int| 0 <= k < s ==> #[trigger] out@[k] == fixed::litlen_lens()[k],
        decreases 288 - s,
    {
        out.push(fixed::fixed_litlen_code(s).1);
        s = s + 1;
    }
    out
}

/// The fixed literal and length codes with their bits in stream order.
pub fn build_fixed_lit_codes_pre() -> (r: Vec<u32>)
    ensures
        deflate::stream_order(r@, fixed::litlen_lens()),
{
    let pre = fixed::fixed_litlen_pre();
    let mut out: Vec<u32> = Vec::with_capacity(288);
    let mut s: usize = 0;
    while s < 288
        invariant
            s <= 288,
            pre@.len() == 288,
            forall|k: int|
                0 <= k < 288 ==> {
                    let e = #[trigger] pre@[k];
                    &&& e.1 == fixed::litlen_lens()[k]
                    &&& e.0 < power2::pow2(e.1 as nat)
                    &&& bits::lsb_bits(e.0 as nat, e.1 as nat) == canonical::code_bits(
                        fixed::litlen_lens(),
                        k,
                    )
                },
            out@.len() == s,
            forall|k: int| 0 <= k < s ==> #[trigger] out@[k] == pre@[k].0,
        decreases 288 - s,
    {
        out.push(pre[s].0);
        s = s + 1;
    }
    out
}

/// The lengths of the fixed distance codes.
pub fn build_fixed_dist_lens() -> (r: Vec<u32>)
    ensures
        r@.len() == 30,
        forall|s: int| 0 <= s < 30 ==> #[trigger] r@[s] == fixed::dist_lens()[s],
{
    vec![5u32; 30]
}

/// The fixed distance codes with their bits in stream order.
pub fn build_fixed_dist_codes_pre() -> (r: Vec<u32>)
    ensures
        deflate::stream_order(r@, fixed::dist_lens()),
{
    let pre = fixed::fixed_dist_pre();
    let mut out: Vec<u32> = Vec::with_capacity(30);
    let mut s: usize = 0;
    while s < 30
        invariant
            s <= 30,
            pre@.len() == 30,
            forall|k: int|
                0 <= k < 30 ==> {
                    let e = #[trigger] pre@[k];
                    &&& e.1 == 5
                    &&& e.0 < power2::pow2(5)
                    &&& bits::lsb_bits(e.0 as nat, 5) == canonical::code_bits(
                        fixed::dist_lens(),
                        k,
                    )
                },
            out@.len() == s,
            forall|k: int| 0 <= k < s ==> #[trigger] out@[k] == pre@[k].0,
        decreases 30 - s,
    {
        out.push(pre[s].0);
        s = s + 1;
    }
    out
}

/// How many bits a token takes.
proof fn lemma_token_len(lit_lens: Seq<u8>, dist_lens: Seq<u8>, token: Token)
    requires
        token.encodable(),
    ensures
        block::token_bits(lit_lens, dist_lens, token).len() == (if token.is_literal() {
            lit_lens[token.distance as int] as int
        } else {
            let (ls, le, lv) = tables::length_code_spec(token.length as int);
            let (ds, de, dv) = tables::distance_code_spec(token.distance as int);
            lit_lens[ls] + le + dist_lens[ds] + de
        }),
        !token.is_literal() ==> tables::length_code_spec(token.length as int).1 <= 5,
        !token.is_literal() ==> tables::distance_code_spec(token.distance as int).1 <= 13,
{
    if token.is_literal() {
        let s = token.distance as int;
        bits::lemma_msb_len(canonical::code_of(lit_lens, s), lit_lens[s] as nat);
    } else {
        let (ls, le, lv) = tables::length_code_spec(token.length as int);
        let (ds, de, dv) = tables::distance_code_spec(token.distance as int);
        tables::lemma_length_row(token.length as int);
        tables::lemma_dist_row(token.distance as int);
        bits::lemma_msb_len(canonical::code_of(lit_lens, ls), lit_lens[ls] as nat);
        bits::lemma_msb_len(canonical::code_of(dist_lens, ds), dist_lens[ds] as nat);
        bits::lemma_lsb_len(lv as nat, le as nat);
        bits::lemma_lsb_len(dv as nat, de as nat);
    }
}

/// The size of a block under the fixed code, in bits.
pub fn total_bits_for_fixed(tokens: &[Token]) -> (r: u64)
    requires
        lz77::all_encodable(tokens@),
        31 * tokens@.len() + 10 <= u64::MAX,
    ensures
        r == block::fixed_block_bits(tokens@).len(),
        r <= 31 * tokens@.len() + 10,
{
    let ghost ll = fixed::litlen_lens();
    let ghost dl = fixed::dist_lens();
    let host = HostTables::new();
    let mut total: u64 = 3;
    let mut i: usize = 0;
    proof {
        assert(tokens@.skip(0) =~= tokens@);
        bits::lemma_lsb_len(0b011, 3);
    }
    while i < tokens.len()
        invariant
            i <= tokens@.len(),
            31 * tokens@.len() + 10 <= u64::MAX,
            lz77::all_encodable(tokens@),
            ll == fixed::litlen_lens(),
            dl == fixed::dist_lens(),
            host.wf(),
            total <= 31 * i + 3,
            total + block::body_bits(ll, dl, tokens@.skip(i as int)).len()
                == block::fixed_block_bits(tokens@).len(),
        decreases tokens@.len() - i,
    {
        let t = tokens[i];
        let ghost rest = tokens@.skip(i as int);
        proof {
            assert(tokens@[i as int].encodable());
            assert(rest[0] == t);
            assert(rest.skip(1) =~= tokens@.skip(i + 1));
            lemma_token_len(ll, dl, t);
            block::lemma_symbols(t);
        }
        if t.is_literal() {
            let (_, b) = fixed::fixed_litlen_code(t.distance);
            total = total + b as u64;
        } else {
            let (lcode, lextra, _) = host.host_length_code(t.length);
            let (_, lb) = fixed::fixed_litlen_code(lcode);
            let (_, dextra, _) = host.host_distance_code(t.distance);
            total = total + (lb + lextra) as u64 + (5 + dextra) as u64;
        }
        i = i + 1;
    }
    let (_, eob_bits) = fixed::fixed_litlen_code(256);
    proof {
        bits::lemma_msb_len(canonical::code_of(ll, 256), ll[256] as nat);
    }
    total + eob_bits as u64
}

/// The block without tokens, under the fixed code.
pub fn empty_fixed_block() -> (r: Vec<u8>)
    ensures
        r@ == seq![0x03u8, 0x00u8],
        bits::bytes_bits(r@) == bits::pad_to_byte(block::fixed_block_bits(Seq::empty())),
{
    let mut out: Vec<u8> = Vec::with_capacity(2);
    out.push(0x03);
    out.push(0x00);
    proof {
        let ll = fixed::litlen_lens();
        let first = seq![0x03u8];
        assert(out@ =~= first.push(0x00u8));
        bits::lemma_bytes_bits_push(first, 0x00);
        bits::lemma_bytes_bits_push(Seq::empty(), 0x03);
        assert(Seq::<u8>::empty().push(0x03) =~= first);
        fixed::lemma_litlen_canonical(256);
        power2::lemma2_to64();
        bits::lemma_lsb_concat(3, 3, 0, 5);
        assert(0 * power2::pow2(3) == 0);
        bits::lemma_lsb_zero(5);
        bits::lemma_lsb_zero(7);
        bits::lemma_lsb_zero(8);
        bits::lemma_lsb_len(3, 3);
        let empty = Seq::<Token>::empty();
        assert(block::body_bits(ll, fixed::dist_lens(), empty) =~= bits::zero_bits(7));
        assert(bits::bytes_bits(out@) =~= bits::lsb_bits(3, 3) + bits::zero_bits(13));
        assert(bits::pad_to_byte(block::fixed_block_bits(empty)) =~= bits::lsb_bits(3, 3)
            + bits::zero_bits(13));
    }
    out
}

/// The size of the table of literal and length code lengths on a device.
pub const LIT_TABLE_LEN: usize = 288;

/// The size of the table of distance code lengths on a device.
pub const DIST_TABLE_LEN: usize = 32;

/// What a device needs for a block with codes of its own: code lengths and
/// codes in stream order for it to look up, and the finished header.
pub struct DynamicHuffman {
    /// Filled up to `LIT_TABLE_LEN` for alignment.
    pub lit_lens_u32: Vec<u32>,
    pub lit_codes_pre: Vec<u32>,
    /// Filled up to `DIST_TABLE_LEN` for alignment.
    pub dist_lens_u32: Vec<u32>,
    pub dist_codes_pre: Vec<u32>,
    pub header_bytes: Vec<u8>,
    pub header_bit_count: u32,
    pub body_bit_count: u64,
    pub eob_bits: u64,
}

/// The same lengths as words, in a table of the given size. What is left of the
/// table is zero.
pub open spec fn widened(words: Seq<u32>, lens: Seq<u8>, size: int) -> bool {
    &&& words.len() == size
    &&& forall|s: int| 0 <= s < lens.len() ==> #[trigger] words[s] == lens[s]
    &&& forall|s: int| lens.len() <= s < size ==> #[trigger] words[s] == 0
}

impl DynamicHuffman {
    /// The tables, header and sizes are those of the block for these tokens.
    pub open spec fn describes(&self, tokens: Seq<Token>) -> bool {
        let (ll, dl, ml) = block::dynamic_lens(tokens)->0;
        let header = block::header_bits(ll, dl, ml);
        &&& block::dynamic_lens(tokens) is Some
        &&& widened(self.lit_lens_u32@, ll, 288)
        &&& widened(self.dist_lens_u32@, dl, 32)
        &&& deflate::stream_order(self.lit_codes_pre@, ll)
        &&& deflate::stream_order(self.dist_codes_pre@, dl)
        &&& bits::bytes_bits(self.header_bytes@) == bits::pad_to_byte(header)
        &&& self.header_bit_count == header.len()
        &&& self.header_bit_count <= MAX_HEADER_BITS
        &&& self.body_bit_count + self.eob_bits == block::body_bits(ll, dl, tokens).len()
        &&& self.eob_bits == ll[256]
        &&& self.body_bit_count <= 48 * tokens.len()
    }
}

/// The longest block header there can be, in bits.
pub const MAX_HEADER_BITS: u32 = 4498;

proof fn lemma_entries_len(meta_lens: Seq<u8>, entries: Seq<RleEntry>)
    requires
        forall|i: int|
            0 <= i < entries.len() ==> {
                &&& rle::entry_ok(#[trigger] entries[i])
                &&& meta_lens[entries[i].code as int] <= 7
            },
    ensures
        block::entries_bits(meta_lens, entries).len() <= 14 * entries.len(),
    decreases entries.len(),
{
    if entries.len() > 0 {
        let e = entries[0];
        let more = entries.skip(1);
        assert forall|i: int| 0 <= i < more.len() implies {
            &&& rle::entry_ok(#[trigger] more[i])
            &&& meta_lens[more[i].code as int] <= 7
        } by {
            assert(more[i] == entries[i + 1]);
        }
        lemma_entries_len(meta_lens, more);
        bits::lemma_lsb_len(e.extra_value as nat, e.extra_bits as nat);
        bits::lemma_msb_len(
            canonical::code_of(meta_lens, e.code as int),
            meta_lens[e.code as int] as nat,
        );
    }
}

proof fn lemma_meta_bits_len(meta_lens: Seq<u8>, i: nat, n: nat)
    requires
        i <= n,
    ensures
        block::meta_bits(meta_lens, i, n).len() == 3 * (n - i),
    decreases n - i,
{
    if i < n {
        lemma_meta_bits_len(meta_lens, i + 1, n);
        bits::lemma_lsb_len(meta_lens[META_ORDER@[i as int] as int] as nat, 3);
    }
}

/// Writes the header of a planned block and counts its bits.
fn write_header_counted(p: &DynamicPlan, Ghost(tokens): Ghost<Seq<Token>>) -> (r: HostBitWriter)
    requires
        p.plans(tokens),
    ensures
        r.wf(),
        r@ == block::header_bits(p.lit_lens@, p.dist_lens@, p.meta_lens@),
        r@.len() <= MAX_HEADER_BITS,
{
    let ghost ml = p.meta_lens@;
    let ghost entries = p.entries@;
    let ghost all = block::header_bits(p.lit_lens@, p.dist_lens@, ml);
    let mut bw = HostBitWriter::new();
    proof {
        assert forall|i: int| 0 <= i < entries.len() implies {
            &&& rle::entry_ok(#[trigger] entries[i])
            &&& ml[entries[i].code as int] <= 7
        } by {}
        lemma_entries_len(ml, entries);
        lemma_meta_bits_len(ml, 0, p.nmeta as nat);
        bits::lemma_lsb_len(0b101, 3);
        bits::lemma_lsb_len((p.nlit - 257) as nat, 5);
        bits::lemma_lsb_len((p.ndist - 1) as nat, 5);
        bits::lemma_lsb_len((p.nmeta - 4) as nat, 4);
        assert(all.len() <= MAX_HEADER_BITS);
    }
    bw.write_bits(0b101, 3);
    bw.write_bits((p.nlit - 257) as u32, 5);
    bw.write_bits((p.ndist - 1) as u32, 5);
    bw.write_bits((p.nmeta - 4) as u32, 4);
    let mut i: usize = 0;
    assert(bw@ + block::meta_bits(ml, 0, p.nmeta as nat) + block::entries_bits(ml, entries) =~= all);
    while i < p.nmeta
        invariant
            i <= p.nmeta,
            p.plans(tokens),
            ml == p.meta_lens@,
            entries == p.entries@,
            bw.wf(),
            all.len() <= MAX_HEADER_BITS,
            bw@ + block::meta_bits(ml, i as nat, p.nmeta as nat) + block::entries_bits(ml, entries)
                == all,
        decreases p.nmeta - i,
    {
        let ghost start = bw@;
        assert(all.len() >= start.len());
        bw.write_bits(p.meta_lens[META_ORDER[i]] as u32, 3);
        assert(bw@ + block::meta_bits(ml, (i + 1) as nat, p.nmeta as nat) =~= start
            + block::meta_bits(ml, i as nat, p.nmeta as nat));
        i = i + 1;
    }
    let mut j: usize = 0;
    assert(entries.skip(0) =~= entries);
    assert(bw@ + Seq::<bool>::empty() =~= bw@);
    while j < p.entries.len()
        invariant
            j <= entries.len(),
            p.plans(tokens),
            ml == p.meta_lens@,
            entries == p.entries@,
            bw.wf(),
            all.len() <= MAX_HEADER_BITS,
            bw@ + block::entries_bits(ml, entries.skip(j as int)) == all,
        decreases entries.len() - j,
    {
        let e = p.entries[j];
        let ghost start = bw@;
        proof {
            assert(all.len() >= start.len());
            assert(p.entries@[j as int] == e);
            assert(ml[e.code as int] <= 7);
            assert(p.meta_codes@[e.code as int] == canonical::code_of(ml, e.code as int));
            bits::lemma_msb_len(
                canonical::code_of(ml, e.code as int),
                ml[e.code as int] as nat,
            );
        }
        let code: u32 = p.meta_codes[e.code as usize];
        let nbits: u32 = p.meta_lens[e.code as usize] as u32;
        bw.write_huffman(code, nbits);
        bw.write_bits(e.extra_value, e.extra_bits);
        proof {
            assert(bw@ =~= start + block::entry_bits(ml, e));
            assert(entries.skip(j as int)[0] == e);
            assert(entries.skip(j as int).skip(1) =~= entries.skip(j + 1));
            assert(bw@ + block::entries_bits(ml, entries.skip(j + 1)) =~= start
                + block::entries_bits(ml, entries.skip(j as int)));
        }
        j = j + 1;
    }
    assert(bw@ + Seq::<bool>::empty() =~= bw@);
    bw
}

/// Turns lengths into words, in a table of the given size.
fn widen(lens: &Vec<u8>, size: usize) -> (r: Vec<u32>)
    requires
        lens@.len() <= size,
    ensures
        widened(r@, lens@, size as int),
{
    let mut out: Vec<u32> = Vec::with_capacity(size);
    let mut i: usize = 0;
    while i < size
        invariant
            i <= size,
            out@.len() == i,
            forall|s: int| 0 <= s < i && s < lens@.len() ==> #[trigger] out@[s] == lens@[s],
            forall|s: int| lens@.len() <= s < i ==> #[trigger] out@[s] == 0,
        decreases size - i,
    {
        if i < lens.len() {
            out.push(lens[i] as u32);
        } else {
            out.push(0);
        }
        i = i + 1;
    }
    out
}

/// Builds the header and the lookup tables of a block with codes of its own,
/// unless some code would be too long for DEFLATE.
pub fn build_dynamic_huffman(tokens: &[Token]) -> (r: Option<DynamicHuffman>)
    requires
        lz77::all_encodable(tokens@),
        tokens@.len() < u32::MAX,
    ensures
        r is None <==> block::dynamic_lens(tokens@) is None,
        r matches Some(h) ==> h.describes(tokens@),
{
    let len_table = tables::len_lut();
    let dist_tables = DistTables::new();
    let p = match plan::plan_dynamic_block(tokens, &len_table, &dist_tables) {
        Some(p) => p,
        None => {
            return None;
        },
    };
    let ghost ll = p.lit_lens@;
    let ghost dl = p.dist_lens@;
    let lit_codes_pre = deflate::reverse_codes(&p.lit_codes, &p.lit_lens);
    let dist_codes_pre = deflate::reverse_codes(&p.dist_codes, &p.dist_lens);
    let host = HostTables::new();
    let mut body_bits: u64 = 0;
    let mut i: usize = 0;
    assert(tokens@.skip(0) =~= tokens@);
    while i < tokens.len()
        invariant
            i <= tokens@.len() < u32::MAX,
            lz77::all_encodable(tokens@),
            p.plans(tokens@),
            ll == p.lit_lens@,
            dl == p.dist_lens@,
            host.wf(),
            body_bits <= 48 * i,
            body_bits + block::body_bits(ll, dl, tokens@.skip(i as int)).len()
                == block::body_bits(ll, dl, tokens@).len(),
        decreases tokens@.len() - i,
    {
        let tok = tokens[i];
        let ghost rest = tokens@.skip(i as int);
        proof {
            assert(tokens@[i as int].encodable());
            assert(rest[0] == tok);
            assert(rest.skip(1) =~= tokens@.skip(i + 1));
            lemma_token_len(ll, dl, tok);
            block::lemma_symbols(tok);
            assert(ll[block::lit_symbol(tok)] <= 15);
        }
        if tok.is_literal() {
            body_bits = body_bits + p.lit_lens[tok.distance as usize] as u64;
        } else {
            let (lcode, lextra, _) = host.host_length_code(tok.length);
            let (dcode, dextra, _) = host.host_distance_code(tok.distance);
            assert(dl[block::dist_symbol(tok)] <= 15);
            body_bits = body_bits + (p.lit_lens[lcode as usize] as u64 + lextra as u64) + (
            p.dist_lens[dcode as usize] as u64 + dextra as u64);
        }
        i = i + 1;
    }
    let eob_bits: u64 = p.lit_lens[256] as u64;
    proof {
        bits::lemma_msb_len(canonical::code_of(ll, 256), ll[256] as nat);
    }
    let bw = write_header_counted(&p, Ghost(tokens@));
    let header_bit_count: u32 = bw.bit_count();
    let header_bytes = bw.into_bytes();
    Some(
        DynamicHuffman {
            lit_lens_u32: widen(&p.lit_lens, LIT_TABLE_LEN),
            lit_codes_pre,
            dist_lens_u32: widen(&p.dist_lens, DIST_TABLE_LEN),
            dist_codes_pre,
            header_bytes,
            header_bit_count,
            body_bit_count: body_bits,
            eob_bits,
        },
    )
}

/// What one run on the device is given, and how its output is read back.
pub struct EmitRun {
    /// The tokens, one word each.
    pub packed: Vec<u32>,
    pub n_tokens: u32,
    /// Workgroups of the first pass, one thread per token.
    pub n_workgroups: u32,
    /// Workgroups of the last pass, with one more thread for the end of block.
    pub emit_workgroups: u32,
    /// The header, filled up to a whole word.
    pub header_padded: Vec<u8>,
    pub header_bit_count: u32,
    /// How much of the output is cleared and copied back.
    pub live_bytes: u64,
    pub total_bits: u64,
}

/// How many bytes of output a run clears and copies back.
pub open spec fn live_bytes_for(header_bits: int, n_tokens: int) -> int {
    4 * (dispatch::ceil_div(header_bits + 32 * n_tokens + 16, 32) + 1)
}

impl EmitRun {
    /// The run is the one for these tokens behind this header.
    pub open spec fn runs(
        &self,
        tokens: Seq<Token>,
        header: Seq<u8>,
        header_bits: int,
        total_bits: int,
    ) -> bool {
        &&& self.packed@.len() == tokens.len()
        &&& forall|i: int|
            0 <= i < tokens.len() ==> #[trigger] self.packed@[i] == walk::packed_word(tokens[i])
        &&& self.n_tokens == tokens.len()
        &&& self.n_workgroups == dispatch::ceil_div(tokens.len() as int, 256)
        &&& self.n_workgroups <= WG_SIZE
        &&& self.emit_workgroups == dispatch::ceil_div(tokens.len() as int + 1, 256)
        &&& self.header_padded@ == identity::padded_to_words(header)
        &&& self.header_bit_count == header_bits
        &&& self.live_bytes == live_bytes_for(header_bits, tokens.len() as int)
        &&& self.live_bytes <= MAX_OUTPUT_BYTES
        &&& self.total_bits == total_bits
    }
}

/// Plans a run for the given tokens behind the given header.
pub fn plan_run(tokens: &[Token], header: &[u8], header_bit_count: u32, total_bits: u64) -> (r:
    EmitRun)
    requires
        tokens@.len() <= MAX_TOKENS,
        header@.len() <= MAX_HEADER_BYTES,
        header_bit_count <= MAX_HEADER_BITS,
    ensures
        r.runs(tokens@, header@, header_bit_count as int, total_bits as int),
{
    let n: usize = tokens.len();
    let mut packed: Vec<u32> = Vec::with_capacity(n);
    let mut i: usize = 0;
    while i < n
        invariant
            i <= n == tokens@.len(),
            packed@.len() == i,
            forall|k: int| 0 <= k < i ==> #[trigger] packed@[k] == walk::packed_word(tokens@[k]),
        decreases n - i,
    {
        packed.push(walk::pack_token(tokens[i]));
        i = i + 1;
    }
    let header_padded = identity::pad_to_u32(header);
    let live_bits: u64 = header_bit_count as u64 + n as u64 * 32 + 16;
    let live_bytes: u64 = 4 * (dispatch::div_ceil(live_bits, 32) + 1);
    EmitRun {
        packed,
        n_tokens: n as u32,
        n_workgroups: dispatch::div_ceil(n as u64, 256) as u32,
        emit_workgroups: dispatch::div_ceil(n as u64 + 1, 256) as u32,
        header_padded,
        header_bit_count,
        live_bytes,
        total_bits,
    }
}

/// A block under the fixed code: finished on the host, or left to the device.
pub enum FixedEmit {
    Done(Vec<u8>),
    Run(EmitRun),
}

/// Plans the emission of a block under the fixed code. Without tokens it is
/// finished here; else its output always has room in what is copied back.
pub fn plan_fixed_block_v2(tokens: &[Token]) -> (r: FixedEmit)
    requires
        lz77::all_encodable(tokens@),
        tokens@.len() <= MAX_TOKENS,
    ensures
        tokens@.len() == 0 ==> (r matches FixedEmit::Done(v) && v@ == seq![0x03u8, 0x00u8]
            && bits::bytes_bits(v@) == bits::pad_to_byte(block::fixed_block_bits(tokens@))),
        tokens@.len() > 0 ==> (r matches FixedEmit::Run(run) && run.runs(
            tokens@,
            seq![0x03u8],
            3,
            block::fixed_block_bits(tokens@).len() as int,
        ) && dispatch::ceil_div(run.total_bits as int, 8) <= run.live_bytes),
{
    if tokens.len() == 0 {
        assert(tokens@ =~= Seq::<Token>::empty());
        return FixedEmit::Done(empty_fixed_block());
    }
    let mut header: Vec<u8> = Vec::with_capacity(1);
    header.push(0x03);
    let total_bits: u64 = total_bits_for_fixed(tokens);
    let run = plan_run(tokens, header.as_slice(), 3, total_bits);
    assert(header@ =~= seq![0x03u8]);
    FixedEmit::Run(run)
}

/// A block with codes of its own: finished on the host, or left to the device.
pub enum DynamicEmit {
    Done(Vec<u8>),
    Run(DynamicHuffman, EmitRun),
}

/// The message for codes that would be too long.
pub open spec fn too_tall() -> Seq<char> {
    "dynamic Huffman build failed (tree too tall)"@
}

/// Plans the emission of a block with codes of its own. Without tokens it is
/// finished here. Fails if some code would be too long for DEFLATE.
pub fn plan_dynamic_block_v3(tokens: &[Token]) -> (r: Result<DynamicEmit, Error>)
    requires
        lz77::all_encodable(tokens@),
        tokens@.len() <= MAX_TOKENS,
    ensures
        tokens@.len() == 0 ==> (r matches Ok(DynamicEmit::Done(v)) && v@ == seq![0x03u8, 0x00u8]
            && bits::bytes_bits(v@) == bits::pad_to_byte(block::fixed_block_bits(tokens@))),
        tokens@.len() > 0 && block::dynamic_lens(tokens@) is None ==> (r matches Err(Error::Io(m))
            && m@ == too_tall()),
        tokens@.len() > 0 && block::dynamic_lens(tokens@) is Some ==> (r matches Ok(
            DynamicEmit::Run(h, run),
        ) && h.describes(tokens@) && run.runs(
            tokens@,
            h.header_bytes@,
            h.header_bit_count as int,
            (block::dynamic_block_bits(tokens@)->0).len() as int,
        )),
{
    if tokens.len() == 0 {
        assert(tokens@ =~= Seq::<Token>::empty());
        return Ok(DynamicEmit::Done(empty_fixed_block()));
    }
    match build_dynamic_huffman(tokens) {
        None => Err(Error::Io("dynamic Huffman build failed (tree too tall)".to_owned())),
        Some(h) => {
            proof {
                bits::lemma_bytes_bits_len(h.header_bytes@);
            }
            let total_bits: u64 = h.header_bit_count as u64 + h.body_bit_count + h.eob_bits;
            let run = plan_run(tokens, h.header_bytes.as_slice(), h.header_bit_count, total_bits);
            Ok(DynamicEmit::Run(h, run))
        },
    }
}

/// Cuts the output of a run to the bytes that the block spans.
pub fn finish_run(run: &EmitRun, raw: &[u8]) -> (r: Vec<u8>)
    requires
        dispatch::ceil_div(run.total_bits as int, 8) <= raw@.len(),
    ensures
        r@ == raw@.take(dispatch::ceil_div(run.total_bits as int, 8)),
{
    dispatch::trim_output(raw, run.total_bits)
}

/// A packed entry gives back its parts: the symbol in the lowest byte, the number
/// of extra bits in the next, and the base above.
pub proof fn law_packed_entries(sym: int, extra: int, base: int)
    requires
        0 <= sym < 256,
        0 <= extra < 256,
        0 <= base,
    ensures
        packed_entry(sym, extra, base) % 256 == sym,
        packed_entry(sym, extra, base) / 256 % 256 == extra,
        packed_entry(sym, extra, base) / 65536 == base,
{
}

/// A run clears and copies back whole words, with room for its header, 32 bits for
/// each token, and the end of the block. It has a thread for each token, and one
/// more for the end.
pub proof fn law_runs_have_room(
    tokens: &[Token],
    header: &[u8],
    header_bits: u32,
    total_bits: u64,
    r: EmitRun,
)
    requires
        tokens@.len() <= MAX_TOKENS,
        header@.len() <= MAX_HEADER_BYTES,
        header_bits <= MAX_HEADER_BITS,
        call_ensures(plan_run, (tokens, header, header_bits, total_bits), r),
    ensures
        r.live_bytes % 4 == 0,
        8 * r.live_bytes >= header_bits + 32 * tokens@.len() + 16 + 32,
        8 * r.live_bytes < header_bits + 32 * tokens@.len() + 16 + 64,
        256 * r.n_workgroups >= tokens@.len(),
        256 * (r.n_workgroups - 1) < tokens@.len(),
        256 * r.emit_workgroups >= tokens@.len() + 1,
        256 * (r.emit_workgroups - 1) < tokens@.len() + 1,
        r.packed@.len() == tokens@.len(),
        forall|i: int|
            0 <= i < tokens@.len() && walk::fits_word(tokens@[i]) ==> walk::unpacked_token(
                #[trigger] r.packed@[i],
            ) == tokens@[i],
        r.header_padded@.len() >= header@.len(),
        r.header_padded@.take(header@.len() as int) == header@,
        r.header_bit_count == header_bits,
        r.total_bits == total_bits,
        r.n_tokens == tokens@.len(),
{
    identity::law_identity_round_trip(header@);
    assert forall|i: int|
        0 <= i < tokens@.len() && walk::fits_word(tokens@[i]) implies walk::unpacked_token(
        #[trigger] r.packed@[i],
    ) == tokens@[i] by {
        assert(r.packed@[i] == walk::packed_word(tokens@[i]));
    }
}

/// What a device looks up are the lengths and codes of the block: each symbol with
/// a code has its length, and its code with the first bit lowest; what is left of
/// the tables is zero.
pub proof fn law_device_tables(
    tokens: &[Token],
    r: Option<DynamicHuffman>,
    ll: Seq<u8>,
    dl: Seq<u8>,
    ml: Seq<u8>,
)
    requires
        lz77::all_encodable(tokens@),
        tokens@.len() < u32::MAX,
        call_ensures(build_dynamic_huffman, (tokens,), r),
        block::dynamic_lens(tokens@) == Some((ll, dl, ml)),
    ensures
        r matches Some(h) && {
            &&& h.lit_lens_u32@.len() == 288
            &&& h.dist_lens_u32@.len() == 32
            &&& forall|s: int| 0 <= s < ll.len() ==> #[trigger] h.lit_lens_u32@[s] == ll[s]
            &&& forall|s: int| ll.len() <= s < 288 ==> #[trigger] h.lit_lens_u32@[s] == 0
            &&& forall|s: int| 0 <= s < dl.len() ==> #[trigger] h.dist_lens_u32@[s] == dl[s]
            &&& forall|s: int| dl.len() <= s < 32 ==> #[trigger] h.dist_lens_u32@[s] == 0
            &&& forall|s: int|
                0 <= s < ll.len() ==> bits::lsb_bits(
                    #[trigger] h.lit_codes_pre@[s] as nat,
                    ll[s] as nat,
                ) == canonical::code_bits(ll, s)
            &&& forall|s: int|
                0 <= s < dl.len() ==> bits::lsb_bits(
                    #[trigger] h.dist_codes_pre@[s] as nat,
                    dl[s] as nat,
                ) == canonical::code_bits(dl, s)
            &&& h.eob_bits == ll[256]
        },
{
}

} // verus!
