//! The fixed Huffman code of DEFLATE.
use crate::gpu::bits;
use crate::gpu::canonical;
use vstd::arithmetic::power2;
use vstd::prelude::*;

verus! {

/// The code lengths of the 288 literal and length symbols.
pub open spec fn litlen_lens() -> Seq<u8> {
    Seq::new(
        288,
        |s: int|
            if s < 144 {
                8u8
            } else if s < 256 {
                9u8
            } else if s < 280 {
                7u8
            } else {
                8u8
            },
    )
}

/// The code lengths of the 30 distance symbols.
pub open spec fn dist_lens() -> Seq<u8> {
    Seq::new(30, |s: int| 5u8)
}

/// The code of a literal or length symbol, and its number of bits.
pub open spec fn litlen_code(symbol: int) -> (int, int) {
    if symbol <= 143 {
        (0b0011_0000 + symbol, 8)
    } else if symbol <= 255 {
        (0b1_1001_0000 + (symbol - 144), 9)
    } else if symbol <= 279 {
        (symbol - 256, 7)
    } else {
        (0b1100_0000 + (symbol - 280), 8)
    }
}

/// Fixed Huffman code for a literal or length symbol.
pub fn fixed_litlen_code(symbol: u32) -> (r: (u32, u32))
    requires
        symbol <= 287,
    ensures
        (r.0 as int, r.1 as int) == litlen_code(symbol as int),
        r.0 < 512,
{
    if symbol <= 143 {
        (0b0011_0000 + symbol, 8)
    } else if symbol <= 255 {
        (0b1_1001_0000 + (symbol - 144), 9)
    } else if symbol <= 279 {
        (symbol - 256, 7)
    } else {
        (0b1100_0000 + (symbol - 280), 8)
    }
}

/// Fixed Huffman code for a distance symbol: the symbol itself in 5 bits.
pub fn fixed_dist_code(symbol: u32) -> (r: (u32, u32))
    ensures
        r == (symbol, 5u32),
{
    (symbol, 5)
}

proof fn lemma_count_7(k: nat)
    requires
        k <= 288,
    ensures
        canonical::length_count(litlen_lens(), 7, k) == (if k <= 256 {
            0
        } else if k <= 280 {
            k - 256
        } else {
            24
        }),
        canonical::length_count(litlen_lens(), 8, k) == (if k <= 144 {
            k as int
        } else if k <= 280 {
            144
        } else {
            144 + (k - 280)
        }),
        canonical::length_count(litlen_lens(), 9, k) == (if k <= 144 {
            0
        } else if k <= 256 {
            k - 144
        } else {
            112
        }),
    decreases k,
{
    if k > 0 {
        lemma_count_7((k - 1) as nat);
    }
}

proof fn lemma_count_other(len: nat, k: nat)
    requires
        len < 7,
        k <= 288,
    ensures
        canonical::length_count(litlen_lens(), len, k) == 0,
    decreases k,
{
    if k > 0 {
        lemma_count_other(len, (k - 1) as nat);
    }
}

proof fn lemma_first_code(len: nat)
    requires
        len <= 7,
    ensures
        canonical::first_code(litlen_lens(), len) == 0,
    decreases len,
{
    if len > 1 {
        lemma_first_code((len - 1) as nat);
        lemma_count_other((len - 1) as nat, 288);
    }
}

/// The fixed code is the canonical code for its lengths.
pub proof fn lemma_litlen_canonical(s: int)
    requires
        0 <= s < 288,
    ensures
        canonical::code_of(litlen_lens(), s) == litlen_code(s).0,
        litlen_lens()[s] == litlen_code(s).1,
{
    let lens = litlen_lens();
    lemma_first_code(7);
    lemma_count_7(288);
    lemma_count_7(s as nat);
    assert(canonical::first_code(lens, 8) == 48);
    assert(canonical::first_code(lens, 9) == 400);
}

proof fn lemma_dist_count(len: nat, k: nat)
    requires
        k <= 30,
    ensures
        canonical::length_count(dist_lens(), len, k) == (if len == 5 {
            k
        } else {
            0
        }),
    decreases k,
{
    if k > 0 {
        lemma_dist_count(len, (k - 1) as nat);
    }
}

/// The fixed distance code is the canonical code for its lengths.
pub proof fn lemma_dist_canonical(s: int)
    requires
        0 <= s < 30,
    ensures
        canonical::code_of(dist_lens(), s) == s,
        dist_lens()[s] == 5,
{
    let lens = dist_lens();
    lemma_dist_count(1, 30);
    lemma_dist_count(2, 30);
    lemma_dist_count(3, 30);
    lemma_dist_count(4, 30);
    lemma_dist_count(5, s as nat);
    assert(canonical::first_code(lens, 1) == 0);
    assert(canonical::first_code(lens, 2) == 0);
    assert(canonical::first_code(lens, 3) == 0);
    assert(canonical::first_code(lens, 4) == 0);
    assert(canonical::first_code(lens, 5) == 0);
}

proof fn lemma_litlen_kraft(k: nat)
    requires
        k <= 288,
    ensures
        canonical::kraft(litlen_lens(), 15, k) == (if k <= 144 {
            128 * (k as int)
        } else if k <= 256 {
            128 * 144 + 64 * (k - 144)
        } else if k <= 280 {
            128 * 144 + 64 * 112 + 256 * (k - 256)
        } else {
            128 * 144 + 64 * 112 + 256 * 24 + 128 * (k - 280)
        }),
    decreases k,
{
    power2::lemma2_to64();
    if k > 0 {
        lemma_litlen_kraft((k - 1) as nat);
    }
}

proof fn lemma_dist_kraft(k: nat)
    requires
        k <= 30,
    ensures
        canonical::kraft(dist_lens(), 15, k) == 1024 * k,
    decreases k,
{
    power2::lemma2_to64();
    if k > 0 {
        lemma_dist_kraft((k - 1) as nat);
    }
}

/// The fixed codes have room side by side.
pub proof fn lemma_fixed_kraft()
    ensures
        canonical::kraft_ok(litlen_lens(), 15),
        canonical::kraft_ok(dist_lens(), 15),
{
    lemma_litlen_kraft(288);
    lemma_dist_kraft(30);
    power2::lemma2_to64();
}

/// The fixed literal and length codes with their bits in stream order.
pub fn fixed_litlen_pre() -> (r: Vec<(u32, u32)>)
    ensures
        r@.len() == 288,
        forall|s: int|
            0 <= s < 288 ==> {
                let e = #[trigger] r@[s];
                &&& e.1 == litlen_lens()[s]
                &&& e.0 < power2::pow2(e.1 as nat)
                &&& bits::lsb_bits(e.0 as nat, e.1 as nat) == canonical::code_bits(litlen_lens(), s)
            },
{
    let mut out: Vec<(u32, u32)> = Vec::with_capacity(288);
    let mut sym: u32 = 0;
    while sym < 288
        invariant
            sym <= 288,
            out@.len() == sym,
            forall|s: int|
                0 <= s < sym ==> {
                    let e = #[trigger] out@[s];
                    &&& e.1 == litlen_lens()[s]
                    &&& e.0 < power2::pow2(e.1 as nat)
                    &&& bits::lsb_bits(e.0 as nat, e.1 as nat) == canonical::code_bits(
                        litlen_lens(),
                        s,
                    )
                },
        decreases 288 - sym,
    {
        let (code, bits) = fixed_litlen_code(sym);
        proof {
            lemma_litlen_canonical(sym as int);
        }
        out.push((bits::reverse_bits(code, bits), bits));
        sym = sym + 1;
    }
    out
}

/// The fixed distance codes with their bits in stream order.
pub fn fixed_dist_pre() -> (r: Vec<(u32, u32)>)
    ensures
        r@.len() == 30,
        forall|s: int|
            0 <= s < 30 ==> {
                let e = #[trigger] r@[s];
                &&& e.1 == 5
                &&& e.0 < power2::pow2(5)
                &&& bits::lsb_bits(e.0 as nat, 5) == canonical::code_bits(dist_lens(), s)
            },
{
    let mut out: Vec<(u32, u32)> = Vec::with_capacity(30);
    let mut sym: u32 = 0;
    while sym < 30
        invariant
            sym <= 30,
            out@.len() == sym,
            forall|s: int|
                0 <= s < sym ==> {
                    let e = #[trigger] out@[s];
                    &&& e.1 == 5
                    &&& e.0 < power2::pow2(5)
                    &&& bits::lsb_bits(e.0 as nat, 5) == canonical::code_bits(dist_lens(), s)
                },
        decreases 30 - sym,
    {
        proof {
            lemma_dist_canonical(sym as int);
        }
        out.push((bits::reverse_bits(sym, 5), 5));
        sym = sym + 1;
    }
    out
}

} // verus!
