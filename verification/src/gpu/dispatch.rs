//! Arithmetic around device dispatches, and what is done with their output.
use crate::gpu::bits;
use vstd::arithmetic::div_mod;
use vstd::prelude::*;

verus! {

/// How many groups of `size` hold `n` items.
pub open spec fn ceil_div(n: int, size: int) -> int {
    (n + size - 1) / size
}

/// How many groups of `size` hold `n` items.
pub fn div_ceil(n: u64, size: u64) -> (r: u64)
    requires
        size > 0,
    ensures
        r == ceil_div(n as int, size as int),
        r <= n,
{
    let q: u64 = n / size;
    proof {
        div_mod::lemma_fundamental_div_mod(n as int, size as int);
        let m = (n % size) as int;
        let s = size as int;
        if m == 0 {
            div_mod::lemma_fundamental_div_mod_converse(n + s - 1, s, q as int, s - 1);
            assert(q <= n) by (nonlinear_arith)
                requires
                    n == s * q,
                    s > 0,
            ;
        } else {
            assert(s * (q + 1) == s * q + s) by (nonlinear_arith);
            div_mod::lemma_fundamental_div_mod_converse(n + s - 1, s, q + 1, m - 1);
            assert(q < n) by (nonlinear_arith)
                requires
                    n == s * q + m,
                    m > 0,
                    s > 0,
            ;
        }
    }
    if n % size == 0 {
        q
    } else {
        q + 1
    }
}

/// Cuts a device's output to the bytes that a bit stream of `total_bits` spans.
pub fn trim_output(raw: &[u8], total_bits: u64) -> (r: Vec<u8>)
    requires
        ceil_div(total_bits as int, 8) <= raw@.len(),
    ensures
        r@ == raw@.take(ceil_div(total_bits as int, 8)),
{
    let n: u64 = div_ceil(total_bits, 8);
    let mut out: Vec<u8> = Vec::with_capacity(n as usize);
    let mut i: usize = 0;
    while (i as u64) < n
        invariant
            i <= n <= raw@.len(),
            out@ == raw@.take(i as int),
        decreases n - i,
    {
        assert(raw@.take(i as int).push(raw@[i as int]) =~= raw@.take(i + 1));
        out.push(raw[i]);
        i = i + 1;
    }
    out
}

pub proof fn lemma_bytes_bits_take(bytes: Seq<u8>, n: int)
    requires
        0 <= n <= bytes.len(),
    ensures
        bits::bytes_bits(bytes.take(n)) == bits::bytes_bits(bytes).take(8 * n),
    decreases bytes.len(),
{
    bits::lemma_bytes_bits_len(bytes);
    bits::lemma_bytes_bits_len(bytes.take(n));
    if n == bytes.len() {
        assert(bytes.take(n) =~= bytes);
        assert(bits::bytes_bits(bytes).take(8 * n) =~= bits::bytes_bits(bytes));
    } else {
        let init = bytes.drop_last();
        lemma_bytes_bits_take(init, n);
        bits::lemma_bytes_bits_len(init);
        assert(init.take(n) =~= bytes.take(n));
        assert(bits::bytes_bits(bytes).take(8 * n) =~= bits::bytes_bits(init).take(8 * n));
    }
}

/// Output that holds a bit stream and then only zeros is, once it is cut, the
/// bit stream filled up to a whole byte.
pub proof fn law_trimmed_output(raw: Seq<u8>, stream: Seq<bool>, spare: nat)
    requires
        bits::bytes_bits(raw) == stream + bits::zero_bits(spare),
    ensures
        ceil_div(stream.len() as int, 8) <= raw.len(),
        bits::bytes_bits(raw.take(ceil_div(stream.len() as int, 8))) == bits::pad_to_byte(stream),
{
    let n = ceil_div(stream.len() as int, 8);
    bits::lemma_bytes_bits_len(raw);
    assert(8 * raw.len() == stream.len() + spare);
    lemma_bytes_bits_take(raw, n);
    assert(bits::bytes_bits(raw).take(8 * n) =~= bits::pad_to_byte(stream));
}

/// The groups hold all items, and one group fewer would not.
pub proof fn law_groups_are_just_enough(n: u64, size: u64, r: u64)
    requires
        size > 0,
        call_ensures(div_ceil, (n, size), r),
    ensures
        r * size >= n,
        r > 0 ==> (r - 1) * size < n,
{
    let s = size as int;
    let q = ceil_div(n as int, s);
    div_mod::lemma_fundamental_div_mod(n + s - 1, s);
    let m = (n + s - 1) % s;
    assert(q * s >= n && (q - 1) * s < n) by (nonlinear_arith)
        requires
            n + s - 1 == s * q + m,
            0 <= m < s,
    ;
}

} // verus!
