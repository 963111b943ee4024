//! Canonical Huffman codes: their values, and why no code is a prefix of
//! another.
use crate::gpu::bits;
use crate::gpu::huffman;
use crate::gpu::huffman::HuffTree;
use crate::gpu::huffman_laws;
use vstd::arithmetic::mul;
use vstd::arithmetic::power2;
use vstd::prelude::*;

verus! {

/// How many of the first `k` symbols have a code of `len` bits.
pub open spec fn length_count(lens: Seq<u8>, len: nat, k: nat) -> nat
    decreases k,
{
    if k == 0 {
        0
    } else {
        length_count(lens, len, (k - 1) as nat) + (if lens[k - 1] == len {
            1nat
        } else {
            0nat
        })
    }
}

/// The code of the first symbol with `len` bits: one past the last shorter
/// code, extended by a zero bit per step.
pub open spec fn first_code(lens: Seq<u8>, len: nat) -> nat
    decreases len,
{
    if len <= 1 {
        0
    } else {
        2 * (first_code(lens, (len - 1) as nat) + length_count(lens, (len - 1) as nat, lens.len()))
    }
}

/// The canonical code of `sym`: codes of one length are consecutive, in order
/// of the symbols.
pub open spec fn code_of(lens: Seq<u8>, sym: int) -> nat {
    if lens[sym] == 0 {
        0
    } else {
        first_code(lens, lens[sym] as nat) + length_count(lens, lens[sym] as nat, sym as nat)
    }
}

/// The code of `sym` as it stands in the bit stream.
pub open spec fn code_bits(lens: Seq<u8>, sym: int) -> Seq<bool> {
    bits::msb_bits(code_of(lens, sym), lens[sym] as nat)
}

/// The share of all codes of `d` bits that the first `k` symbols take.
pub open spec fn kraft(lens: Seq<u8>, d: nat, k: nat) -> nat
    decreases k,
{
    if k == 0 {
        0
    } else {
        kraft(lens, d, (k - 1) as nat) + (if lens[k - 1] > 0 {
            power2::pow2((d - lens[k - 1]) as nat)
        } else {
            0
        })
    }
}

/// Codes of these lengths, each of at most `d` bits, have room side by side.
pub open spec fn kraft_ok(lens: Seq<u8>, d: nat) -> bool {
    &&& forall|s: int| 0 <= s < lens.len() ==> #[trigger] lens[s] <= d
    &&& kraft(lens, d, lens.len()) <= power2::pow2(d)
}

/// Canonical codes for the given code lengths, each to be read from its most
/// significant bit; 0 for a symbol without a code.
pub fn canonical_codes(lens: &[u8]) -> (r: Vec<u32>)
    ensures
        r@.len() == lens@.len(),
        forall|s: int|
            0 <= s < lens@.len() ==> #[trigger] r@[s] == code_of(lens@, s) % 0x1_0000_0000,
{
    let n: usize = lens.len();
    let mut counts: Vec<u32> = vec![0u32; 256];
    let mut i: usize = 0;
    while i < n
        invariant
            i <= n == lens@.len(),
            counts@.len() == 256,
            forall|l: int|
                1 <= l < 256 ==> #[trigger] counts@[l] == length_count(lens@, l as nat, i as nat)
                    % 0x1_0000_0000,
        decreases n - i,
    {
        let l: usize = lens[i] as usize;
        if l > 0 {
            let c: u32 = counts[l].wrapping_add(1);
            counts.set(l, c);
        }
        i = i + 1;
    }
    let mut next_code: Vec<u32> = vec![0u32; 256];
    let mut code: u32 = 0;
    let mut bits: usize = 2;
    while bits < 256
        invariant
            2 <= bits <= 256,
            n == lens@.len(),
            counts@.len() == 256,
            next_code@.len() == 256,
            forall|l: int|
                1 <= l < 256 ==> #[trigger] counts@[l] == length_count(lens@, l as nat, n as nat)
                    % 0x1_0000_0000,
            code == first_code(lens@, (bits - 1) as nat) % 0x1_0000_0000,
            forall|l: int|
                1 <= l < bits ==> #[trigger] next_code@[l] == first_code(lens@, l as nat)
                    % 0x1_0000_0000,
        decreases 256 - bits,
    {
        let sum: u32 = code.wrapping_add(counts[bits - 1]);
        code = sum.wrapping_add(sum);
        next_code.set(bits, code);
        bits = bits + 1;
    }
    let mut codes: Vec<u32> = Vec::with_capacity(n);
    let mut s: usize = 0;
    while s < n
        invariant
            s <= n == lens@.len(),
            next_code@.len() == 256,
            codes@.len() == s,
            forall|l: int|
                1 <= l < 256 ==> #[trigger] next_code@[l] == (first_code(lens@, l as nat)
                    + length_count(lens@, l as nat, s as nat)) % 0x1_0000_0000,
            forall|t: int|
                0 <= t < s ==> #[trigger] codes@[t] == code_of(lens@, t) % 0x1_0000_0000,
        decreases n - s,
    {
        let l: usize = lens[s] as usize;
        if l > 0 {
            let c: u32 = next_code[l];
            codes.push(c);
            next_code.set(l, c.wrapping_add(1));
        } else {
            codes.push(0);
        }
        s = s + 1;
    }
    codes
}

proof fn lemma_length_count_mono(lens: Seq<u8>, len: nat, s: nat, t: nat)
    requires
        s <= t,
    ensures
        length_count(lens, len, s) <= length_count(lens, len, t),
        s < t && lens[s as int] == len ==> length_count(lens, len, s) < length_count(lens, len, t),
    decreases t - s,
{
    if s < t {
        lemma_length_count_mono(lens, len, s + 1, t);
        if s + 1 < t {
        }
    }
}

/// A longer code starts past every extension of the shorter ones.
proof fn lemma_first_code_mono(lens: Seq<u8>, a: nat, b: nat)
    requires
        1 <= a < b,
    ensures
        (first_code(lens, a) + length_count(lens, a, lens.len())) * power2::pow2((b - a) as nat)
            <= first_code(lens, b),
    decreases b,
{
    let top = first_code(lens, a) + length_count(lens, a, lens.len());
    power2::lemma2_to64();
    if b > a + 1 {
        let c = (b - 1) as nat;
        lemma_first_code_mono(lens, a, c);
        power2::lemma_pow2_unfold((b - a) as nat);
        let p = power2::pow2((c - a) as nat);
        assert(top * (2 * p) == 2 * (top * p)) by (nonlinear_arith);
    } else {
        assert(power2::pow2((b - a) as nat) == 2);
        assert(top * 2 == 2 * top);
    }
}

/// The share of codes of `d` bits that lie below the first code of `len` bits.
spec fn kraft_below(lens: Seq<u8>, d: nat, len: nat, k: nat) -> nat
    decreases k,
{
    if k == 0 {
        0
    } else {
        kraft_below(lens, d, len, (k - 1) as nat) + (if 0 < lens[k - 1] < len {
            power2::pow2((d - lens[k - 1]) as nat)
        } else {
            0
        })
    }
}

proof fn lemma_kraft_below_step(lens: Seq<u8>, d: nat, len: nat, k: nat)
    requires
        len >= 1,
    ensures
        kraft_below(lens, d, len + 1, k) == kraft_below(lens, d, len, k) + length_count(
            lens,
            len,
            k,
        ) * power2::pow2((d - len) as nat),
        kraft_below(lens, d, len, k) <= kraft(lens, d, k),
        kraft_below(lens, d, 1, k) == 0,
    decreases k,
{
    let p = power2::pow2((d - len) as nat);
    if k > 0 {
        let j = (k - 1) as nat;
        lemma_kraft_below_step(lens, d, len, j);
        let c = length_count(lens, len, j);
        assert((c + 1) * p == c * p + p) by (nonlinear_arith);
    } else {
        assert(0 * p == 0) by (nonlinear_arith);
    }
}

proof fn lemma_first_code_kraft(lens: Seq<u8>, d: nat, len: nat)
    requires
        1 <= len <= d,
    ensures
        first_code(lens, len) * power2::pow2((d - len) as nat) == kraft_below(
            lens,
            d,
            len,
            lens.len(),
        ),
    decreases len,
{
    let n = lens.len();
    let p = power2::pow2((d - len) as nat);
    if len == 1 {
        lemma_kraft_below_step(lens, d, 1, n);
        assert(0 * p == 0) by (nonlinear_arith);
    } else {
        let m = (len - 1) as nat;
        lemma_first_code_kraft(lens, d, m);
        lemma_kraft_below_step(lens, d, m, n);
        power2::lemma_pow2_unfold((d - m) as nat);
        let f = first_code(lens, m);
        let c = length_count(lens, m, n);
        assert((2 * (f + c)) * p == f * (2 * p) + c * (2 * p)) by (nonlinear_arith);
    }
}

/// Where the lengths have room side by side, each code fits its length.
pub proof fn lemma_code_fits(lens: Seq<u8>, d: nat, s: int)
    requires
        kraft_ok(lens, d),
        0 <= s < lens.len(),
    ensures
        code_of(lens, s) < power2::pow2(lens[s] as nat),
{
    let l = lens[s] as nat;
    power2::lemma2_to64();
    if l > 0 {
        let n = lens.len();
        let p = power2::pow2((d - l) as nat);
        let f = first_code(lens, l);
        let c = length_count(lens, l, n);
        lemma_first_code_kraft(lens, d, l);
        lemma_kraft_below_step(lens, d, l, n);
        lemma_kraft_below_step(lens, d, l + 1, n);
        power2::lemma_pow2_pos((d - l) as nat);
        power2::lemma_pow2_adds(l, (d - l) as nat);
        lemma_length_count_mono(lens, l, s as nat, n);
        let q = power2::pow2(l);
        assert(f * p + c * p <= q * p);
        assert(f + c <= q) by (nonlinear_arith)
            requires
                f * p + c * p <= q * p,
                p > 0,
        ;
    }
}

proof fn lemma_msb_prefix(c: nat, a: nat, b: nat)
    requires
        a <= b,
    ensures
        bits::msb_bits(c, b) == bits::msb_bits(c / power2::pow2((b - a) as nat), a)
            + bits::msb_bits(c, (b - a) as nat),
{
    let m = (b - a) as nat;
    bits::lemma_lsb_split(c, m, a);
    bits::lemma_lsb_len(c, m);
    bits::lemma_lsb_len(c / power2::pow2(m), a);
    bits::lemma_lsb_len(c, b);
    assert(bits::msb_bits(c, b) =~= bits::msb_bits(c / power2::pow2(m), a) + bits::msb_bits(c, m));
}

proof fn lemma_lsb_injective(x: nat, y: nat, n: nat)
    requires
        x < power2::pow2(n),
        y < power2::pow2(n),
        bits::lsb_bits(x, n) == bits::lsb_bits(y, n),
    ensures
        x == y,
    decreases n,
{
    power2::lemma2_to64();
    if n > 0 {
        let m = (n - 1) as nat;
        power2::lemma_pow2_unfold(n);
        let bx = bits::lsb_bits(x, n);
        let by_ = bits::lsb_bits(y, n);
        assert(bx[0] == (x % 2 == 1));
        assert(by_[0] == (y % 2 == 1));
        assert(bx.skip(1) =~= bits::lsb_bits(x / 2, m));
        assert(by_.skip(1) =~= bits::lsb_bits(y / 2, m));
        lemma_lsb_injective(x / 2, y / 2, m);
    }
}

/// `a` is how `b` begins.
pub open spec fn is_prefix(a: Seq<bool>, b: Seq<bool>) -> bool {
    a.len() <= b.len() && b.take(a.len() as int) == a
}

/// No code is a prefix of the code of another symbol.
pub proof fn law_prefix_free(lens: Seq<u8>, d: nat, s: int, t: int)
    requires
        kraft_ok(lens, d),
        0 <= s < lens.len(),
        0 <= t < lens.len(),
        s != t,
        lens[s] > 0,
        lens[t] > 0,
    ensures
        !is_prefix(code_bits(lens, s), code_bits(lens, t)),
{
    let a = lens[s] as nat;
    let b = lens[t] as nat;
    let x = code_of(lens, s);
    let y = code_of(lens, t);
    bits::lemma_msb_len(x, a);
    bits::lemma_msb_len(y, b);
    lemma_code_fits(lens, d, s);
    lemma_code_fits(lens, d, t);
    if is_prefix(code_bits(lens, s), code_bits(lens, t)) {
        let m = (b - a) as nat;
        let z = y / power2::pow2(m);
        lemma_msb_prefix(y, a, b);
        bits::lemma_msb_len(z, a);
        power2::lemma_pow2_pos(m);
        power2::lemma_pow2_adds(a, m);
        power2::lemma2_to64();
        let p = power2::pow2(m);
        let q = power2::pow2(a);
        assert(y / p < q) by (nonlinear_arith)
            requires
                y < q * p,
                p > 0,
        ;
        assert(code_bits(lens, t).take(a as int) =~= bits::msb_bits(z, a));
        assert(bits::lsb_bits(z, a) =~= bits::msb_bits(z, a).reverse());
        assert(bits::lsb_bits(x, a) =~= bits::msb_bits(x, a).reverse());
        lemma_lsb_injective(x, z, a);
        if a == b {
            assert(y / p == y) by (nonlinear_arith)
                requires
                    p == 1,
            ;
            lemma_length_count_mono(lens, a, s as nat, if s < t {
                t as nat
            } else {
                s as nat
            });
            lemma_length_count_mono(lens, a, t as nat, if t < s {
                s as nat
            } else {
                t as nat
            });
        } else {
            lemma_first_code_mono(lens, a, b);
            lemma_length_count_mono(lens, a, s as nat, lens.len());
            let top = first_code(lens, a) + length_count(lens, a, lens.len());
            assert(x + 1 <= top);
            assert((x + 1) * p <= y) by {
                mul::lemma_mul_inequality((x + 1) as int, top as int, p as int);
            }
            assert(y / p >= x + 1) by (nonlinear_arith)
                requires
                    (x + 1) * p <= y,
                    p > 0,
            ;
        }
    }
}

/// The share that the leaves of `tree` among the first `m` symbols take, when
/// the tree hangs `k` levels below the root.
spec fn tree_share(tree: HuffTree, k: nat, d: nat, m: nat) -> nat
    decreases m,
{
    if m == 0 {
        0
    } else {
        tree_share(tree, k, d, (m - 1) as nat) + (if tree.has(m - 1) {
            power2::pow2((d - k - tree.depth_of(m - 1)) as nat)
        } else {
            0
        })
    }
}

proof fn lemma_share_node(l: HuffTree, r: HuffTree, k: nat, d: nat, m: nat)
    requires
        forall|s: int| !(#[trigger] l.has(s) && r.has(s)),
    ensures
        tree_share(HuffTree::Node(Box::new(l), Box::new(r)), k, d, m) == tree_share(l, k + 1, d, m)
            + tree_share(r, k + 1, d, m),
    decreases m,
{
    if m > 0 {
        lemma_share_node(l, r, k, d, (m - 1) as nat);
        let t = HuffTree::Node(Box::new(l), Box::new(r));
        assert(t.has(m - 1) == (l.has(m - 1) || r.has(m - 1)));
        assert(!(l.has(m - 1) && r.has(m - 1)));
    }
}

proof fn lemma_share_leaf(s: usize, k: nat, d: nat, m: nat)
    ensures
        tree_share(HuffTree::Leaf(s), k, d, m) == (if s < m {
            power2::pow2((d - k) as nat)
        } else {
            0
        }),
    decreases m,
{
    if m > 0 {
        lemma_share_leaf(s, k, d, (m - 1) as nat);
    }
}

proof fn lemma_share_tree(tree: HuffTree, k: nat, d: nat, n: nat)
    requires
        tree.distinct(),
        k + tree.height() <= d,
        forall|s: int| #[trigger] tree.has(s) ==> 0 <= s < n,
    ensures
        tree_share(tree, k, d, n) == power2::pow2((d - k) as nat),
    decreases tree,
{
    match tree {
        HuffTree::Leaf(s) => {
            assert(tree.has(s as int));
            lemma_share_leaf(s, k, d, n);
        },
        HuffTree::Node(l, r) => {
            assert forall|s: int| #[trigger] l.has(s) implies 0 <= s < n by {
                assert(tree.has(s));
            }
            assert forall|s: int| #[trigger] r.has(s) implies 0 <= s < n by {
                assert(tree.has(s));
            }
            lemma_share_tree(*l, k + 1, d, n);
            lemma_share_tree(*r, k + 1, d, n);
            lemma_share_node(*l, *r, k, d, n);
            power2::lemma_pow2_unfold((d - k) as nat);
        },
    }
}

proof fn lemma_kraft_tree(freq: Seq<u32>, lens: Seq<u8>, d: nat, m: nat)
    requires
        m <= freq.len() == lens.len(),
        freq.len() <= huffman::MAX_SYMBOLS,
        huffman::used_count(freq, freq.len()) >= 2,
        lens == huffman::huffman_lengths(freq),
    ensures
        kraft(lens, d, m) == tree_share(huffman::huffman_tree(freq), 0, d, m),
    decreases m,
{
    if m > 0 {
        lemma_kraft_tree(freq, lens, d, (m - 1) as nat);
        huffman::lemma_huffman_tree(freq);
        let tree = huffman::huffman_tree(freq);
        assert(tree.has(m - 1) == (freq[m - 1] > 0));
        assert(tree.depth_of(m - 1) <= tree.height());
        match tree {
            HuffTree::Leaf(_) => {},
            HuffTree::Node(l, r) => {
                assert(tree.depth_of(m - 1) >= 1);
            },
        }
    }
}

proof fn lemma_kraft_ones(freq: Seq<u32>, lens: Seq<u8>, d: nat, k: nat)
    requires
        k <= freq.len() == lens.len(),
        forall|s: int| 0 <= s < lens.len() ==> #[trigger] lens[s] == (if freq[s] > 0 {
            1u8
        } else {
            0u8
        }),
    ensures
        kraft(lens, d, k) == huffman::used_count(freq, k) * power2::pow2((d - 1) as nat),
    decreases k,
{
    let p = power2::pow2((d - 1) as nat);
    if k > 0 {
        let j = (k - 1) as nat;
        lemma_kraft_ones(freq, lens, d, j);
        let c = huffman::used_count(freq, j);
        assert(lens[j as int] == (if freq[j as int] > 0 {
            1u8
        } else {
            0u8
        }));
        assert((c + 1) * p == c * p + p) by (nonlinear_arith);
    } else {
        assert(0 * p == 0) by (nonlinear_arith);
    }
}

/// Exactly the symbols that occur get a code, none is longer than allowed, and
/// the codes have room side by side. With two symbols or more they leave no
/// room: the code is complete.
pub proof fn law_code_lengths(freq: Seq<u32>, max_bits: u32, d: nat)
    requires
        freq.len() <= huffman::MAX_SYMBOLS,
        huffman::code_lengths(freq, max_bits) is Some,
        1 <= d,
        max_bits <= d,
    ensures
        ({
            let lens = huffman::code_lengths(freq, max_bits)->0;
            &&& lens.len() == freq.len()
            &&& forall|s: int| 0 <= s < lens.len() ==> (#[trigger] lens[s] > 0) == (freq[s] > 0)
            &&& forall|s: int|
                0 <= s < lens.len() ==> #[trigger] lens[s] <= max_bits || lens[s] == 1
            &&& kraft_ok(lens, d)
            &&& huffman::used_count(freq, freq.len()) >= 2 ==> kraft(lens, d, lens.len())
                == power2::pow2(d)
        }),
{
    let n = freq.len();
    let lens = huffman::code_lengths(freq, max_bits)->0;
    let used = huffman::used_count(freq, n);
    if used <= 1 {
        lemma_kraft_ones(freq, lens, d, n);
        power2::lemma_pow2_unfold(d);
        let p = power2::pow2((d - 1) as nat);
        assert(used * p <= 2 * p) by (nonlinear_arith)
            requires
                used <= 1,
                p >= 0,
        ;
    } else {
        huffman::lemma_huffman_tree(freq);
        let tree = huffman::huffman_tree(freq);
        assert forall|s: int| 0 <= s < n implies (#[trigger] lens[s] > 0) == (freq[s] > 0)
            && lens[s] <= max_bits && (freq[s] > 0 ==> lens[s] == tree.depth_of(s)) by {
            assert(tree.has(s) == (freq[s] > 0));
            assert(tree.depth_of(s) <= tree.height());
            match tree {
                HuffTree::Leaf(_) => {},
                HuffTree::Node(l, r) => {
                    assert(tree.depth_of(s) >= 1);
                },
            }
            assert(!(huffman::huffman_lengths(freq)[s] > max_bits));
        }
        lemma_height_reached(tree);
        let deepest = choose|s: int| #[trigger] tree.has(s) && tree.depth_of(s) == tree.height();
        assert(lens[deepest] == tree.height());
        lemma_kraft_tree(freq, lens, d, n);
        lemma_share_tree(tree, 0, d, n);
    }
}

proof fn lemma_height_reached(tree: HuffTree)
    requires
        tree.distinct(),
    ensures
        exists|s: int| #[trigger] tree.has(s) && tree.depth_of(s) == tree.height(),
    decreases tree,
{
    match tree {
        HuffTree::Leaf(s) => {
            assert(tree.has(s as int));
        },
        HuffTree::Node(l, r) => {
            let c = if l.height() > r.height() {
                *l
            } else {
                *r
            };
            lemma_height_reached(c);
            let s = choose|s: int| #[trigger] c.has(s) && c.depth_of(s) == c.height();
            assert(tree.has(s));
            assert(!(l.has(s) && r.has(s)));
        },
    }
}

proof fn lemma_kraft_zeros(lens: Seq<u8>, d: nat, k: nat)
    requires
        k <= lens.len(),
        forall|s: int| 0 <= s < lens.len() ==> #[trigger] lens[s] == 0,
    ensures
        kraft(lens, d, k) == 0,
    decreases k,
{
    if k > 0 {
        lemma_kraft_zeros(lens, d, (k - 1) as nat);
        assert(lens[k - 1] == 0);
    }
}

/// The limit holds: whatever the frequencies, there is one length per symbol,
/// none above `max_bits`, and the codes have room side by side. The lengths are
/// those of the tree where it is low enough, and all 0 where it is not.
pub proof fn law_length_limit(freq: Seq<u32>, max_bits: u32)
    requires
        freq.len() <= huffman::MAX_SYMBOLS,
        max_bits >= 1,
    ensures
        ({
            let lens = huffman::built_lengths(freq, max_bits);
            &&& lens.len() == freq.len()
            &&& forall|s: int| 0 <= s < lens.len() ==> #[trigger] lens[s] <= max_bits
            &&& kraft(lens, max_bits as nat, lens.len()) <= power2::pow2(max_bits as nat)
            &&& huffman::code_lengths(freq, max_bits) matches Some(l) ==> lens == l
            &&& huffman::code_lengths(freq, max_bits) is None ==> forall|s: int|
                0 <= s < lens.len() ==> #[trigger] lens[s] == 0
        }),
{
    if huffman::code_lengths(freq, max_bits) is Some {
        law_code_lengths(freq, max_bits, max_bits as nat);
    } else {
        let lens = huffman::built_lengths(freq, max_bits);
        lemma_kraft_zeros(lens, max_bits as nat, lens.len());
    }
}

/// The code of `t` comes before that of `s`: it is shorter, or as long and that of
/// a lower symbol.
pub open spec fn comes_before(lens: Seq<u8>, t: int, s: int) -> bool {
    0 < lens[t] && (lens[t] < lens[s] || (lens[t] == lens[s] && t < s))
}

/// The share of the codes that come before that of `s`, among the first `k`.
pub open spec fn share_before(lens: Seq<u8>, d: nat, s: int, k: nat) -> int {
    huffman_laws::sum(
        Seq::new(
            k,
            |t: int|
                if comes_before(lens, t, s) {
                    power2::pow2((d - lens[t]) as nat) as int
                } else {
                    0
                },
        ),
    )
}

proof fn lemma_share_before(lens: Seq<u8>, d: nat, s: int, k: nat)
    requires
        0 <= s < lens.len(),
        k <= lens.len(),
        lens[s] > 0,
    ensures
        share_before(lens, d, s, k) == kraft_below(lens, d, lens[s] as nat, k) + length_count(
            lens,
            lens[s] as nat,
            if k < s {
                k
            } else {
                s as nat
            },
        ) * power2::pow2((d - lens[s]) as nat),
    decreases k,
{
    let l = lens[s] as nat;
    let p = power2::pow2((d - l) as nat);
    let all = Seq::new(
        k,
        |t: int|
            if comes_before(lens, t, s) {
                power2::pow2((d - lens[t]) as nat) as int
            } else {
                0
            },
    );
    if k == 0 {
        assert(0 * p == 0) by (nonlinear_arith);
    } else {
        let j = (k - 1) as nat;
        lemma_share_before(lens, d, s, j);
        let before = Seq::new(
            j,
            |t: int|
                if comes_before(lens, t, s) {
                    power2::pow2((d - lens[t]) as nat) as int
                } else {
                    0
                },
        );
        assert(all.drop_last() =~= before);
        if j < s && lens[j as int] == l {
            let c = length_count(lens, l, j);
            assert((c + 1) * p == c * p + p) by (nonlinear_arith);
        }
    }
}

/// Codes are canonical: they follow one another without a gap, the shorter ones
/// first and those of one length in the order of the symbols. Filled up to any
/// common length, each begins where those before it end.
pub proof fn law_codes_are_canonical(lens: &[u8], r: Vec<u32>, d: nat, s: int)
    requires
        call_ensures(canonical_codes, (lens,), r),
        kraft_ok(lens@, d),
        d <= 32,
        0 <= s < lens@.len(),
    ensures
        lens@[s] == 0 ==> r@[s] == 0,
        lens@[s] > 0 ==> r@[s] * power2::pow2((d - lens@[s]) as nat) == share_before(
            lens@,
            d,
            s,
            lens@.len(),
        ),
        r@[s] < power2::pow2(lens@[s] as nat),
{
    let n = lens@.len();
    let l = lens@[s] as nat;
    lemma_code_fits(lens@, d, s);
    power2::lemma2_to64();
    assert(l <= 32);
    if l < 32 {
        power2::lemma_pow2_strictly_increases(l, 32);
    }
    assert(code_of(lens@, s) < 0x1_0000_0000);
    assert(r@[s] == code_of(lens@, s));
    if l > 0 {
        lemma_share_before(lens@, d, s, n);
        lemma_first_code_kraft(lens@, d, l);
        let p = power2::pow2((d - l) as nat);
        let f = first_code(lens@, l);
        let c = length_count(lens@, l, s as nat);
        assert((f + c) * p == f * p + c * p) by (nonlinear_arith);
    }
}

} // verus!
