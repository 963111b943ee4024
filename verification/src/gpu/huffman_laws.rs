//! No prefix code is shorter than the one that is built.
use crate::gpu::huffman;
use crate::gpu::huffman::{HeapNode, HuffTree};
use vstd::arithmetic::div_mod;
use vstd::arithmetic::power2;
use vstd::prelude::*;

verus! {

/// The sum of the numbers.
pub open spec fn sum(s: Seq<int>) -> int
    decreases s.len(),
{
    if s.len() == 0 {
        0
    } else {
        sum(s.drop_last()) + s.last()
    }
}

proof fn lemma_sum_remove(s: Seq<int>, i: int)
    requires
        0 <= i < s.len(),
    ensures
        sum(s.remove(i)) == sum(s) - s[i],
    decreases s.len(),
{
    if i == s.len() - 1 {
        assert(s.remove(i) =~= s.drop_last());
    } else {
        lemma_sum_remove(s.drop_last(), i);
        assert(s.remove(i).drop_last() =~= s.drop_last().remove(i));
        assert(s.remove(i).last() == s.last());
    }
}

pub proof fn lemma_sum_update(s: Seq<int>, i: int, v: int)
    requires
        0 <= i < s.len(),
    ensures
        sum(s.update(i, v)) == sum(s) - s[i] + v,
{
    lemma_sum_remove(s, i);
    lemma_sum_remove(s.update(i, v), i);
    assert(s.update(i, v).remove(i) =~= s.remove(i));
}

pub proof fn lemma_sum_push(s: Seq<int>, v: int)
    ensures
        sum(s.push(v)) == sum(s) + v,
{
    assert(s.push(v).drop_last() =~= s);
}

pub proof fn lemma_sum_add(x: Seq<int>, y: Seq<int>, z: Seq<int>)
    requires
        x.len() == y.len() == z.len(),
        forall|i: int| 0 <= i < z.len() ==> #[trigger] z[i] == x[i] + y[i],
    ensures
        sum(z) == sum(x) + sum(y),
    decreases z.len(),
{
    if z.len() > 0 {
        let n = z.len() - 1;
        assert forall|i: int| 0 <= i < n implies #[trigger] z.drop_last()[i] == x.drop_last()[i]
            + y.drop_last()[i] by {
            assert(z[i] == x[i] + y[i]);
        }
        lemma_sum_add(x.drop_last(), y.drop_last(), z.drop_last());
        assert(z[n] == x[n] + y[n]);
    }
}

pub proof fn lemma_sum_zero(s: Seq<int>)
    requires
        forall|i: int| 0 <= i < s.len() ==> #[trigger] s[i] == 0,
    ensures
        sum(s) == 0,
    decreases s.len(),
{
    if s.len() > 0 {
        assert forall|i: int| 0 <= i < s.len() - 1 implies #[trigger] s.drop_last()[i] == 0 by {
            assert(s[i] == 0);
        }
        lemma_sum_zero(s.drop_last());
        assert(s[s.len() - 1] == 0);
    }
}

proof fn lemma_sum_least(s: Seq<int>, i: int)
    requires
        0 <= i < s.len(),
        forall|k: int| 0 <= k < s.len() ==> #[trigger] s[k] >= 0,
    ensures
        sum(s) >= s[i],
    decreases s.len(),
{
    lemma_sum_remove(s, i);
    let rest = s.remove(i);
    lemma_sum_sign(rest);
}

proof fn lemma_sum_sign(s: Seq<int>)
    requires
        forall|k: int| 0 <= k < s.len() ==> #[trigger] s[k] >= 0,
    ensures
        sum(s) >= 0,
    decreases s.len(),
{
    if s.len() > 0 {
        assert forall|k: int| 0 <= k < s.len() - 1 implies #[trigger] s.drop_last()[k] >= 0 by {
            assert(s[k] >= 0);
        }
        lemma_sum_sign(s.drop_last());
        assert(s[s.len() - 1] >= 0);
    }
}

proof fn lemma_sum_multiple(s: Seq<int>, q: int) -> (k: int)
    requires
        q > 0,
        forall|i: int| 0 <= i < s.len() ==> #[trigger] s[i] % q == 0,
    ensures
        sum(s) == k * q,
    decreases s.len(),
{
    if s.len() == 0 {
        assert(0 * q == 0) by (nonlinear_arith);
        0
    } else {
        let n = s.len() - 1;
        assert forall|i: int| 0 <= i < n implies #[trigger] s.drop_last()[i] % q == 0 by {
            assert(s[i] % q == 0);
        }
        let k = lemma_sum_multiple(s.drop_last(), q);
        assert(s[n] % q == 0);
        div_mod::lemma_fundamental_div_mod(s[n], q);
        let m = s[n] / q;
        assert(k * q + q * m == (k + m) * q) by (nonlinear_arith);
        k + m
    }
}

/// What the lengths cost, each times its weight.
pub open spec fn cost(weights: Seq<int>, lens: Seq<int>) -> int {
    sum(Seq::new(weights.len(), |i: int| weights[i] * lens[i]))
}

/// The room that codes of the lengths take, out of `2^d`.
pub open spec fn room(lens: Seq<int>, d: nat) -> int {
    sum(Seq::new(lens.len(), |i: int| power2::pow2((d - lens[i]) as nat) as int))
}

/// Codes of the lengths have room side by side.
pub open spec fn fits(lens: Seq<int>, d: nat) -> bool {
    &&& forall|i: int| 0 <= i < lens.len() ==> 0 <= #[trigger] lens[i] <= d
    &&& room(lens, d) <= power2::pow2(d)
}

proof fn lemma_update(weights: Seq<int>, lens: Seq<int>, d: nat, i: int, v: int)
    requires
        weights.len() == lens.len(),
        0 <= i < lens.len(),
    ensures
        cost(weights, lens.update(i, v)) == cost(weights, lens) - weights[i] * lens[i] + weights[i]
            * v,
        room(lens.update(i, v), d) == room(lens, d) - power2::pow2((d - lens[i]) as nat)
            + power2::pow2((d - v) as nat),
{
    let n = lens.len();
    let new = lens.update(i, v);
    let c = Seq::new(n, |k: int| weights[k] * lens[k]);
    lemma_sum_update(c, i, weights[i] * v);
    assert(Seq::new(n, |k: int| weights[k] * new[k]) =~= c.update(i, weights[i] * v));
    let r = Seq::new(n, |k: int| power2::pow2((d - lens[k]) as nat) as int);
    lemma_sum_update(r, i, power2::pow2((d - v) as nat) as int);
    assert(Seq::new(n, |k: int| power2::pow2((d - new[k]) as nat) as int) =~= r.update(
        i,
        power2::pow2((d - v) as nat) as int,
    ));
}

proof fn lemma_remove(weights: Seq<int>, lens: Seq<int>, d: nat, i: int)
    requires
        weights.len() == lens.len(),
        0 <= i < lens.len(),
    ensures
        cost(weights.remove(i), lens.remove(i)) == cost(weights, lens) - weights[i] * lens[i],
        room(lens.remove(i), d) == room(lens, d) - power2::pow2((d - lens[i]) as nat),
{
    let n = lens.len();
    let m = (n - 1) as nat;
    let w = weights.remove(i);
    let l = lens.remove(i);
    let c = Seq::new(n, |k: int| weights[k] * lens[k]);
    lemma_sum_remove(c, i);
    assert(Seq::new(m, |k: int| w[k] * l[k]) =~= c.remove(i));
    let r = Seq::new(n, |k: int| power2::pow2((d - lens[k]) as nat) as int);
    lemma_sum_remove(r, i);
    assert(Seq::new(m, |k: int| power2::pow2((d - l[k]) as nat) as int) =~= r.remove(i));
}

proof fn lemma_push(weights: Seq<int>, lens: Seq<int>, d: nat, w: int, l: int)
    requires
        weights.len() == lens.len(),
    ensures
        cost(weights.push(w), lens.push(l)) == cost(weights, lens) + w * l,
        room(lens.push(l), d) == room(lens, d) + power2::pow2((d - l) as nat),
{
    let n = lens.len();
    let m = n + 1;
    let c = Seq::new(n, |k: int| weights[k] * lens[k]);
    lemma_sum_push(c, w * l);
    let (ww, ll) = (weights.push(w), lens.push(l));
    assert(Seq::new(m, |k: int| ww[k] * ll[k]) =~= c.push(w * l));
    let r = Seq::new(n, |k: int| power2::pow2((d - lens[k]) as nat) as int);
    lemma_sum_push(r, power2::pow2((d - l) as nat) as int);
    assert(Seq::new(m, |k: int| power2::pow2((d - ll[k]) as nat) as int) =~= r.push(
        power2::pow2((d - l) as nat) as int,
    ));
}

/// Where the longest of the lengths is, leaving one position aside.
spec fn longest(lens: Seq<int>, aside: int, k: int) -> int
    decreases k,
{
    if k <= 0 {
        if aside == 0 {
            1
        } else {
            0
        }
    } else {
        let before = longest(lens, aside, k - 1);
        if k != aside && lens[k] > lens[before] {
            k
        } else {
            before
        }
    }
}

proof fn lemma_longest(lens: Seq<int>, aside: int, k: int)
    requires
        0 <= k < lens.len(),
        lens.len() >= 2,
    ensures
        0 <= longest(lens, aside, k) < lens.len(),
        longest(lens, aside, k) != aside,
        forall|i: int|
            0 <= i <= k && i != aside ==> #[trigger] lens[i] <= lens[longest(lens, aside, k)],
    decreases k,
{
    if k > 0 {
        lemma_longest(lens, aside, k - 1);
    }
}

/// A heavier tree that is no deeper can change places with a lighter one.
proof fn lemma_swap(weights: Seq<int>, lens: Seq<int>, d: nat, i: int, j: int) -> (r: Seq<int>)
    requires
        weights.len() == lens.len(),
        0 <= i < lens.len(),
        0 <= j < lens.len(),
        weights[i] <= weights[j],
        lens[i] <= lens[j],
        fits(lens, d),
    ensures
        r == lens.update(i, lens[j]).update(j, lens[i]),
        r.len() == lens.len(),
        fits(r, d),
        cost(weights, r) <= cost(weights, lens),
{
    let one = lens.update(i, lens[j]);
    let two = one.update(j, lens[i]);
    lemma_update(weights, lens, d, i, lens[j]);
    lemma_update(weights, one, d, j, lens[i]);
    assert forall|k: int| 0 <= k < two.len() implies 0 <= #[trigger] two[k] <= d by {
        assert(0 <= lens[k] <= d && 0 <= lens[i] <= d && 0 <= lens[j] <= d);
    }
    let (wi, wj, li, lj) = (weights[i], weights[j], lens[i], lens[j]);
    if i != j {
        assert(wi * lj + wj * li <= wi * li + wj * lj) by (nonlinear_arith)
            requires
                wi <= wj,
                li <= lj,
        ;
    } else {
        assert(two =~= lens);
    }
    two
}

/// The longest code, alone at its length, can be shortened to the length of the
/// next one.
proof fn lemma_shorten(weights: Seq<int>, lens: Seq<int>, d: nat, a: int, b: int) -> (r: Seq<int>)
    requires
        weights.len() == lens.len(),
        0 <= a < lens.len(),
        0 <= b < lens.len(),
        a != b,
        forall|k: int| 0 <= k < weights.len() ==> #[trigger] weights[k] >= 0,
        forall|k: int| 0 <= k < lens.len() && k != a ==> #[trigger] lens[k] <= lens[b],
        lens[b] <= lens[a],
        fits(lens, d),
    ensures
        r == lens.update(a, lens[b]),
        fits(r, d),
        lens[b] >= 1,
        cost(weights, r) <= cost(weights, lens),
{
    let r = lens.update(a, lens[b]);
    let m = lens[b];
    assert(0 <= m <= d && 0 <= lens[a] <= d);
    lemma_update(weights, lens, d, a, m);
    let w = weights[a];
    assert(w * m <= w * lens[a]) by (nonlinear_arith)
        requires
            w >= 0,
            m <= lens[a],
    ;
    let others = lens.remove(a);
    lemma_remove(weights, lens, d, a);
    let q = power2::pow2((d - m) as nat) as int;
    power2::lemma_pow2_pos((d - m) as nat);
    power2::lemma_pow2_pos((d - lens[a]) as nat);
    let terms = Seq::new(others.len(), |i: int| power2::pow2((d - others[i]) as nat) as int);
    assert forall|i: int| 0 <= i < terms.len() implies #[trigger] terms[i] % q == 0 by {
        let src = if i < a {
            i
        } else {
            i + 1
        };
        assert(others[i] == lens[src]);
        let l = lens[src];
        assert(0 <= l <= m);
        power2::lemma_pow2_adds((m - l) as nat, (d - m) as nat);
        div_mod::lemma_mod_multiples_basic(power2::pow2((m - l) as nat) as int, q);
    }
    let k = lemma_sum_multiple(terms, q);
    let full = power2::pow2(m as nat) as int;
    power2::lemma_pow2_adds(m as nat, (d - m) as nat);
    let whole = power2::pow2(d) as int;
    assert(whole == full * q);
    assert(k * q < whole);
    assert(k < full) by (nonlinear_arith)
        requires
            k * q < full * q,
            q > 0,
    ;
    assert(k * q + q <= full * q) by (nonlinear_arith)
        requires
            k + 1 <= full,
            q > 0,
    ;
    assert forall|i: int| 0 <= i < r.len() implies 0 <= #[trigger] r[i] <= d by {
        assert(0 <= lens[i] <= d);
    }
    if m == 0 {
        let bb = if b < a {
            b
        } else {
            b - 1
        };
        assert(others[bb] == lens[b]);
        assert forall|i: int| 0 <= i < terms.len() implies #[trigger] terms[i] >= 0 by {}
        lemma_sum_least(terms, bb);
        assert(terms[bb] == whole);
    }
    r
}

/// Lengths for the forest can be traded for lengths at which the two lightest
/// trees are siblings, at no more cost.
proof fn lemma_siblings(weights: Seq<int>, lens: Seq<int>, d: nat, a: int, b: int) -> (r: Seq<int>)
    requires
        weights.len() == lens.len(),
        weights.len() >= 2,
        0 <= a < lens.len(),
        0 <= b < lens.len(),
        a != b,
        forall|k: int| 0 <= k < weights.len() ==> #[trigger] weights[k] >= 0,
        forall|k: int| 0 <= k < weights.len() ==> weights[a] <= #[trigger] weights[k],
        forall|k: int| 0 <= k < weights.len() && k != a ==> weights[b] <= #[trigger] weights[k],
        fits(lens, d),
    ensures
        r.len() == lens.len(),
        fits(r, d),
        r[a] == r[b],
        r[a] >= 1,
        cost(weights, r) <= cost(weights, lens),
{
    let n = lens.len() as int;
    let x = longest(lens, -1, n - 1);
    lemma_longest(lens, -1, n - 1);
    let one = lemma_swap(weights, lens, d, a, x);
    assert forall|k: int| 0 <= k < n implies #[trigger] one[k] <= one[a] by {
        assert(lens[k] <= lens[x] && lens[a] <= lens[x]);
    }
    let y = longest(one, a, n - 1);
    lemma_longest(one, a, n - 1);
    let two = lemma_swap(weights, one, d, b, y);
    assert forall|k: int| 0 <= k < n && k != a implies #[trigger] two[k] <= two[b] by {
        assert(one[k] <= one[y] && one[b] <= one[y]);
    }
    assert(two[a] == one[a]);
    assert(two[b] == one[y]);
    lemma_shorten(weights, two, d, a, b)
}

/// The weights of the trees.
spec fn weights_of(forest: Seq<HeapNode>) -> Seq<int> {
    Seq::new(forest.len(), |i: int| forest[i].weight as int)
}

/// What merging costs: the weight of each new tree.
spec fn merge_cost(forest: Seq<HeapNode>, id: usize) -> int
    decreases forest.len(),
{
    if forest.len() <= 1 {
        0
    } else {
        proof {
            huffman::lemma_step(forest, id);
        }
        forest[huffman::least(forest)].weight + forest[huffman::second(forest)].weight + merge_cost(
            huffman::merge_step(forest, id),
            (id + 1) as usize,
        )
    }
}

proof fn lemma_step_weights(forest: Seq<HeapNode>, freq: Seq<u32>, id: usize, floor: nat)
    requires
        forest.len() >= 2,
        huffman::forest_ok(forest, freq, id, floor),
        id < usize::MAX,
        huffman::total(forest) <= u64::MAX,
    ensures
        ({
            let a = huffman::least(forest);
            let c = huffman::least(forest.remove(a));
            let b = huffman::second(forest);
            weights_of(huffman::merge_step(forest, id)) == weights_of(forest).remove(a).remove(
                c,
            ).push(forest[a].weight + forest[b].weight)
        }),
{
    let a = huffman::least(forest);
    let rest = forest.remove(a);
    let c = huffman::least(rest);
    let b = huffman::second(forest);
    huffman::lemma_step(forest, id);
    huffman::lemma_step_ok(forest, freq, id, floor);
    huffman::lemma_least_bound(rest);
    let next = huffman::merge_step(forest, id);
    assert(rest[c] == forest[b]);
    assert(next.last().weight == forest[a].weight + forest[b].weight);
    assert(weights_of(next) =~= weights_of(forest).remove(a).remove(c).push(
        forest[a].weight + forest[b].weight,
    ));
}

/// Merging the two lightest trees again and again costs no more than any lengths
/// that have room.
proof fn lemma_merging_is_cheapest(
    forest: Seq<HeapNode>,
    freq: Seq<u32>,
    id: usize,
    floor: nat,
    lens: Seq<int>,
    d: nat,
)
    requires
        forest.len() >= 1,
        huffman::forest_ok(forest, freq, id, floor),
        huffman::total(forest) <= u64::MAX,
        id + forest.len() <= usize::MAX,
        lens.len() == forest.len(),
        fits(lens, d),
    ensures
        merge_cost(forest, id) <= cost(weights_of(forest), lens),
    decreases forest.len(),
{
    let w = weights_of(forest);
    if forest.len() == 1 {
        let c = Seq::new(1, |i: int| w[i] * lens[i]);
        assert(w[0] * lens[0] >= 0) by (nonlinear_arith)
            requires
                w[0] >= 0,
                lens[0] >= 0,
        ;
        lemma_sum_sign(c);
    } else {
        let a = huffman::least(forest);
        let rest = forest.remove(a);
        let c = huffman::least(rest);
        let b = huffman::second(forest);
        huffman::lemma_step(forest, id);
        huffman::lemma_step_ok(forest, freq, id, floor);
        huffman::lemma_least_bound(rest);
        lemma_step_weights(forest, freq, id, floor);
        assert forall|k: int| 0 <= k < w.len() implies w[a] <= #[trigger] w[k] by {
            assert(!huffman::before(forest[k], forest[a]));
        }
        assert forall|k: int| 0 <= k < w.len() && k != a implies w[b] <= #[trigger] w[k] by {
            assert(!huffman::before(forest[k], forest[b]));
        }
        let tied = lemma_siblings(w, lens, d, a, b);
        let m = tied[a];
        assert(0 <= m <= d);
        lemma_remove(w, tied, d, a);
        let (w1, l1) = (w.remove(a), tied.remove(a));
        assert(w1[c] == w[b] && l1[c] == tied[b]);
        lemma_remove(w1, l1, d, c);
        let (w2, l2) = (w1.remove(c), l1.remove(c));
        let both = w[a] + w[b];
        lemma_push(w2, l2, d, both, m - 1);
        let next = huffman::merge_step(forest, id);
        let l3 = l2.push(m - 1);
        assert(w2.push(both) == weights_of(next));
        power2::lemma_pow2_unfold((d - m + 1) as nat);
        assert((d - m + 1) as nat - 1 == (d - m) as nat);
        assert(room(l3, d) == room(tied, d));
        assert forall|i: int| 0 <= i < l3.len() implies 0 <= #[trigger] l3[i] <= d by {
            if i < l2.len() {
                let j = if i < c {
                    i
                } else {
                    i + 1
                };
                let k = if j < a {
                    j
                } else {
                    j + 1
                };
                assert(l3[i] == l1[j] && l1[j] == tied[k]);
                assert(0 <= tied[k] <= d);
            }
        }
        lemma_merging_is_cheapest(
            next,
            freq,
            (id + 1) as usize,
            forest[b].weight as nat,
            l3,
            d,
        );
        assert(w[a] * m + w[b] * m == both * (m - 1) + both) by (nonlinear_arith)
            requires
                both == w[a] + w[b],
        ;
        assert(cost(weights_of(next), l3) + both == cost(w, tied));
    }
}

/// The cost of a tree: the weight of each subtree below the root.
spec fn tree_cost(tree: HuffTree, freq: Seq<u32>) -> int
    decreases tree,
{
    match tree {
        HuffTree::Leaf(_) => 0,
        HuffTree::Node(l, r) => tree_cost(*l, freq) + tree_cost(*r, freq) + l.weight(freq)
            + r.weight(freq),
    }
}

spec fn tree_costs(forest: Seq<HeapNode>, freq: Seq<u32>) -> Seq<int> {
    Seq::new(forest.len(), |i: int| tree_cost(forest[i].tree, freq))
}

proof fn lemma_merged_cost(forest: Seq<HeapNode>, freq: Seq<u32>, id: usize, floor: nat)
    requires
        forest.len() >= 1,
        huffman::forest_ok(forest, freq, id, floor),
        huffman::total(forest) <= u64::MAX,
        id + forest.len() <= usize::MAX,
    ensures
        tree_cost(huffman::merge_all(forest, id), freq) == sum(tree_costs(forest, freq))
            + merge_cost(forest, id),
    decreases forest.len(),
{
    let costs = tree_costs(forest, freq);
    if forest.len() == 1 {
        assert(costs.drop_last() =~= Seq::<int>::empty());
        assert(sum(costs.drop_last()) == 0);
    } else {
        let a = huffman::least(forest);
        let rest = forest.remove(a);
        let c = huffman::least(rest);
        let b = huffman::second(forest);
        huffman::lemma_step(forest, id);
        huffman::lemma_step_ok(forest, freq, id, floor);
        huffman::lemma_least_bound(rest);
        let next = huffman::merge_step(forest, id);
        assert(rest[c] == forest[b]);
        lemma_sum_remove(costs, a);
        lemma_sum_remove(costs.remove(a), c);
        let new = tree_cost(next.last().tree, freq);
        lemma_sum_push(costs.remove(a).remove(c), new);
        assert(tree_costs(next, freq) =~= costs.remove(a).remove(c).push(new));
        assert(forest[a].weight == forest[a].tree.weight(freq));
        assert(forest[b].weight == forest[b].tree.weight(freq));
        lemma_merged_cost(next, freq, (id + 1) as usize, forest[b].weight as nat);
    }
}

/// The frequencies of the symbols in a tree, 0 for the others.
spec fn tree_weights(tree: HuffTree, freq: Seq<u32>) -> Seq<int> {
    Seq::new(
        freq.len(),
        |s: int|
            if tree.has(s) {
                freq[s] as int
            } else {
                0
            },
    )
}

/// What the symbols in a tree cost, 0 for the others.
spec fn tree_depths(tree: HuffTree, freq: Seq<u32>) -> Seq<int> {
    Seq::new(
        freq.len(),
        |s: int|
            if tree.has(s) {
                freq[s] * tree.depth_of(s)
            } else {
                0
            },
    )
}

proof fn lemma_one_symbol(s: Seq<int>, k: int)
    requires
        0 <= k < s.len(),
        forall|i: int| 0 <= i < s.len() && i != k ==> #[trigger] s[i] == 0,
    ensures
        sum(s) == s[k],
{
    lemma_sum_remove(s, k);
    let rest = s.remove(k);
    assert forall|i: int| 0 <= i < rest.len() implies #[trigger] rest[i] == 0 by {
        if i < k {
            assert(s[i] == 0);
        } else {
            assert(s[i + 1] == 0);
        }
    }
    lemma_sum_zero(rest);
}

proof fn lemma_tree_sums(tree: HuffTree, freq: Seq<u32>)
    requires
        tree.distinct(),
        forall|s: int| #[trigger] tree.has(s) ==> 0 <= s < freq.len(),
    ensures
        sum(tree_weights(tree, freq)) == tree.weight(freq),
        sum(tree_depths(tree, freq)) == tree_cost(tree, freq),
    decreases tree,
{
    match tree {
        HuffTree::Leaf(k) => {
            assert(tree.has(k as int));
            let w = tree_weights(tree, freq);
            lemma_one_symbol(w, k as int);
            let t = tree_depths(tree, freq);
            assert forall|i: int| 0 <= i < t.len() implies #[trigger] t[i] == 0 by {
                assert(freq[i] * 0 == 0);
            }
            lemma_sum_zero(t);
        },
        HuffTree::Node(l, r) => {
            assert forall|s: int| #[trigger] l.has(s) implies 0 <= s < freq.len() by {
                assert(tree.has(s));
            }
            assert forall|s: int| #[trigger] r.has(s) implies 0 <= s < freq.len() by {
                assert(tree.has(s));
            }
            lemma_tree_sums(*l, freq);
            lemma_tree_sums(*r, freq);
            let (wl, wr, w) = (
                tree_weights(*l, freq),
                tree_weights(*r, freq),
                tree_weights(tree, freq),
            );
            assert forall|s: int| 0 <= s < w.len() implies #[trigger] w[s] == wl[s] + wr[s] by {
                assert(!(l.has(s) && r.has(s)));
            }
            lemma_sum_add(wl, wr, w);
            let (tl, tr, t) = (
                tree_depths(*l, freq),
                tree_depths(*r, freq),
                tree_depths(tree, freq),
            );
            let both = Seq::new(freq.len(), |s: int| tl[s] + tr[s]);
            lemma_sum_add(tl, tr, both);
            assert forall|s: int| 0 <= s < t.len() implies #[trigger] t[s] == both[s] + w[s] by {
                assert(!(l.has(s) && r.has(s)));
                let f = freq[s] as int;
                if r.has(s) {
                    let e = r.depth_of(s) as int;
                    assert(f * (1 + e) == f * e + f) by (nonlinear_arith);
                } else if l.has(s) {
                    let e = l.depth_of(s) as int;
                    assert(f * (1 + e) == f * e + f) by (nonlinear_arith);
                }
            }
            lemma_sum_add(both, w, t);
        },
    }
}

/// How many bits the symbols take in all, each as often as it occurs.
pub open spec fn coded_bits(freq: Seq<u32>, lens: Seq<nat>) -> int {
    sum(Seq::new(freq.len(), |s: int| freq[s] * lens[s]))
}

/// Codes of the lengths, for the symbols that occur, have room side by side: none
/// is longer than `d`, and together they take no more than `2^d` words of that
/// length. Every prefix code has such lengths.
pub open spec fn are_code_lengths(freq: Seq<u32>, lens: Seq<nat>, d: nat) -> bool {
    &&& lens.len() == freq.len()
    &&& forall|s: int| 0 <= s < lens.len() && freq[s] > 0 ==> #[trigger] lens[s] <= d
    &&& sum(
        Seq::new(
            freq.len(),
            |s: int|
                if freq[s] > 0 {
                    power2::pow2((d - lens[s]) as nat) as int
                } else {
                    0
                },
        ),
    ) <= power2::pow2(d)
}

spec fn leaf_lens(freq: Seq<u32>, lens: Seq<nat>, k: nat) -> Seq<int> {
    Seq::new(
        huffman::leaves(freq, k).len(),
        |i: int| lens[huffman::leaves(freq, k)[i].id as int] as int,
    )
}

proof fn lemma_leaf_sums(freq: Seq<u32>, lens: Seq<nat>, d: nat, k: nat)
    requires
        k <= freq.len() <= huffman::MAX_SYMBOLS,
        lens.len() == freq.len(),
        forall|s: int| 0 <= s < lens.len() && freq[s] > 0 ==> #[trigger] lens[s] <= d,
    ensures
        cost(weights_of(huffman::leaves(freq, k)), leaf_lens(freq, lens, k)) == sum(
            Seq::new(k, |s: int| freq[s] * lens[s]),
        ),
        room(leaf_lens(freq, lens, k), d) == sum(
            Seq::new(
                k,
                |s: int|
                    if freq[s] > 0 {
                        power2::pow2((d - lens[s]) as nat) as int
                    } else {
                        0
                    },
            ),
        ),
        forall|i: int|
            0 <= i < leaf_lens(freq, lens, k).len() ==> 0 <= #[trigger] leaf_lens(freq, lens, k)[i]
                <= d,
    decreases k,
{
    let f = huffman::leaves(freq, k);
    let l = leaf_lens(freq, lens, k);
    let bits = Seq::new(k, |s: int| freq[s] * lens[s]);
    let rooms = Seq::new(
        k,
        |s: int|
            if freq[s] > 0 {
                power2::pow2((d - lens[s]) as nat) as int
            } else {
                0
            },
    );
    if k > 0 {
        let j = (k - 1) as nat;
        lemma_leaf_sums(freq, lens, d, j);
        let g = huffman::leaves(freq, j);
        let lg = leaf_lens(freq, lens, j);
        let bits_j = Seq::new(j, |s: int| freq[s] * lens[s]);
        let rooms_j = Seq::new(
            j,
            |s: int|
                if freq[s] > 0 {
                    power2::pow2((d - lens[s]) as nat) as int
                } else {
                    0
                },
        );
        assert(bits.drop_last() =~= bits_j);
        assert(rooms.drop_last() =~= rooms_j);
        let s = j as int;
        if freq[s] > 0 {
            assert(l =~= lg.push(lens[s] as int));
            assert(weights_of(f) =~= weights_of(g).push(freq[s] as int));
            lemma_push(weights_of(g), lg, d, freq[s] as int, lens[s] as int);
            assert(lens[s] <= d);
        } else {
            assert(l =~= lg);
            assert(freq[s] * lens[s] == 0) by (nonlinear_arith)
                requires
                    freq[s] == 0,
            ;
        }
    } else {
        assert(Seq::new(0, |i: int| weights_of(f)[i] * l[i]) =~= Seq::<int>::empty());
    }
}

proof fn lemma_sum_order(x: Seq<int>, y: Seq<int>)
    requires
        x.len() == y.len(),
        forall|i: int| 0 <= i < x.len() ==> #[trigger] x[i] <= y[i],
    ensures
        sum(x) <= sum(y),
    decreases x.len(),
{
    if x.len() > 0 {
        let n = x.len() - 1;
        assert forall|i: int| 0 <= i < n implies #[trigger] x.drop_last()[i]
            <= y.drop_last()[i] by {
            assert(x[i] <= y[i]);
        }
        lemma_sum_order(x.drop_last(), y.drop_last());
        assert(x[n] <= y[n]);
    }
}

/// The lengths as numbers.
pub open spec fn as_nats(lens: Seq<u8>) -> Seq<nat> {
    Seq::new(lens.len(), |s: int| lens[s] as nat)
}

/// No lengths that have room side by side and give each symbol that occurs a bit
/// at least take fewer bits than those of the Huffman tree.
pub proof fn lemma_shortest(freq: Seq<u32>, max_bits: u32, other: Seq<nat>, d: nat)
    requires
        freq.len() <= huffman::MAX_SYMBOLS,
        huffman::code_lengths(freq, max_bits) is Some,
        are_code_lengths(freq, other, d),
    ensures
        huffman::used_count(freq, freq.len()) >= 2 || (forall|s: int|
            0 <= s < freq.len() && freq[s] > 0 ==> #[trigger] other[s] >= 1) ==> coded_bits(
            freq,
            as_nats(huffman::code_lengths(freq, max_bits)->0),
        ) <= coded_bits(freq, other),
{
    let n = freq.len();
    let lens = huffman::code_lengths(freq, max_bits)->0;
    let own = as_nats(lens);
    let bits = Seq::new(n, |s: int| freq[s] * own[s]);
    if huffman::used_count(freq, n) >= 2 {
        huffman::lemma_huffman_tree(freq);
        huffman::lemma_leaves(freq, n);
        let forest = huffman::leaves(freq, n);
        let tree = huffman::huffman_tree(freq);
        assert(n * u32::MAX <= 0x4000_0000 * u32::MAX) by (nonlinear_arith)
            requires
                n <= 0x4000_0000,
        ;
        lemma_leaf_sums(freq, other, d, n);
        let others = leaf_lens(freq, other, n);
        lemma_merging_is_cheapest(forest, freq, n as usize, 0, others, d);
        lemma_merged_cost(forest, freq, n as usize, 0);
        let costs = tree_costs(forest, freq);
        assert forall|i: int| 0 <= i < costs.len() implies #[trigger] costs[i] == 0 by {
            assert(forest[i].tree == HuffTree::Leaf(forest[i].id));
        }
        lemma_sum_zero(costs);
        lemma_tree_sums(tree, freq);
        assert forall|s: int| 0 <= s < n implies #[trigger] bits[s] == tree_depths(
            tree,
            freq,
        )[s] by {
            assert(tree.has(s) == (freq[s] > 0));
            assert(tree.depth_of(s) <= tree.height());
            assert(lens[s] == huffman::huffman_lengths(freq)[s]);
            if freq[s] == 0 {
                assert(freq[s] * own[s] == 0) by (nonlinear_arith)
                    requires
                        freq[s] == 0,
                ;
            }
        }
        assert(bits =~= tree_depths(tree, freq));
    } else if forall|s: int| 0 <= s < freq.len() && freq[s] > 0 ==> #[trigger] other[s] >= 1 {
        let theirs = Seq::new(n, |s: int| freq[s] * other[s]);
        assert forall|s: int| 0 <= s < n implies #[trigger] bits[s] <= theirs[s] by {
            let (f, o) = (freq[s] as int, other[s] as int);
            if f > 0 {
                assert(other[s] >= 1);
                assert(own[s] == 1);
                assert(f * 1 <= f * o) by (nonlinear_arith)
                    requires
                        f > 0,
                        o >= 1,
                ;
            } else {
                let w = own[s] as int;
                assert(f * w == 0 && f * o == 0) by (nonlinear_arith)
                    requires
                        f == 0,
                ;
            }
        }
        lemma_sum_order(bits, theirs);
    }
}

/// No code is shorter: whatever lengths other codes have, as long as they have
/// room side by side, the symbols take no fewer bits with them than with the
/// lengths that are built, each as often as it occurs.
pub proof fn law_no_code_is_shorter(
    freq: &[u32],
    max_bits: u32,
    r: Option<Vec<u8>>,
    other: Seq<nat>,
    d: nat,
    x: int,
    y: int,
)
    requires
        freq@.len() <= huffman::MAX_SYMBOLS,
        call_ensures(huffman::try_build_code_lengths, (freq, max_bits), r),
        0 <= x < y < freq@.len(),
        freq@[x] > 0,
        freq@[y] > 0,
        are_code_lengths(freq@, other, d),
    ensures
        r matches Some(lens) ==> lens@.len() == freq@.len() && coded_bits(
            freq@,
            Seq::new(lens@.len(), |s: int| lens@[s] as nat),
        ) <= coded_bits(freq@, other),
{
    if let Some(lens) = r {
        huffman::lemma_two_used(freq@, freq@.len(), x, y);
        lemma_shortest(freq@, max_bits, other, d);
        assert(as_nats(lens@) =~= Seq::new(lens@.len(), |s: int| lens@[s] as nat));
    }
}

/// A limit on the length decides only whether there is a code, not which: with
/// room for any tree there is one, and under a limit it is the same code if that
/// keeps to the limit, and none if it does not.
pub proof fn law_the_limit_only_refuses(
    freq: &[u32],
    max_bits: u32,
    ample: u32,
    limited: Option<Vec<u8>>,
    free: Option<Vec<u8>>,
)
    requires
        freq@.len() <= huffman::MAX_SYMBOLS,
        1 <= max_bits,
        127 <= ample,
        call_ensures(huffman::try_build_code_lengths, (freq, max_bits), limited),
        call_ensures(huffman::try_build_code_lengths, (freq, ample), free),
    ensures
        free is Some,
        limited is Some <==> forall|s: int|
            0 <= s < freq@.len() ==> #[trigger] (free->0)@[s] <= max_bits,
        limited is Some ==> (limited->0)@ == (free->0)@,
{
    let f = freq@;
    let n = f.len();
    if huffman::used_count(f, n) >= 2 {
        huffman::lemma_huffman_tree(f);
        let tree = huffman::huffman_tree(f);
        assert forall|s: int| 0 <= s < n implies #[trigger] huffman::huffman_lengths(f)[s]
            <= 127 by {
            assert(tree.depth_of(s) <= tree.height());
        }
        if limited is None {
            let s = choose|s: int|
                0 <= s < n && #[trigger] huffman::huffman_lengths(f)[s] > max_bits;
            assert((free->0)@[s] > max_bits);
        } else {
            assert forall|s: int| 0 <= s < n implies #[trigger] (free->0)@[s] <= max_bits by {
                assert(huffman::huffman_lengths(f)[s] <= max_bits);
            }
        }
    }
}

/// Without symbols that occur there is no code, and a single one has one bit.
pub proof fn law_a_single_symbol_has_one_bit(
    freq: &[u32],
    max_bits: u32,
    r: Option<Vec<u8>>,
    x: int,
)
    requires
        freq@.len() <= huffman::MAX_SYMBOLS,
        call_ensures(huffman::try_build_code_lengths, (freq, max_bits), r),
        forall|s: int| 0 <= s < freq@.len() && s != x ==> #[trigger] freq@[s] == 0,
    ensures
        r matches Some(lens) && lens@.len() == freq@.len(),
        r matches Some(lens) ==> forall|s: int|
            0 <= s < freq@.len() ==> #[trigger] lens@[s] == (if freq@[s] > 0 {
                1u8
            } else {
                0u8
            }),
{
    lemma_few_used(freq@, freq@.len(), x);
}

proof fn lemma_few_used(freq: Seq<u32>, k: nat, x: int)
    requires
        k <= freq.len(),
        forall|s: int| 0 <= s < freq.len() && s != x ==> #[trigger] freq[s] == 0,
    ensures
        huffman::used_count(freq, k) <= 1,
        x >= k ==> huffman::used_count(freq, k) == 0,
    decreases k,
{
    if k > 0 {
        lemma_few_used(freq, (k - 1) as nat, x);
        let j = k - 1;
        if j != x {
            assert(freq[j] == 0);
        }
    }
}

} // verus!
