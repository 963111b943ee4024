//! Huffman code lengths from symbol frequencies.
use vstd::arithmetic::power2;
use vstd::prelude::*;

verus! {

/// The largest alphabet that code lengths are built for: two node ids per
/// symbol still fit a signed 32-bit integer.
pub const MAX_SYMBOLS: usize = 0x4000_0000;

/// A binary tree with symbols at its leaves.
pub enum HuffTree {
    Leaf(usize),
    Node(Box<HuffTree>, Box<HuffTree>),
}

impl HuffTree {
    /// Whether `sym` stands at a leaf.
    pub open spec fn has(self, sym: int) -> bool
        decreases self,
    {
        match self {
            HuffTree::Leaf(s) => s == sym,
            HuffTree::Node(l, r) => l.has(sym) || r.has(sym),
        }
    }

    /// How far below the root the leaf of `sym` stands.
    pub open spec fn depth_of(self, sym: int) -> nat
        decreases self,
    {
        match self {
            HuffTree::Leaf(s) => 0,
            HuffTree::Node(l, r) => 1 + (if r.has(sym) {
                r.depth_of(sym)
            } else {
                l.depth_of(sym)
            }),
        }
    }

    /// The depth of the deepest leaf.
    pub open spec fn height(self) -> nat
        decreases self,
    {
        match self {
            HuffTree::Leaf(s) => 0,
            HuffTree::Node(l, r) => 1 + (if l.height() > r.height() {
                l.height()
            } else {
                r.height()
            }),
        }
    }

    /// The sum of the frequencies of the symbols at the leaves.
    pub open spec fn weight(self, freq: Seq<u32>) -> nat
        decreases self,
    {
        match self {
            HuffTree::Leaf(s) => freq[s as int] as nat,
            HuffTree::Node(l, r) => l.weight(freq) + r.weight(freq),
        }
    }

    /// No symbol stands at two leaves.
    pub open spec fn distinct(self) -> bool
        decreases self,
    {
        match self {
            HuffTree::Leaf(s) => true,
            HuffTree::Node(l, r) => {
                &&& l.distinct()
                &&& r.distinct()
                &&& forall|s: int| !(#[trigger] l.has(s) && r.has(s))
            },
        }
    }

    /// The weight of the heavier subtree below the root, 0 at a leaf.
    pub open spec fn child_weight(self, freq: Seq<u32>) -> nat {
        match self {
            HuffTree::Leaf(s) => 0,
            HuffTree::Node(l, r) => if l.weight(freq) > r.weight(freq) {
                l.weight(freq)
            } else {
                r.weight(freq)
            },
        }
    }

    /// Each node weighs at least as much as the children of its sibling.
    pub open spec fn balanced(self, freq: Seq<u32>) -> bool
        decreases self,
    {
        match self {
            HuffTree::Leaf(s) => freq[s as int] > 0,
            HuffTree::Node(l, r) => {
                &&& l.balanced(freq)
                &&& r.balanced(freq)
                &&& l.child_weight(freq) <= r.weight(freq)
                &&& r.child_weight(freq) <= l.weight(freq)
            },
        }
    }
}

/// A tree that waits to be merged. Leaves have their symbol for an id, merged
/// trees an id of their own, in the order in which they came to be.
pub struct HeapNode {
    pub weight: u64,
    pub id: usize,
    pub tree: HuffTree,
}

/// Lighter trees go first, and among equals the one with the lower id.
pub open spec fn before(x: HeapNode, y: HeapNode) -> bool {
    x.weight < y.weight || (x.weight == y.weight && x.id < y.id)
}

/// The position of the tree that goes first.
pub open spec fn least(forest: Seq<HeapNode>) -> int
    decreases forest.len(),
{
    if forest.len() <= 1 {
        0
    } else {
        let k = least(forest.drop_last());
        if before(forest.last(), forest[k]) {
            forest.len() - 1
        } else {
            k
        }
    }
}

/// Two trees under a new root.
pub open spec fn merged(x: HeapNode, y: HeapNode, id: usize) -> HeapNode {
    HeapNode {
        weight: (x.weight + y.weight) as u64,
        id,
        tree: HuffTree::Node(Box::new(x.tree), Box::new(y.tree)),
    }
}

/// The forest after its two first trees were merged.
pub open spec fn merge_step(forest: Seq<HeapNode>, id: usize) -> Seq<HeapNode> {
    let a = least(forest);
    let rest = forest.remove(a);
    let b = least(rest);
    rest.remove(b).push(merged(forest[a], rest[b], id))
}

/// The tree that is left when no two trees remain to be merged.
pub open spec fn merge_all(forest: Seq<HeapNode>, id: usize) -> HuffTree
    decreases forest.len(),
{
    if forest.len() <= 1 {
        forest[0].tree
    } else {
        proof {
            lemma_least_bound(forest);
            lemma_least_bound(forest.remove(least(forest)));
        }
        merge_all(merge_step(forest, id), (id + 1) as usize)
    }
}

/// One leaf per symbol among the first `k` that occurs, in order of the symbols.
pub open spec fn leaves(freq: Seq<u32>, k: nat) -> Seq<HeapNode>
    decreases k,
{
    if k == 0 {
        Seq::empty()
    } else if freq[k - 1] > 0 {
        leaves(freq, (k - 1) as nat).push(
            HeapNode {
                weight: freq[k - 1] as u64,
                id: (k - 1) as usize,
                tree: HuffTree::Leaf((k - 1) as usize),
            },
        )
    } else {
        leaves(freq, (k - 1) as nat)
    }
}

/// The Huffman tree of the symbols that occur.
pub open spec fn huffman_tree(freq: Seq<u32>) -> HuffTree {
    merge_all(leaves(freq, freq.len()), freq.len() as usize)
}

pub proof fn lemma_least_bound(forest: Seq<HeapNode>)
    requires
        forest.len() > 0,
    ensures
        0 <= least(forest) < forest.len(),
    decreases forest.len(),
{
    if forest.len() > 1 {
        lemma_least_bound(forest.drop_last());
    }
}

pub proof fn lemma_least_first(forest: Seq<HeapNode>)
    requires
        forest.len() > 0,
    ensures
        0 <= least(forest) < forest.len(),
        forall|i: int| 0 <= i < forest.len() ==> !before(#[trigger] forest[i], forest[least(forest)]),
    decreases forest.len(),
{
    if forest.len() > 1 {
        let init = forest.drop_last();
        lemma_least_first(init);
        assert forall|i: int| 0 <= i < forest.len() implies !before(
            #[trigger] forest[i],
            forest[least(forest)],
        ) by {
            if i < init.len() {
                assert(forest[i] == init[i]);
                assert(!before(init[i], init[least(init)]));
            }
        }
    }
}

/// Finds the tree that goes first.
fn find_least(forest: &Vec<HeapNode>) -> (r: usize)
    requires
        forest@.len() > 0,
    ensures
        r == least(forest@),
        r < forest@.len(),
{
    let mut k: usize = 0;
    let mut i: usize = 1;
    assert(forest@.take(1).len() == 1);
    while i < forest.len()
        invariant
            1 <= i <= forest@.len(),
            k == least(forest@.take(i as int)),
            k < i,
        decreases forest@.len() - i,
    {
        proof {
            assert(forest@.take(i + 1).drop_last() =~= forest@.take(i as int));
            assert(forest@.take(i + 1).last() == forest@[i as int]);
            assert(forest@.take(i + 1)[k as int] == forest@[k as int]);
        }
        if forest[i].weight < forest[k].weight || (forest[i].weight == forest[k].weight
            && forest[i].id < forest[k].id) {
            k = i;
        }
        i = i + 1;
    }
    assert(forest@.take(forest@.len() as int) =~= forest@);
    k
}

/// Where the tree at position `i` of the merged forest stood before the merge.
pub open spec fn step_source(forest: Seq<HeapNode>, i: int) -> int {
    let a = least(forest);
    let b = least(forest.remove(a));
    let j = if i < b {
        i
    } else {
        i + 1
    };
    if j < a {
        j
    } else {
        j + 1
    }
}

/// Where the tree at position `k`, none of the two merged, stands afterwards.
pub open spec fn step_target(forest: Seq<HeapNode>, k: int) -> int {
    let a = least(forest);
    let b = least(forest.remove(a));
    let j = if k < a {
        k
    } else {
        k - 1
    };
    if j < b {
        j
    } else {
        j - 1
    }
}

/// Where the second tree to be merged stands.
pub open spec fn second(forest: Seq<HeapNode>) -> int {
    let a = least(forest);
    let b = least(forest.remove(a));
    if b < a {
        b
    } else {
        b + 1
    }
}

pub proof fn lemma_step(forest: Seq<HeapNode>, id: usize)
    requires
        forest.len() >= 2,
    ensures
        ({
            let a = least(forest);
            let b = second(forest);
            let next = merge_step(forest, id);
            &&& 0 <= a < forest.len()
            &&& 0 <= b < forest.len()
            &&& a != b
            &&& next.len() == forest.len() - 1
            &&& next.last() == merged(forest[a], forest[b], id)
            &&& forall|i: int|
                0 <= i < forest.len() - 2 ==> {
                    let k = #[trigger] step_source(forest, i);
                    0 <= k < forest.len() && k != a && k != b && next[i] == forest[k]
                }
            &&& forall|i: int, j: int|
                0 <= i < j < forest.len() - 2 ==> #[trigger] step_source(forest, i)
                    != #[trigger] step_source(forest, j)
            &&& forall|k: int|
                0 <= k < forest.len() && k != a && k != b ==> {
                    let i = #[trigger] step_target(forest, k);
                    0 <= i < forest.len() - 2 && next[i] == forest[k]
                }
            &&& forall|k: int|
                0 <= k < forest.len() && k != a ==> !before(#[trigger] forest[k], forest[b])
            &&& forall|k: int|
                0 <= k < forest.len() ==> !before(#[trigger] forest[k], forest[a])
        }),
{
    let a = least(forest);
    let rest = forest.remove(a);
    lemma_least_first(forest);
    lemma_least_first(rest);
    let c = least(rest);
    let b = second(forest);
    let next = merge_step(forest, id);
    assert(rest[c] == forest[b]);
    assert(next.len() == forest.len() - 1);
    assert(next.last() == merged(forest[a], forest[b], id));
    assert forall|i: int| 0 <= i < forest.len() - 2 implies {
        let k = #[trigger] step_source(forest, i);
        0 <= k < forest.len() && k != a && k != b && next[i] == forest[k]
    } by {
        let j = if i < c {
            i
        } else {
            i + 1
        };
        assert(rest.remove(c)[i] == rest[j]);
        assert(next[i] == rest.remove(c)[i]);
    }
    assert forall|k: int| 0 <= k < forest.len() && k != a && k != b implies {
        let i = #[trigger] step_target(forest, k);
        0 <= i < forest.len() - 2 && next[i] == forest[k]
    } by {
        assert(step_source(forest, step_target(forest, k)) == k);
    }
    assert forall|k: int| 0 <= k < forest.len() && k != a implies !before(
        #[trigger] forest[k],
        forest[b],
    ) by {
        let j = if k < a {
            k
        } else {
            k - 1
        };
        assert(rest[j] == forest[k]);
    }
}

/// The sum of the weights of the trees.
pub open spec fn total(forest: Seq<HeapNode>) -> nat
    decreases forest.len(),
{
    if forest.len() == 0 {
        0
    } else {
        total(forest.drop_last()) + forest.last().weight as nat
    }
}

proof fn lemma_total_remove(forest: Seq<HeapNode>, i: int)
    requires
        0 <= i < forest.len(),
    ensures
        total(forest.remove(i)) + forest[i].weight == total(forest),
    decreases forest.len(),
{
    if i == forest.len() - 1 {
        assert(forest.remove(i) =~= forest.drop_last());
    } else {
        lemma_total_remove(forest.drop_last(), i);
        assert(forest.remove(i).drop_last() =~= forest.drop_last().remove(i));
        assert(forest.remove(i).last() == forest.last());
    }
}

/// What holds of the forest while trees are merged: ids are below `id`, no two
/// trees share an id or a symbol, and weights are those of the trees. No tree
/// is lighter than `floor`, and no child of a root heavier.
pub open spec fn forest_ok(forest: Seq<HeapNode>, freq: Seq<u32>, id: usize, floor: nat) -> bool {
    &&& forall|i: int| 0 <= i < forest.len() ==> (#[trigger] forest[i]).id < id
    &&& forall|i: int, j: int|
        0 <= i < j < forest.len() ==> (#[trigger] forest[i]).id != (#[trigger] forest[j]).id
    &&& forall|i: int|
        0 <= i < forest.len() ==> {
            &&& (#[trigger] forest[i]).tree.distinct()
            &&& forest[i].tree.balanced(freq)
            &&& forest[i].weight == forest[i].tree.weight(freq)
            &&& forest[i].tree.child_weight(freq) <= floor
            &&& floor <= forest[i].weight
        }
    &&& forall|i: int, j: int, s: int|
        0 <= i < forest.len() && 0 <= j < forest.len() && i != j
            && #[trigger] forest[i].tree.has(s) ==> !(#[trigger] forest[j].tree.has(s))
}

/// Some tree has `sym` at a leaf.
pub open spec fn covers(forest: Seq<HeapNode>, sym: int) -> bool {
    exists|i: int| 0 <= i < forest.len() && #[trigger] forest[i].tree.has(sym)
}

pub proof fn lemma_step_ok(forest: Seq<HeapNode>, freq: Seq<u32>, id: usize, floor: nat)
    requires
        forest.len() >= 2,
        forest_ok(forest, freq, id, floor),
        id < usize::MAX,
        total(forest) <= u64::MAX,
    ensures
        forest_ok(
            merge_step(forest, id),
            freq,
            (id + 1) as usize,
            forest[second(forest)].weight as nat,
        ),
        total(merge_step(forest, id)) == total(forest),
        forest[least(forest)].weight + forest[second(forest)].weight <= total(forest),
        forall|s: int| #[trigger] covers(merge_step(forest, id), s) == covers(forest, s),
{
    let a = least(forest);
    let b = second(forest);
    let next = merge_step(forest, id);
    lemma_step(forest, id);
    let rest = forest.remove(a);
    let c = least(rest);
    lemma_least_bound(rest);
    lemma_total_remove(forest, a);
    lemma_total_remove(rest, c);
    assert(rest[c] == forest[b]);
    assert(next.drop_last() =~= rest.remove(c));
    let m = next.len() - 1;
    let w = forest[b].weight as nat;
    let new = next[m];
    assert(new == merged(forest[a], forest[b], id));
    assert forall|s: int| new.tree.has(s) == (forest[a].tree.has(s) || forest[b].tree.has(s)) by {}
    assert forall|i: int| 0 <= i < next.len() implies (#[trigger] next[i]).id < id + 1 by {
        if i < m {
            let k = step_source(forest, i);
            assert(next[i] == forest[k]);
        }
    }
    assert forall|i: int, j: int| 0 <= i < j < next.len() implies (#[trigger] next[i]).id != (
    #[trigger] next[j]).id by {
        let k = step_source(forest, i);
        assert(next[i] == forest[k]);
        if j < m {
            let l = step_source(forest, j);
            assert(next[j] == forest[l]);
            assert(k != l);
            if k < l {
            } else {
                assert(forest[l].id != forest[k].id);
            }
        }
    }
    assert(!before(forest[b], forest[a]));
    assert forall|i: int| 0 <= i < next.len() implies {
        &&& (#[trigger] next[i]).tree.distinct()
        &&& next[i].tree.balanced(freq)
        &&& next[i].weight == next[i].tree.weight(freq)
        &&& next[i].tree.child_weight(freq) <= w
        &&& w <= next[i].weight
    } by {
        if i < m {
            let k = step_source(forest, i);
            assert(next[i] == forest[k]);
            assert(!before(forest[k], forest[b]));
        } else {
            assert(forest[a].tree.distinct() && forest[b].tree.distinct());
        }
    }
    assert forall|i: int, j: int, s: int|
        0 <= i < next.len() && 0 <= j < next.len() && i != j
            && #[trigger] next[i].tree.has(s) implies !(#[trigger] next[j].tree.has(s)) by {
        if i < m {
            let k = step_source(forest, i);
            assert(next[i] == forest[k]);
            assert(forest[k].tree.has(s));
            if j < m {
                let l = step_source(forest, j);
                assert(next[j] == forest[l]);
                assert(k != l);
                assert(!forest[l].tree.has(s));
            } else {
                assert(!forest[a].tree.has(s));
                assert(!forest[b].tree.has(s));
            }
        } else {
            let l = step_source(forest, j);
            assert(next[j] == forest[l]);
            assert(forest[a].tree.has(s) || forest[b].tree.has(s));
        }
    }
    assert forall|s: int| #[trigger] covers(next, s) == covers(forest, s) by {
        if covers(forest, s) {
            let k = choose|i: int| 0 <= i < forest.len() && #[trigger] forest[i].tree.has(s);
            if k == a || k == b {
                assert(next[m].tree.has(s));
            } else {
                assert(next[step_target(forest, k)].tree.has(s));
            }
        }
        if covers(next, s) {
            let i = choose|i: int| 0 <= i < next.len() && #[trigger] next[i].tree.has(s);
            if i < m {
                assert(forest[step_source(forest, i)].tree.has(s));
            } else {
                assert(forest[a].tree.has(s) || forest[b].tree.has(s));
            }
        }
    }
}

/// How many of the first `k` symbols occur.
pub open spec fn used_count(freq: Seq<u32>, k: nat) -> nat
    decreases k,
{
    if k == 0 {
        0
    } else {
        used_count(freq, (k - 1) as nat) + (if freq[k - 1] > 0 {
            1nat
        } else {
            0nat
        })
    }
}

/// The depth of each symbol that occurs, 0 for the others.
pub open spec fn huffman_lengths(freq: Seq<u32>) -> Seq<u8> {
    Seq::new(
        freq.len(),
        |s: int|
            if freq[s] > 0 {
                huffman_tree(freq).depth_of(s) as u8
            } else {
                0
            },
    )
}

/// The code lengths for the symbols that occur: none without symbols, one bit
/// for a single one, else the depths in the Huffman tree, if none of them is
/// above `max_bits`.
pub open spec fn code_lengths(freq: Seq<u32>, max_bits: u32) -> Option<Seq<u8>> {
    let n = freq.len();
    if used_count(freq, n) <= 1 {
        Some(
            Seq::new(
                n,
                |s: int|
                    if freq[s] > 0 {
                        1u8
                    } else {
                        0u8
                    },
            ),
        )
    } else if exists|s: int| 0 <= s < n && #[trigger] huffman_lengths(freq)[s] > max_bits {
        None
    } else {
        Some(huffman_lengths(freq))
    }
}

pub proof fn lemma_leaves(freq: Seq<u32>, k: nat)
    requires
        k <= freq.len() <= MAX_SYMBOLS,
    ensures
        leaves(freq, k).len() == used_count(freq, k),
        used_count(freq, k) <= k,
        forest_ok(leaves(freq, k), freq, k as usize, 0),
        total(leaves(freq, k)) <= k * u32::MAX,
        forall|s: int| #[trigger] covers(leaves(freq, k), s) == (0 <= s < k && freq[s] > 0),
        forall|i: int|
            0 <= i < leaves(freq, k).len() ==> (#[trigger] leaves(freq, k)[i]).tree
                == HuffTree::Leaf(leaves(freq, k)[i].id),
    decreases k,
{
    let f = leaves(freq, k);
    if k > 0 {
        let j = (k - 1) as nat;
        let g = leaves(freq, j);
        lemma_leaves(freq, j);
        assert(k * u32::MAX == j * u32::MAX + u32::MAX) by (nonlinear_arith)
            requires
                k == j + 1,
        ;
        if freq[j as int] > 0 {
            assert(f.drop_last() =~= g);
            let m = g.len() as int;
            assert(f[m].tree == HuffTree::Leaf(j as usize));
            assert forall|i: int, t: int, s: int|
                0 <= i < f.len() && 0 <= t < f.len() && i != t
                    && #[trigger] f[i].tree.has(s) implies !(#[trigger] f[t].tree.has(s)) by {
                if i < m {
                    assert(f[i] == g[i]);
                    assert(g[i].tree.has(s));
                    assert(covers(g, s));
                    if t < m {
                        assert(f[t] == g[t]);
                        assert(!g[t].tree.has(s));
                    }
                } else {
                    assert(f[t] == g[t]);
                    assert(!covers(g, s));
                    assert(!g[t].tree.has(s));
                }
            }
            assert forall|s: int| #[trigger] covers(f, s) == (0 <= s < k && freq[s] > 0) by {
                if covers(f, s) {
                    let i = choose|i: int| 0 <= i < f.len() && #[trigger] f[i].tree.has(s);
                    if i < m {
                        assert(g[i].tree.has(s));
                        assert(covers(g, s));
                    }
                }
                if 0 <= s < k && freq[s] > 0 {
                    if s == j {
                        assert(f[m].tree.has(s));
                    } else {
                        assert(covers(g, s));
                        let i = choose|i: int| 0 <= i < g.len() && #[trigger] g[i].tree.has(s);
                        assert(f[i].tree.has(s));
                    }
                }
            }
            assert forall|i: int, t: int| 0 <= i < t < f.len() implies (#[trigger] f[i]).id != (
            #[trigger] f[t]).id by {
                assert(f[i] == g[i]);
                if t < m {
                    assert(f[t] == g[t]);
                }
            }
            assert forall|i: int| 0 <= i < f.len() implies (#[trigger] f[i]).tree
                == HuffTree::Leaf(f[i].id) by {
                if i < m {
                    assert(f[i] == g[i]);
                }
            }
            assert(forest_ok(f, freq, k as usize, 0));
        } else {
            assert forall|s: int| #[trigger] covers(f, s) == (0 <= s < k && freq[s] > 0) by {
                assert(covers(g, s) == (0 <= s < j && freq[s] > 0));
            }
        }
    } else {
        assert forall|s: int| #[trigger] covers(f, s) == (0 <= s < k && freq[s] > 0) by {}
    }
}

/// The tree that results has exactly the symbols of the forest.
pub proof fn lemma_merge_all(forest: Seq<HeapNode>, freq: Seq<u32>, id: usize, floor: nat)
    requires
        forest.len() >= 1,
        forest_ok(forest, freq, id, floor),
        total(forest) <= u64::MAX,
        id + forest.len() <= usize::MAX,
    ensures
        ({
            let tree = merge_all(forest, id);
            &&& tree.distinct()
            &&& tree.balanced(freq)
            &&& tree.weight(freq) == total(forest)
            &&& forall|s: int| #[trigger] tree.has(s) == covers(forest, s)
            &&& forest.len() >= 2 ==> tree is Node
        }),
    decreases forest.len(),
{
    let tree = merge_all(forest, id);
    if forest.len() == 1 {
        assert(forest[0].tree == tree);
        assert(forest.drop_last().len() == 0);
        assert(total(forest.drop_last()) == 0);
        assert forall|s: int| #[trigger] tree.has(s) == covers(forest, s) by {
            if tree.has(s) {
                assert(forest[0].tree.has(s));
            }
        }
    } else {
        let next = merge_step(forest, id);
        lemma_step(forest, id);
        lemma_step_ok(forest, freq, id, floor);
        lemma_merge_all(next, freq, (id + 1) as usize, forest[second(forest)].weight as nat);
        assert(tree == merge_all(next, (id + 1) as usize));
        if next.len() == 1 {
            assert(tree == next[0].tree);
        }
        assert forall|s: int| #[trigger] tree.has(s) == covers(forest, s) by {
            assert(covers(next, s) == covers(forest, s));
        }
    }
}

proof fn lemma_twice_as_heavy(weight: nat, deep: nat, h: nat)
    requires
        h >= 2,
        deep >= power2::pow2(((h - 2) as nat) / 2),
        weight >= 2 * deep,
    ensures
        weight >= power2::pow2(h / 2),
{
    power2::lemma_pow2_unfold(h / 2);
    assert((h - 2) as nat / 2 == h / 2 - 1);
}

/// The weight doubles at least every second level.
proof fn lemma_height_weight(tree: HuffTree, freq: Seq<u32>)
    requires
        tree.balanced(freq),
    ensures
        tree.weight(freq) >= power2::pow2(tree.height() / 2),
        tree.weight(freq) > 0,
    decreases tree,
{
    assert(power2::pow2(0) == 1) by {
        power2::lemma2_to64();
    }
    if let HuffTree::Node(l, r) = tree {
        assert(l.balanced(freq) && r.balanced(freq));
        lemma_height_weight(*l, freq);
        lemma_height_weight(*r, freq);
        let left = l.height() > r.height();
        let c = if left {
            *l
        } else {
            *r
        };
        let other = if left {
            *r
        } else {
            *l
        };
        assert(tree.height() == 1 + c.height());
        assert(tree.weight(freq) == c.weight(freq) + other.weight(freq));
        assert(c.child_weight(freq) <= other.weight(freq));
        if let HuffTree::Node(x, y) = c {
            assert(c.balanced(freq));
            lemma_height_weight(*x, freq);
            lemma_height_weight(*y, freq);
            let deep = if x.height() > y.height() {
                *x
            } else {
                *y
            };
            assert(c.height() == 1 + deep.height());
            assert(c.weight(freq) >= deep.weight(freq));
            assert(c.child_weight(freq) >= deep.weight(freq));
            lemma_twice_as_heavy(tree.weight(freq), deep.weight(freq), tree.height());
        } else {
            assert(tree.height() == 1);
        }
    }
}

proof fn lemma_depth_height(tree: HuffTree, s: int)
    ensures
        tree.depth_of(s) <= tree.height(),
    decreases tree,
{
    match tree {
        HuffTree::Leaf(_) => {},
        HuffTree::Node(l, r) => {
            lemma_depth_height(*l, s);
            lemma_depth_height(*r, s);
        },
    }
}

/// The Huffman tree has the symbols that occur, each once, and is less than
/// 128 levels high.
pub proof fn lemma_huffman_tree(freq: Seq<u32>)
    requires
        freq.len() <= MAX_SYMBOLS,
        used_count(freq, freq.len()) >= 1,
    ensures
        ({
            let tree = huffman_tree(freq);
            &&& tree.distinct()
            &&& forall|s: int| #[trigger] tree.has(s) == (0 <= s < freq.len() && freq[s] > 0)
            &&& tree.height() < 128
            &&& forall|s: int| #[trigger] tree.depth_of(s) <= tree.height()
            &&& used_count(freq, freq.len()) >= 2 ==> tree is Node
        }),
{
    let n = freq.len();
    let f = leaves(freq, n);
    let tree = huffman_tree(freq);
    lemma_leaves(freq, n);
    assert(n * u32::MAX <= 0x4000_0000 * u32::MAX) by (nonlinear_arith)
        requires
            n <= 0x4000_0000,
    ;
    lemma_merge_all(f, freq, n as usize, 0);
    assert forall|s: int| #[trigger] tree.has(s) == (0 <= s < freq.len() && freq[s] > 0) by {
        assert(covers(f, s) == (0 <= s < n && freq[s] > 0));
    }
    assert forall|s: int| #[trigger] tree.depth_of(s) <= tree.height() by {
        lemma_depth_height(tree, s);
    }
    lemma_height_weight(tree, freq);
    power2::lemma2_to64();
    if tree.height() >= 128 {
        if tree.height() / 2 > 64 {
            power2::lemma_pow2_strictly_increases(64, tree.height() / 2);
        }
    }
}

/// Notes the depth of each leaf in `lens`.
fn walk(tree: &HuffTree, depth: u32, lens: &mut Vec<u8>)
    requires
        depth + tree.height() < 256,
        forall|s: int| #[trigger] tree.has(s) ==> 0 <= s < old(lens)@.len(),
    ensures
        final(lens)@.len() == old(lens)@.len(),
        forall|s: int|
            0 <= s < old(lens)@.len() ==> #[trigger] final(lens)@[s] == (if tree.has(s) {
                if depth + tree.depth_of(s) > 1 {
                    depth + tree.depth_of(s)
                } else {
                    1
                }
            } else {
                old(lens)@[s] as int
            }),
    decreases tree,
{
    match tree {
        HuffTree::Leaf(s) => {
            assert(tree.has(*s as int));
            if depth > 1 {
                lens.set(*s, depth as u8);
            } else {
                lens.set(*s, 1);
            }
        },
        HuffTree::Node(l, r) => {
            let ghost before = lens@;
            assert forall|s: int| #[trigger] l.has(s) implies 0 <= s < lens@.len() by {
                assert(tree.has(s));
            }
            walk(l, depth + 1, lens);
            let ghost middle = lens@;
            assert forall|s: int| #[trigger] r.has(s) implies 0 <= s < lens@.len() by {
                assert(tree.has(s));
            }
            walk(r, depth + 1, lens);
            proof {
                assert forall|s: int| 0 <= s < before.len() implies #[trigger] lens@[s] == (
                if tree.has(s) {
                    if depth + tree.depth_of(s) > 1 {
                        depth + tree.depth_of(s)
                    } else {
                        1
                    }
                } else {
                    before[s] as int
                }) by {
                    assert(middle[s] == middle[s]);
                }
            }
        },
    }
}

/// Depths in the Huffman tree, by merging the two lightest trees until one is left.
fn standard_huffman(freq: &[u32]) -> (r: Vec<u8>)
    requires
        freq@.len() <= MAX_SYMBOLS,
        used_count(freq@, freq@.len()) >= 2,
    ensures
        r@ == huffman_lengths(freq@),
{
    let n: usize = freq.len();
    let mut forest: Vec<HeapNode> = Vec::new();
    let mut i: usize = 0;
    while i < n
        invariant
            i <= n == freq@.len(),
            forest@ == leaves(freq@, i as nat),
        decreases n - i,
    {
        if freq[i] > 0 {
            forest.push(HeapNode { weight: freq[i] as u64, id: i, tree: HuffTree::Leaf(i) });
        }
        i = i + 1;
    }
    let mut next_id: usize = n;
    let ghost mut floor: nat = 0;
    proof {
        lemma_leaves(freq@, n as nat);
        lemma_huffman_tree(freq@);
        assert(n * u32::MAX <= 0x4000_0000 * u32::MAX) by (nonlinear_arith)
            requires
                n <= 0x4000_0000,
        ;
    }
    while forest.len() > 1
        invariant
            forest@.len() >= 1,
            forest_ok(forest@, freq@, next_id, floor),
            total(forest@) <= u64::MAX,
            next_id + forest@.len() <= 0x8000_0000,
            merge_all(forest@, next_id) == huffman_tree(freq@),
        decreases forest@.len(),
    {
        proof {
            lemma_step(forest@, next_id);
            lemma_step_ok(forest@, freq@, next_id, floor);
            floor = forest@[second(forest@)].weight as nat;
        }
        let ghost start = forest@;
        let a = find_least(&forest);
        let first = forest.remove(a);
        let b = find_least(&forest);
        let other = forest.remove(b);
        assert(other == start[second(start)]);
        forest.push(
            HeapNode {
                weight: first.weight + other.weight,
                id: next_id,
                tree: HuffTree::Node(Box::new(first.tree), Box::new(other.tree)),
            },
        );
        assert(forest@ =~= merge_step(start, next_id));
        next_id = next_id + 1;
    }
    let root = forest.remove(0);
    let mut lens: Vec<u8> = vec![0u8; n];
    proof {
        lemma_huffman_tree(freq@);
        assert(root.tree == huffman_tree(freq@));
    }
    walk(&root.tree, 0, &mut lens);
    proof {
        assert forall|s: int| 0 <= s < n implies #[trigger] lens@[s] == huffman_lengths(freq@)[s] by {
            let t = huffman_tree(freq@);
            assert(t.has(s) == (freq@[s] > 0));
            assert(t.depth_of(s) <= t.height());
            match t {
                HuffTree::Leaf(_) => {},
                HuffTree::Node(l, r) => {
                    assert(t.depth_of(s) >= 1);
                },
            }
        }
    }
    lens
}

/// Code lengths for the given symbol frequencies, or `None` if the Huffman
/// tree is higher than `max_bits`.
pub fn try_build_code_lengths(freq: &[u32], max_bits: u32) -> (r: Option<Vec<u8>>)
    requires
        freq@.len() <= MAX_SYMBOLS,
    ensures
        match code_lengths(freq@, max_bits) {
            Some(lens) => r matches Some(v) && v@ == lens,
            None => r is None,
        },
{
    let n: usize = freq.len();
    let mut used: usize = 0;
    let mut ones: Vec<u8> = Vec::with_capacity(n);
    let mut i: usize = 0;
    while i < n
        invariant
            i <= n == freq@.len(),
            used == used_count(freq@, i as nat),
            used <= i,
            ones@.len() == i,
            forall|s: int| 0 <= s < i ==> #[trigger] ones@[s] == (if freq@[s] > 0 {
                1u8
            } else {
                0u8
            }),
        decreases n - i,
    {
        if freq[i] > 0 {
            used = used + 1;
            ones.push(1);
        } else {
            ones.push(0);
        }
        i = i + 1;
    }
    if used <= 1 {
        assert(ones@ =~= code_lengths(freq@, max_bits)->0);
        return Some(ones);
    }
    let lens = standard_huffman(freq);
    let mut j: usize = 0;
    while j < lens.len()
        invariant
            j <= lens@.len() == freq@.len(),
            lens@ == huffman_lengths(freq@),
            used_count(freq@, freq@.len()) > 1,
            forall|s: int| 0 <= s < j ==> #[trigger] huffman_lengths(freq@)[s] <= max_bits,
        decreases lens@.len() - j,
    {
        if lens[j] as u32 > max_bits {
            assert(huffman_lengths(freq@)[j as int] > max_bits);
            return None;
        }
        j = j + 1;
    }
    Some(lens)
}

/// The code lengths for the symbols that occur, or no code at all if the tree is
/// too high.
pub open spec fn built_lengths(freq: Seq<u32>, max_bits: u32) -> Seq<u8> {
    match code_lengths(freq, max_bits) {
        Some(lens) => lens,
        None => Seq::new(freq.len(), |s: int| 0u8),
    }
}

/// Code lengths for the given symbol frequencies, each at most `max_bits`. All
/// are 0 if the Huffman tree is higher than that.
pub fn build_code_lengths(freq: &[u32], max_bits: u32) -> (r: Vec<u8>)
    requires
        freq@.len() <= MAX_SYMBOLS,
    ensures
        r@ == built_lengths(freq@, max_bits),
{
    match try_build_code_lengths(freq, max_bits) {
        Some(lens) => lens,
        None => {
            let zeros: Vec<u8> = vec![0u8; freq.len()];
            assert(zeros@ =~= Seq::new(freq@.len(), |s: int| 0u8));
            zeros
        },
    }
}

/// How far below the final root the tree with id `x` ends up.
spec fn sunk(forest: Seq<HeapNode>, id: usize, x: usize) -> nat
    decreases forest.len(),
{
    if forest.len() <= 1 {
        0
    } else {
        let next = merge_step(forest, id);
        proof {
            lemma_step(forest, id);
        }
        if x == forest[least(forest)].id || x == forest[second(forest)].id {
            1 + sunk(next, (id + 1) as usize, id)
        } else {
            sunk(next, (id + 1) as usize, x)
        }
    }
}

/// Trees that go first sink at least as far, and those that weigh no more than
/// the next two together sink at most one level less than any other.
spec fn sinks_in_order(forest: Seq<HeapNode>, id: usize) -> bool {
    &&& forall|i: int, j: int|
        0 <= i < forest.len() && 0 <= j < forest.len() && #[trigger] before(forest[i], forest[j])
            ==> sunk(forest, id, forest[i].id) >= sunk(forest, id, forest[j].id)
    &&& forest.len() >= 2 ==> forall|k: int, j: int|
        #![trigger forest[k], forest[j]]
        0 <= k < forest.len() && 0 <= j < forest.len() && forest[k].weight <= forest[least(
            forest,
        )].weight + forest[second(forest)].weight ==> sunk(forest, id, forest[j].id) <= sunk(
            forest,
            id,
            forest[k].id,
        ) + 1
}

proof fn lemma_sinks_in_order(forest: Seq<HeapNode>, freq: Seq<u32>, id: usize, floor: nat)
    requires
        forest.len() >= 1,
        forest_ok(forest, freq, id, floor),
        total(forest) <= u64::MAX,
        id + forest.len() <= usize::MAX,
    ensures
        sinks_in_order(forest, id),
    decreases forest.len(),
{
    if forest.len() >= 2 {
        let a = least(forest);
        let b = second(forest);
        let next = merge_step(forest, id);
        let up = (id + 1) as usize;
        let wb = forest[b].weight as nat;
        let m = next.len() - 1;
        lemma_step(forest, id);
        lemma_step_ok(forest, freq, id, floor);
        lemma_sinks_in_order(next, freq, up, wb);
        assert(next[m] == merged(forest[a], forest[b], id));
        let bound = forest[a].weight + forest[b].weight;
        assert(!before(forest[b], forest[a]));
        assert(next[m].weight == bound);
        assert forall|k: int| 0 <= k < forest.len() && k != a && k != b implies {
            let t = #[trigger] step_target(forest, k);
            &&& next[t] == forest[k]
            &&& 0 <= t < m
            &&& sunk(forest, id, forest[k].id) == sunk(next, up, next[t].id)
        } by {
            assert(forest[k].id != forest[a].id) by {
                if k < a {
                } else {
                    assert(forest[a].id != forest[k].id);
                }
            }
            assert(forest[k].id != forest[b].id) by {
                if k < b {
                } else {
                    assert(forest[b].id != forest[k].id);
                }
            }
        }
        let deep = 1 + sunk(next, up, id);
        assert(sunk(forest, id, forest[a].id) == deep);
        assert(sunk(forest, id, forest[b].id) == deep);
        if next.len() >= 2 {
            let a2 = least(next);
            let b2 = second(next);
            lemma_step(next, up);
            assert(next[a2].weight >= wb && next[b2].weight >= wb);
            assert(bound <= next[a2].weight + next[b2].weight);
            assert forall|j: int| 0 <= j < next.len() implies sunk(next, up, (#[trigger] next[j]).id)
                <= deep by {
                assert(next[m].weight <= next[a2].weight + next[b2].weight);
            }
        }
        assert forall|i: int, j: int|
            0 <= i < forest.len() && 0 <= j < forest.len() && #[trigger] before(
                forest[i],
                forest[j],
            ) implies sunk(forest, id, forest[i].id) >= sunk(forest, id, forest[j].id) by {
            if j != a && j != b {
                let tj = step_target(forest, j);
                assert(next[tj] == forest[j]);
                if i != a && i != b {
                    let ti = step_target(forest, i);
                    assert(next[ti] == forest[i]);
                    assert(before(next[ti], next[tj]));
                }
            } else if i != a && i != b {
                assert(!before(forest[i], forest[b]));
                assert(!before(forest[i], forest[a]));
            }
        }
        assert forall|k: int, j: int|
            #![trigger forest[k], forest[j]]
            0 <= k < forest.len() && 0 <= j < forest.len() && forest[k].weight <= bound implies sunk(
            forest,
            id,
            forest[j].id,
        ) <= sunk(forest, id, forest[k].id) + 1 by {
            if k != a && k != b {
                let tk = step_target(forest, k);
                assert(next[tk] == forest[k]);
                if j != a && j != b {
                    let tj = step_target(forest, j);
                    assert(next[tj] == forest[j]);
                    assert(next.len() >= 2);
                    assert(next[tk].weight <= next[least(next)].weight + next[second(next)].weight);
                } else {
                    assert(before(next[tk], next[m]));
                }
            } else if j != a && j != b {
                let tj = step_target(forest, j);
                assert(next[tj] == forest[j]);
                assert(next.len() >= 2);
            }
        }
    }
}

/// A symbol ends up as deep as its tree sinks, below its place in that tree.
proof fn lemma_sunk_depth(
    forest: Seq<HeapNode>,
    freq: Seq<u32>,
    id: usize,
    floor: nat,
    i: int,
    s: int,
)
    requires
        0 <= i < forest.len(),
        forest_ok(forest, freq, id, floor),
        total(forest) <= u64::MAX,
        id + forest.len() <= usize::MAX,
        forest[i].tree.has(s),
    ensures
        merge_all(forest, id).depth_of(s) == sunk(forest, id, forest[i].id)
            + forest[i].tree.depth_of(s),
    decreases forest.len(),
{
    if forest.len() >= 2 {
        let a = least(forest);
        let b = second(forest);
        let next = merge_step(forest, id);
        let up = (id + 1) as usize;
        let m = next.len() - 1;
        lemma_step(forest, id);
        lemma_step_ok(forest, freq, id, floor);
        assert(next[m] == merged(forest[a], forest[b], id));
        if i == a || i == b {
            assert(next[m].tree.has(s));
            lemma_sunk_depth(next, freq, up, forest[b].weight as nat, m, s);
            if i == a {
                assert(!forest[b].tree.has(s));
            }
        } else {
            let t = step_target(forest, i);
            assert(next[t] == forest[i]);
            lemma_sunk_depth(next, freq, up, forest[b].weight as nat, t, s);
            assert(forest[i].id != forest[a].id) by {
                if i < a {
                } else {
                    assert(forest[a].id != forest[i].id);
                }
            }
            assert(forest[i].id != forest[b].id) by {
                if i < b {
                } else {
                    assert(forest[b].id != forest[i].id);
                }
            }
        }
    }
}

/// A symbol that occurs more often never has the longer code, and among
/// symbols that occur equally often the lower one never has the shorter code.
pub proof fn law_frequent_symbols_have_short_codes(
    freq: Seq<u32>,
    max_bits: u32,
    s: int,
    t: int,
)
    requires
        freq.len() <= MAX_SYMBOLS,
        code_lengths(freq, max_bits) is Some,
        0 <= s < freq.len(),
        0 <= t < freq.len(),
        0 < freq[t] < freq[s] || (0 < freq[t] == freq[s] && t < s),
    ensures
        code_lengths(freq, max_bits)->0[s] <= code_lengths(freq, max_bits)->0[t],
{
    let n = freq.len();
    if used_count(freq, n) >= 2 {
        let f = leaves(freq, n);
        let id = n as usize;
        lemma_leaves(freq, n);
        lemma_huffman_tree(freq);
        assert(n * u32::MAX <= 0x4000_0000 * u32::MAX) by (nonlinear_arith)
            requires
                n <= 0x4000_0000,
        ;
        assert(covers(f, s) && covers(f, t));
        let i = choose|i: int| 0 <= i < f.len() && #[trigger] f[i].tree.has(s);
        let j = choose|i: int| 0 <= i < f.len() && #[trigger] f[i].tree.has(t);
        assert(f[i].tree == HuffTree::Leaf(f[i].id));
        assert(f[j].tree == HuffTree::Leaf(f[j].id));
        lemma_sinks_in_order(f, freq, id, 0);
        lemma_sunk_depth(f, freq, id, 0, i, s);
        lemma_sunk_depth(f, freq, id, 0, j, t);
        assert(f[i].weight == freq[s]);
        assert(f[j].weight == freq[t]);
        assert(before(f[j], f[i]));
        let tree = huffman_tree(freq);
        assert(tree.depth_of(s) <= tree.height());
        assert(tree.depth_of(t) <= tree.height());
    } else {
        lemma_two_used(freq, n, s, t);
    }
}

pub proof fn lemma_two_used(freq: Seq<u32>, k: nat, s: int, t: int)
    requires
        0 <= s < k,
        0 <= t < k,
        s != t,
        freq[s] > 0,
        freq[t] > 0,
    ensures
        used_count(freq, k) >= 2,
    decreases k,
{
    let j = (k - 1) as nat;
    if s == j {
        lemma_one_used(freq, j, t);
    } else if t == j {
        lemma_one_used(freq, j, s);
    } else {
        lemma_two_used(freq, j, s, t);
    }
}

pub proof fn lemma_one_used(freq: Seq<u32>, k: nat, s: int)
    requires
        0 <= s < k,
        freq[s] > 0,
    ensures
        used_count(freq, k) >= 1,
    decreases k,
{
    if s < k - 1 {
        lemma_one_used(freq, (k - 1) as nat, s);
    }
}

} // verus!
