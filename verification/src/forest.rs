//! The trees that wait to be joined, and the order in which they are taken.
//!
//! Which tree is taken first is decided by weight and, among equal weights,
//! by rank: a leaf has its symbol as rank, and the tree made by the `k`-th
//! join has rank `256 + k`. No two trees share a rank, so the order leaves
//! nothing open. Of the two trees that are joined, the one that is taken
//! first becomes the left child.

use crate::tree::HuffmanTree;
use vstd::prelude::*;

verus! {

/// A tree that waits to be joined with another, and its rank.
pub struct Ranked {
    pub tree: HuffmanTree,
    pub rank: usize,
}

/// `a` is taken before `b`: it is lighter or, at equal weight, of lower rank.
pub open spec fn precedes(a: Ranked, b: Ranked) -> bool {
    a.tree.total_weight() < b.tree.total_weight() || (a.tree.total_weight()
        == b.tree.total_weight() && a.rank < b.rank)
}

/// The index of the tree of `forest` that is taken first.
pub open spec fn lowest(forest: Seq<Ranked>) -> int
    decreases forest.len(),
{
    if forest.len() <= 1 {
        0
    } else {
        let best = lowest(forest.drop_last());
        if precedes(forest.last(), forest[best]) {
            forest.len() - 1
        } else {
            best
        }
    }
}

/// The two trees joined under a new root, `first` to the left, with the sum
/// of their weights.
pub open spec fn joined(first: Ranked, second: Ranked, rank: usize) -> Ranked {
    Ranked {
        tree: HuffmanTree::Node(
            (first.tree.total_weight() + second.tree.total_weight()) as u64,
            Box::new(first.tree),
            Box::new(second.tree),
        ),
        rank,
    }
}

/// The forest after one join: its two first trees are taken out, and their
/// join is put at the end.
pub open spec fn join_step(forest: Seq<Ranked>, rank: usize) -> Seq<Ranked> {
    let i = lowest(forest);
    let rest = forest.remove(i);
    let j = lowest(rest);
    rest.remove(j).push(joined(forest[i], rest[j], rank))
}

/// The one tree that is left of a forest when joining has come to an end.
pub open spec fn reduced(forest: Seq<Ranked>, rank: usize) -> HuffmanTree
    decreases forest.len(),
    via reduced_decreases
{
    if forest.len() <= 1 {
        forest[0].tree
    } else {
        reduced(join_step(forest, rank), (rank + 1) as usize)
    }
}

#[via_fn]
proof fn reduced_decreases(forest: Seq<Ranked>, rank: usize) {
    if forest.len() > 1 {
        lemma_join_step_len(forest, rank);
    }
}

/// The index of the first tree lies within the forest.
pub proof fn lemma_lowest_within(forest: Seq<Ranked>)
    requires
        forest.len() > 0,
    ensures
        0 <= lowest(forest) < forest.len(),
    decreases forest.len(),
{
    if forest.len() > 1 {
        lemma_lowest_within(forest.drop_last());
    }
}

/// No two trees of the forest have the same rank.
pub open spec fn distinct_ranks(forest: Seq<Ranked>) -> bool {
    forall|i: int, j: int|
        0 <= i < forest.len() && 0 <= j < forest.len() && i != j ==> (#[trigger] forest[i]).rank
            != (#[trigger] forest[j]).rank
}

/// Where no two trees have the same rank, the tree that is taken first is
/// taken before every other tree of the forest, wherever it stands: the
/// order in which the trees stand decides nothing.
pub proof fn law_lowest_is_least(forest: Seq<Ranked>, k: int)
    requires
        distinct_ranks(forest),
        0 <= k < forest.len(),
        k != lowest(forest),
    ensures
        precedes(forest[lowest(forest)], forest[k]),
    decreases forest.len(),
{
    lemma_lowest_within(forest);
    let shorter = forest.drop_last();
    let best = lowest(shorter);
    lemma_lowest_within(shorter);
    assert(distinct_ranks(shorter)) by {
        assert forall|i: int, j: int|
            0 <= i < shorter.len() && 0 <= j < shorter.len() && i != j implies (
        #[trigger] shorter[i]).rank != (#[trigger] shorter[j]).rank by {
            assert(shorter[i] == forest[i] && shorter[j] == forest[j]);
        }
    }
    assert(shorter[best] == forest[best]);
    if k < forest.len() - 1 {
        assert(shorter[k] == forest[k]);
        if k != best {
            law_lowest_is_least(shorter, k);
        }
    }
}

/// A join makes the forest one tree smaller.
pub proof fn lemma_join_step_len(forest: Seq<Ranked>, rank: usize)
    requires
        forest.len() >= 2,
    ensures
        join_step(forest, rank).len() == forest.len() - 1,
{
    lemma_lowest_within(forest);
    lemma_lowest_within(forest.remove(lowest(forest)));
}

/// Every tree of the forest has a rank below `bound`.
pub open spec fn ranks_below(forest: Seq<Ranked>, bound: int) -> bool {
    forall|k: int| 0 <= k < forest.len() ==> (#[trigger] forest[k]).rank < bound
}

/// Taking a tree out of a forest leaves the ranks distinct and below their
/// bound.
pub proof fn lemma_remove_ranks(forest: Seq<Ranked>, i: int, bound: int)
    requires
        0 <= i < forest.len(),
        distinct_ranks(forest),
        ranks_below(forest, bound),
    ensures
        distinct_ranks(forest.remove(i)),
        ranks_below(forest.remove(i), bound),
{
    let rest = forest.remove(i);
    assert forall|a: int| 0 <= a < rest.len() implies #[trigger] rest[a] == forest[if a < i {
        a
    } else {
        a + 1
    }] by {}
    assert forall|a: int, b: int|
        0 <= a < rest.len() && 0 <= b < rest.len() && a != b implies (#[trigger] rest[a]).rank != (
    #[trigger] rest[b]).rank by {
        let from_a = if a < i {
            a
        } else {
            a + 1
        };
        let from_b = if b < i {
            b
        } else {
            b + 1
        };
        assert(rest[a] == forest[from_a] && rest[b] == forest[from_b]);
    }
}

/// A join with a rank that is not below the bound of the others leaves the
/// ranks distinct.
pub proof fn lemma_join_step_ranks(forest: Seq<Ranked>, rank: usize)
    requires
        forest.len() >= 2,
        distinct_ranks(forest),
        ranks_below(forest, rank as int),
    ensures
        distinct_ranks(join_step(forest, rank)),
        ranks_below(join_step(forest, rank), rank + 1),
{
    let i = lowest(forest);
    lemma_lowest_within(forest);
    let rest = forest.remove(i);
    lemma_remove_ranks(forest, i, rank as int);
    let j = lowest(rest);
    lemma_lowest_within(rest);
    let others = rest.remove(j);
    lemma_remove_ranks(rest, j, rank as int);
    let grown = join_step(forest, rank);
    assert forall|a: int| 0 <= a < grown.len() - 1 implies #[trigger] grown[a] == others[a] by {}
    assert forall|a: int, b: int|
        0 <= a < grown.len() && 0 <= b < grown.len() && a != b implies (#[trigger] grown[a]).rank
        != (#[trigger] grown[b]).rank by {
        if a < grown.len() - 1 {
            assert(grown[a] == others[a]);
        }
        if b < grown.len() - 1 {
            assert(grown[b] == others[b]);
        }
    }
}

/// The sum over the trees of a forest of what `measure` gives for each.
pub open spec fn forest_sum(forest: Seq<Ranked>, measure: spec_fn(HuffmanTree) -> nat) -> nat
    decreases forest.len(),
{
    if forest.len() == 0 {
        0
    } else {
        forest_sum(forest.drop_last(), measure) + measure(forest.last().tree)
    }
}

/// What `measure` gives for an inner node is the sum of what it gives for
/// the two children.
pub open spec fn additive(measure: spec_fn(HuffmanTree) -> nat) -> bool {
    forall|w: u64, l: HuffmanTree, r: HuffmanTree| #[trigger]
        measure(HuffmanTree::Node(w, Box::new(l), Box::new(r))) == measure(l) + measure(r)
}

/// The measure that gives the weight of a tree.
pub open spec fn weighing() -> spec_fn(HuffmanTree) -> nat {
    |t: HuffmanTree| t.total_weight()
}

/// The measure that gives the number of leaves of a tree.
pub open spec fn counting() -> spec_fn(HuffmanTree) -> nat {
    |t: HuffmanTree| t.leaf_count()
}

/// The sum of the weights of the trees of a forest.
pub open spec fn forest_weight(forest: Seq<Ranked>) -> nat {
    forest_sum(forest, weighing())
}

/// Taking a tree out of a forest takes its measure off the forest's sum.
pub proof fn lemma_forest_sum_remove(
    forest: Seq<Ranked>,
    measure: spec_fn(HuffmanTree) -> nat,
    i: int,
)
    requires
        0 <= i < forest.len(),
    ensures
        forest_sum(forest.remove(i), measure) + measure(forest[i].tree) == forest_sum(
            forest,
            measure,
        ),
    decreases forest.len(),
{
    if i < forest.len() - 1 {
        lemma_forest_sum_remove(forest.drop_last(), measure, i);
        assert(forest.remove(i).drop_last() =~= forest.drop_last().remove(i));
    }
}

/// A join leaves the sum of an additive measure over the forest as it was.
pub proof fn lemma_join_step_sum(
    forest: Seq<Ranked>,
    rank: usize,
    measure: spec_fn(HuffmanTree) -> nat,
)
    requires
        forest.len() >= 2,
        additive(measure),
    ensures
        forest_sum(join_step(forest, rank), measure) == forest_sum(forest, measure),
{
    let i = lowest(forest);
    lemma_lowest_within(forest);
    let rest = forest.remove(i);
    let j = lowest(rest);
    lemma_lowest_within(rest);
    lemma_forest_sum_remove(forest, measure, i);
    lemma_forest_sum_remove(rest, measure, j);
    let grown = rest.remove(j).push(joined(forest[i], rest[j], rank));
    assert(grown.drop_last() =~= rest.remove(j));
}

/// The tree that is left of a forest measures what the forest summed up to.
pub proof fn lemma_reduced_sum(
    forest: Seq<Ranked>,
    rank: usize,
    measure: spec_fn(HuffmanTree) -> nat,
)
    requires
        forest.len() >= 1,
        additive(measure),
    ensures
        measure(reduced(forest, rank)) == forest_sum(forest, measure),
    decreases forest.len(),
{
    if forest.len() == 1 {
        assert(forest_sum(forest.drop_last(), measure) == 0);
    } else {
        lemma_join_step_len(forest, rank);
        lemma_join_step_sum(forest, rank, measure);
        lemma_reduced_sum(join_step(forest, rank), (rank + 1) as usize, measure);
    }
}

/// No tree of a forest weighs more than the forest.
pub proof fn lemma_tree_within_forest_weight(forest: Seq<Ranked>, i: int)
    requires
        0 <= i < forest.len(),
    ensures
        forest[i].tree.total_weight() <= forest_weight(forest),
{
    lemma_forest_sum_remove(forest, weighing(), i);
}

/// The symbols of the leaves of all trees of a forest.
pub open spec fn forest_symbols(forest: Seq<Ranked>) -> Set<u8>
    decreases forest.len(),
{
    if forest.len() == 0 {
        Set::<u8>::empty()
    } else {
        forest_symbols(forest.drop_last()).union(forest.last().tree.symbols())
    }
}

/// The symbols of a forest are those of one of its trees and those of the
/// forest without it.
pub proof fn lemma_forest_symbols_remove(forest: Seq<Ranked>, i: int)
    requires
        0 <= i < forest.len(),
    ensures
        forest_symbols(forest.remove(i)).union(forest[i].tree.symbols()) == forest_symbols(
            forest,
        ),
    decreases forest.len(),
{
    if i < forest.len() - 1 {
        lemma_forest_symbols_remove(forest.drop_last(), i);
        assert(forest.remove(i).drop_last() =~= forest.drop_last().remove(i));
    }
}

/// A join leaves the symbols of the forest as they were.
pub proof fn lemma_join_step_symbols(forest: Seq<Ranked>, rank: usize)
    requires
        forest.len() >= 2,
    ensures
        forest_symbols(join_step(forest, rank)) == forest_symbols(forest),
{
    let i = lowest(forest);
    lemma_lowest_within(forest);
    let rest = forest.remove(i);
    let j = lowest(rest);
    lemma_lowest_within(rest);
    lemma_forest_symbols_remove(forest, i);
    lemma_forest_symbols_remove(rest, j);
    let grown = rest.remove(j).push(joined(forest[i], rest[j], rank));
    assert(grown.drop_last() =~= rest.remove(j));
}

/// The tree that is left of a forest has the symbols of the forest.
pub proof fn lemma_reduced_symbols(forest: Seq<Ranked>, rank: usize)
    requires
        forest.len() >= 1,
    ensures
        reduced(forest, rank).symbols() == forest_symbols(forest),
    decreases forest.len(),
{
    if forest.len() == 1 {
        assert(forest_symbols(forest.drop_last()) =~= Set::<u8>::empty());
    } else {
        lemma_join_step_len(forest, rank);
        lemma_join_step_symbols(forest, rank);
        lemma_reduced_symbols(join_step(forest, rank), (rank + 1) as usize);
    }
}

/// Every tree of the forest stores consistent weights.
pub open spec fn forest_consistent(forest: Seq<Ranked>) -> bool {
    forall|k: int| 0 <= k < forest.len() ==> (#[trigger] forest[k]).tree.weights_consistent()
}

/// A join of consistent trees whose weights add up within `u64` is
/// consistent.
pub proof fn lemma_join_step_consistent(forest: Seq<Ranked>, rank: usize)
    requires
        forest.len() >= 2,
        forest_consistent(forest),
        forest_weight(forest) <= u64::MAX,
    ensures
        forest_consistent(join_step(forest, rank)),
{
    let i = lowest(forest);
    lemma_lowest_within(forest);
    let rest = forest.remove(i);
    let j = lowest(rest);
    lemma_lowest_within(rest);
    lemma_forest_sum_remove(forest, weighing(), i);
    lemma_forest_sum_remove(rest, weighing(), j);
}

/// The tree that is left of a consistent forest is consistent.
pub proof fn lemma_reduced_consistent(forest: Seq<Ranked>, rank: usize)
    requires
        forest.len() >= 1,
        forest_consistent(forest),
        forest_weight(forest) <= u64::MAX,
    ensures
        reduced(forest, rank).weights_consistent(),
    decreases forest.len(),
{
    if forest.len() > 1 {
        lemma_join_step_len(forest, rank);
        lemma_join_step_sum(forest, rank, weighing());
        lemma_join_step_consistent(forest, rank);
        lemma_reduced_consistent(join_step(forest, rank), (rank + 1) as usize);
    }
}

/// Whether `a` is taken before `b`.
pub fn comes_before(a: &Ranked, b: &Ranked) -> (first: bool)
    requires
        a.tree.total_weight() <= u64::MAX,
        b.tree.total_weight() <= u64::MAX,
    ensures
        first == precedes(*a, *b),
{
    let own = a.tree.weight();
    let other = b.tree.weight();
    if own < other {
        true
    } else if own == other {
        a.rank < b.rank
    } else {
        false
    }
}

/// The index of the tree of `forest` that is taken first. Where no two
/// trees have the same rank, it is taken before every other tree.
pub(crate) fn lowest_index(forest: &Vec<Ranked>) -> (best: usize)
    requires
        forest@.len() > 0,
        forest_weight(forest@) <= u64::MAX,
    ensures
        best == lowest(forest@),
        best < forest@.len(),
        distinct_ranks(forest@) ==> forall|k: int|
            0 <= k < forest@.len() && k != best ==> precedes(
                forest@[best as int],
                #[trigger] forest@[k],
            ),
{
    proof {
        if distinct_ranks(forest@) {
            assert forall|k: int| 0 <= k < forest@.len() && k != lowest(forest@) implies precedes(
                forest@[lowest(forest@)],
                #[trigger] forest@[k],
            ) by {
                law_lowest_is_least(forest@, k);
            }
        }
    }
    let mut best: usize = 0;
    let mut k: usize = 1;
    while k < forest.len()
        invariant
            1 <= k <= forest@.len(),
            forest_weight(forest@) <= u64::MAX,
            best == lowest(forest@.take(k as int)),
            best < k,
        decreases forest@.len() - k,
    {
        proof {
            lemma_tree_within_forest_weight(forest@, k as int);
            lemma_tree_within_forest_weight(forest@, best as int);
            assert(forest@.take(k + 1).drop_last() =~= forest@.take(k as int));
        }
        if comes_before(&forest[k], &forest[best]) {
            best = k;
        }
        k = k + 1;
    }
    assert(forest@.take(k as int) =~= forest@);
    best
}

} // verus!
