//! Building the code tree of an input: one leaf for each byte value that
//! occurs, then the two trees that are taken first joined again and again
//! until one tree is left.

use crate::counts::{
    counts_of, lemma_occurrences_bound, lemma_occurrences_positive, lemma_total_counts, total,
    FrequencyTable,
};
use crate::error::HuffmanError;
use crate::forest::{
    counting, distinct_ranks, forest_consistent, forest_sum, forest_symbols, forest_weight,
    lemma_forest_sum_remove, lemma_join_step_len, lemma_join_step_ranks, lemma_join_step_sum,
    lemma_lowest_within,
    lemma_reduced_consistent, lemma_reduced_sum, lemma_reduced_symbols, lowest, lowest_index,
    ranks_below, reduced, weighing, Ranked,
};
use crate::tree::{lemma_distinct_iff, lemma_height_below_leaves, HuffmanTree};
use vstd::prelude::*;
use vstd::string::StringSliceAdditionalSpecFns;

verus! {

/// One leaf for each byte value below `upto` that occurs, in rising order.
pub open spec fn leaves_of(counts: Seq<u64>, upto: int) -> Seq<Ranked>
    decreases upto,
{
    if upto <= 0 {
        Seq::<Ranked>::empty()
    } else {
        let before = leaves_of(counts, upto - 1);
        if counts[upto - 1] > 0 {
            before.push(
                Ranked {
                    tree: HuffmanTree::Leaf((upto - 1) as u8, counts[upto - 1]),
                    rank: (upto - 1) as usize,
                },
            )
        } else {
            before
        }
    }
}

/// The tree for a table of counts.
pub open spec fn tree_of_counts(counts: Seq<u64>) -> HuffmanTree {
    reduced(leaves_of(counts, 256), 256)
}

/// The tree for an input: the tree for the counts of its bytes.
pub open spec fn huffman_tree(input: Seq<u8>) -> HuffmanTree {
    tree_of_counts(counts_of(input))
}

/// The byte values below `upto` that were counted at least once.
pub open spec fn counted(counts: Seq<u64>, upto: int) -> Set<u8> {
    Set::new(|b: u8| b < upto && counts[b as int] > 0)
}

/// The leaves for a table of counts weigh the sum of the counts that they
/// stand for, and there are no more of them than byte values looked at.
pub proof fn lemma_leaves_weight(counts: Seq<u64>, upto: int)
    requires
        0 <= upto <= counts.len(),
    ensures
        forest_weight(leaves_of(counts, upto)) == total(counts.take(upto)),
        forest_sum(leaves_of(counts, upto), counting()) == leaves_of(counts, upto).len(),
        leaves_of(counts, upto).len() <= upto,
    decreases upto,
{
    if upto > 0 {
        lemma_leaves_weight(counts, upto - 1);
        assert(counts.take(upto).drop_last() =~= counts.take(upto - 1));
        let before = leaves_of(counts, upto - 1);
        if counts[upto - 1] > 0 {
            assert(leaves_of(counts, upto).drop_last() =~= before);
        }
    }
}

/// The leaves for a table of counts carry the byte values that were counted,
/// each once.
pub proof fn lemma_leaves_symbols(counts: Seq<u64>, upto: int)
    requires
        0 <= upto <= 256,
        counts.len() == 256,
    ensures
        forest_symbols(leaves_of(counts, upto)) == counted(counts, upto),
        counted(counts, upto).finite(),
        counted(counts, upto).len() == leaves_of(counts, upto).len(),
    decreases upto,
{
    if upto == 0 {
        assert(counted(counts, upto) =~= Set::<u8>::empty());
    } else {
        lemma_leaves_symbols(counts, upto - 1);
        let before = counted(counts, upto - 1);
        let symbol = (upto - 1) as u8;
        if counts[upto - 1] > 0 {
            assert(leaves_of(counts, upto).drop_last() =~= leaves_of(counts, upto - 1));
            assert(counted(counts, upto) =~= before.insert(symbol));
        }
    }
}

/// The leaves for a table of counts have distinct ranks: their symbols.
pub proof fn lemma_leaves_ranks(counts: Seq<u64>, upto: int)
    requires
        0 <= upto <= 256,
    ensures
        distinct_ranks(leaves_of(counts, upto)),
        ranks_below(leaves_of(counts, upto), upto),
    decreases upto,
{
    if upto > 0 {
        lemma_leaves_ranks(counts, upto - 1);
        let before = leaves_of(counts, upto - 1);
        let leaves = leaves_of(counts, upto);
        assert forall|a: int, b: int|
            0 <= a < leaves.len() && 0 <= b < leaves.len() && a != b implies (
        #[trigger] leaves[a]).rank != (#[trigger] leaves[b]).rank by {
            if a < before.len() {
                assert(leaves[a] == before[a]);
            }
            if b < before.len() {
                assert(leaves[b] == before[b]);
            }
        }
        assert forall|k: int| 0 <= k < leaves.len() implies (#[trigger] leaves[k]).rank < upto by {
            if k < before.len() {
                assert(leaves[k] == before[k]);
            }
        }
    }
}

/// Leaves are consistent.
pub proof fn lemma_leaves_consistent(counts: Seq<u64>, upto: int)
    requires
        0 <= upto <= counts.len(),
    ensures
        forest_consistent(leaves_of(counts, upto)),
    decreases upto,
{
    if upto > 0 {
        lemma_leaves_consistent(counts, upto - 1);
    }
}

/// The byte values that were counted in an input are those that it holds.
pub proof fn lemma_counted_is_set(input: Seq<u8>)
    ensures
        counted(counts_of(input), 256) == input.to_set(),
{
    assert forall|b: u8| counted(counts_of(input), 256).contains(b) <==> input.to_set().contains(
        b,
    ) by {
        lemma_occurrences_positive(input, b);
        lemma_occurrences_bound(input, b);
    }
}

/// The tree for a table of counts in which some byte value was counted has
/// one leaf for each byte value that was counted.
pub proof fn lemma_tree_of_counts_leaves(counts: Seq<u64>)
    requires
        counts.len() == 256,
        exists|b: u8| counted(counts, 256).contains(b),
    ensures
        tree_of_counts(counts).symbols() == counted(counts, 256),
        tree_of_counts(counts).leaf_count() == counted(counts, 256).len(),
        1 <= tree_of_counts(counts).leaf_count() <= 256,
{
    let leaves = leaves_of(counts, 256);
    lemma_leaves_weight(counts, 256);
    lemma_leaves_symbols(counts, 256);
    let witness = choose|b: u8| counted(counts, 256).contains(b);
    assert(forest_symbols(leaves).contains(witness));
    assert(leaves.len() >= 1);
    lemma_reduced_sum(leaves, 256, counting());
    lemma_reduced_symbols(leaves, 256);
    lemma_height_below_leaves(tree_of_counts(counts));
}

/// The tree for a table of counts that add up to more than nothing and
/// within `u64` weighs the sum of the counts, and its inner nodes store the
/// weights of their subtrees.
pub proof fn lemma_tree_of_counts(counts: Seq<u64>)
    requires
        counts.len() == 256,
        0 < total(counts) <= u64::MAX,
    ensures
        tree_of_counts(counts).total_weight() == total(counts),
        tree_of_counts(counts).weights_consistent(),
{
    let leaves = leaves_of(counts, 256);
    lemma_leaves_weight(counts, 256);
    assert(counts.take(256) =~= counts);
    lemma_leaves_consistent(counts, 256);
    lemma_reduced_sum(leaves, 256, weighing());
    lemma_reduced_consistent(leaves, 256);
}

/// The weight of the tree for an input is the length of the input.
pub proof fn law_root_weight(input: Seq<u8>)
    requires
        0 < input.len() <= u64::MAX,
    ensures
        huffman_tree(input).total_weight() == input.len(),
        huffman_tree(input).weights_consistent(),
{
    lemma_total_counts(input);
    lemma_tree_of_counts(counts_of(input));
}

/// The tree for an input has as many leaves as the input has distinct byte
/// values, and its leaves carry just these values, each one of them.
pub proof fn law_leaf_count(input: Seq<u8>)
    requires
        input.len() > 0,
    ensures
        huffman_tree(input).leaf_count() == input.to_set().len(),
        huffman_tree(input).symbols() == input.to_set(),
        huffman_tree(input).distinct_symbols(),
        1 <= huffman_tree(input).leaf_count() <= 256,
{
    lemma_distinct_iff(huffman_tree(input));
    lemma_counted_is_set(input);
    assert(input.to_set().contains(input[0]));
    lemma_tree_of_counts_leaves(counts_of(input));
}

impl HuffmanTree {
    /// Builds the tree for a table of counts: one leaf for each byte value
    /// that was counted, then the two first trees joined until one is left.
    pub fn from_frequencies(table: &FrequencyTable) -> (tree: HuffmanTree)
        requires
            table.wf(),
        ensures
            tree == tree_of_counts(table@),
            tree.total_weight() == total(table@),
            tree.weights_consistent(),
    {
        proof {
            lemma_tree_of_counts(table@);
        }
        let mut queue: Vec<Ranked> = Vec::new();
        let mut b: usize = 0;
        while b < 256
            invariant
                b <= 256,
                table.wf(),
                queue@ == leaves_of(table@, b as int),
            decreases 256 - b,
        {
            let seen = table.count(b as u8);
            if seen > 0 {
                queue.push(Ranked { tree: HuffmanTree::Leaf(b as u8, seen), rank: b });
            }
            b = b + 1;
        }
        proof {
            lemma_leaves_weight(table@, 256);
            lemma_leaves_ranks(table@, 256);
            assert(table@.take(256) =~= table@);
        }
        let mut next: usize = 256;
        while queue.len() > 1
            invariant
                queue@.len() >= 1,
                next + queue@.len() <= 512,
                forest_weight(queue@) <= u64::MAX,
                distinct_ranks(queue@),
                ranks_below(queue@, next as int),
                reduced(queue@, next) == tree_of_counts(table@),
            decreases queue@.len(),
        {
            proof {
                lemma_join_step_len(queue@, next);
                lemma_join_step_sum(queue@, next, weighing());
                lemma_join_step_ranks(queue@, next);
                lemma_lowest_within(queue@);
                lemma_forest_sum_remove(queue@, weighing(), lowest(queue@));
                lemma_lowest_within(queue@.remove(lowest(queue@)));
                lemma_forest_sum_remove(
                    queue@.remove(lowest(queue@)),
                    weighing(),
                    lowest(queue@.remove(lowest(queue@))),
                );
            }
            let i = lowest_index(&queue);
            let left = queue.remove(i);
            let j = lowest_index(&queue);
            let right = queue.remove(j);
            let l_weight = left.tree.weight();
            let r_weight = right.tree.weight();
            queue.push(
                Ranked {
                    tree: HuffmanTree::Node(
                        l_weight + r_weight,
                        Box::new(left.tree),
                        Box::new(right.tree),
                    ),
                    rank: next,
                },
            );
            next = next + 1;
        }
        let last = queue.remove(0);
        last.tree
    }

    /// Builds the tree for `input`; fails on an empty input. The tree weighs
    /// as much as the input is long and has one leaf for each distinct byte
    /// value of the input.
    pub fn from_bytes(input: &[u8]) -> (tree: Result<HuffmanTree, HuffmanError>)
        ensures
            match tree {
                Ok(t) => {
                    &&& input@.len() > 0
                    &&& t == huffman_tree(input@)
                    &&& t.total_weight() == input@.len()
                    &&& t.weights_consistent()
                    &&& t.symbols() == input@.to_set()
                    &&& t.distinct_symbols()
                    &&& t.leaf_count() == input@.to_set().len()
                },
                Err(e) => e == HuffmanError::EmptyInput && input@.len() == 0,
            },
    {
        let len = input.len();
        proof {
            if len > 0 {
                law_root_weight(input@);
                law_leaf_count(input@);
            }
        }
        match FrequencyTable::from_bytes(input) {
            Ok(table) => Ok(HuffmanTree::from_frequencies(&table)),
            Err(e) => Err(e),
        }
    }

    /// Builds the tree for the bytes of `input`, as `from_bytes` does; fails
    /// on an empty string.
    pub fn from_str(input: &str) -> (tree: Result<HuffmanTree, HuffmanError>)
        ensures
            match tree {
                Ok(t) => {
                    &&& input.spec_bytes().len() > 0
                    &&& t == huffman_tree(input.spec_bytes())
                    &&& t.total_weight() == input.spec_bytes().len()
                    &&& t.weights_consistent()
                    &&& t.symbols() == input.spec_bytes().to_set()
                    &&& t.distinct_symbols()
                    &&& t.leaf_count() == input.spec_bytes().to_set().len()
                },
                Err(e) => e == HuffmanError::EmptyInput && input.spec_bytes().len() == 0,
            },
    {
        HuffmanTree::from_bytes(input.as_bytes())
    }
}

} // verus!
