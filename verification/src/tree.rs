//! The code tree and what can be read off it: weights, leaves, codewords.

pub use crate::bits::{pop_byte, push_byte, rev_byte};
use vstd::prelude::*;

verus! {

/// A binary prefix tree. Every inner node has exactly two children; a leaf
/// carries a symbol. Both carry a weight.
#[derive(Debug, PartialEq, Eq)]
pub enum HuffmanTree {
    /// An inner node: its stored weight, its left and its right child.
    Node(u64, Box<HuffmanTree>, Box<HuffmanTree>),
    /// A leaf: its symbol and how often the symbol occurs.
    Leaf(u8, u64),
}

impl HuffmanTree {
    /// The sum of the weights of the leaves.
    pub open spec fn total_weight(self) -> nat
        decreases self,
    {
        match self {
            HuffmanTree::Leaf(_, w) => w as nat,
            HuffmanTree::Node(_, l, r) => l.total_weight() + r.total_weight(),
        }
    }

    /// The number of leaves.
    pub open spec fn leaf_count(self) -> nat
        decreases self,
    {
        match self {
            HuffmanTree::Leaf(_, _) => 1,
            HuffmanTree::Node(_, l, r) => l.leaf_count() + r.leaf_count(),
        }
    }

    /// The longest way from the root down to a leaf, counted in edges.
    pub open spec fn height(self) -> nat
        decreases self,
    {
        match self {
            HuffmanTree::Leaf(_, _) => 0,
            HuffmanTree::Node(_, l, r) => 1 + if l.height() >= r.height() {
                l.height()
            } else {
                r.height()
            },
        }
    }

    /// The symbols that the leaves carry.
    pub open spec fn symbols(self) -> Set<u8>
        decreases self,
    {
        match self {
            HuffmanTree::Leaf(c, _) => set![c],
            HuffmanTree::Node(_, l, r) => l.symbols().union(r.symbols()),
        }
    }

    /// No two leaves carry the same symbol.
    pub open spec fn distinct_symbols(self) -> bool
        decreases self,
    {
        match self {
            HuffmanTree::Leaf(_, _) => true,
            HuffmanTree::Node(_, l, r) => l.distinct_symbols() && r.distinct_symbols()
                && l.symbols().disjoint(r.symbols()),
        }
    }

    /// Every inner node stores the sum of the weights of the leaves below it.
    pub open spec fn weights_consistent(self) -> bool
        decreases self,
    {
        match self {
            HuffmanTree::Leaf(_, _) => true,
            HuffmanTree::Node(w, l, r) => w == l.total_weight() + r.total_weight()
                && l.weights_consistent() && r.weights_consistent(),
        }
    }

    /// The same shape and symbols with every weight set to zero: what is left
    /// of a tree once it has been written down and read back.
    pub open spec fn stripped(self) -> HuffmanTree
        decreases self,
    {
        match self {
            HuffmanTree::Leaf(c, _) => HuffmanTree::Leaf(c, 0),
            HuffmanTree::Node(_, l, r) => HuffmanTree::Node(
                0,
                Box::new(l.stripped()),
                Box::new(r.stripped()),
            ),
        }
    }

    /// The weight of the tree: the sum of the weights of its leaves, computed
    /// anew from the leaves.
    pub fn weight(&self) -> (w: u64)
        requires
            self.total_weight() <= u64::MAX,
        ensures
            w == self.total_weight(),
        decreases self,
    {
        match self {
            HuffmanTree::Node(_w, l, r) => l.weight() + r.weight(),
            HuffmanTree::Leaf(_, w) => *w,
        }
    }
}

/// A tree is less high than it has leaves.
pub proof fn lemma_height_below_leaves(tree: HuffmanTree)
    ensures
        tree.height() < tree.leaf_count(),
    decreases tree,
{
    match tree {
        HuffmanTree::Leaf(_, _) => {},
        HuffmanTree::Node(_, l, r) => {
            lemma_height_below_leaves(*l);
            lemma_height_below_leaves(*r);
        },
    }
}

/// The byte values below `n`.
pub open spec fn bytes_below(n: int) -> Set<u8> {
    Set::new(|b: u8| b < n)
}

/// There are `n` byte values below `n`.
pub proof fn lemma_bytes_below(n: int)
    requires
        0 <= n <= 256,
    ensures
        bytes_below(n).finite(),
        bytes_below(n).len() == n,
    decreases n,
{
    if n == 0 {
        assert(bytes_below(n) =~= Set::<u8>::empty());
    } else {
        lemma_bytes_below(n - 1);
        assert(bytes_below(n) =~= bytes_below(n - 1).insert((n - 1) as u8));
    }
}

/// A set of byte values is finite and holds at most 256 of them.
pub proof fn lemma_byte_set_small(s: Set<u8>)
    ensures
        s.finite(),
        s.len() <= 256,
{
    lemma_bytes_below(256);
    assert(s.subset_of(bytes_below(256)));
    vstd::set_lib::lemma_len_subset(s, bytes_below(256));
}

/// A tree carries at least one symbol and no more symbols than it has
/// leaves.
pub proof fn lemma_symbols_len(tree: HuffmanTree)
    ensures
        tree.symbols().finite(),
        1 <= tree.symbols().len() <= tree.leaf_count(),
    decreases tree,
{
    lemma_byte_set_small(tree.symbols());
    match tree {
        HuffmanTree::Leaf(c, _) => {
            assert(tree.symbols() =~= Set::<u8>::empty().insert(c));
        },
        HuffmanTree::Node(_, l, r) => {
            lemma_symbols_len(*l);
            lemma_symbols_len(*r);
            vstd::set_lib::lemma_len_union(l.symbols(), r.symbols());
            vstd::set_lib::lemma_len_union_ind(l.symbols(), r.symbols());
        },
    }
}

/// Two finite sets whose union has as many elements as both together have
/// no element in common.
pub proof fn lemma_full_union_disjoint(a: Set<u8>, b: Set<u8>)
    requires
        a.finite(),
        b.finite(),
        a.union(b).len() == a.len() + b.len(),
    ensures
        a.disjoint(b),
{
    if !a.disjoint(b) {
        let x = choose|x: u8| a.contains(x) && b.contains(x);
        assert(a.remove(x).union(b) =~= a.union(b));
        vstd::set_lib::lemma_len_union(a.remove(x), b);
    }
}

/// The leaves of a tree carry distinct symbols just where the tree has as
/// many symbols as leaves.
pub proof fn lemma_distinct_iff(tree: HuffmanTree)
    ensures
        tree.distinct_symbols() <==> tree.symbols().len() == tree.leaf_count(),
    decreases tree,
{
    lemma_symbols_len(tree);
    match tree {
        HuffmanTree::Leaf(_, _) => {},
        HuffmanTree::Node(_, l, r) => {
            lemma_distinct_iff(*l);
            lemma_distinct_iff(*r);
            lemma_symbols_len(*l);
            lemma_symbols_len(*r);
            vstd::set_lib::lemma_len_union(l.symbols(), r.symbols());
            if tree.distinct_symbols() {
                vstd::set_lib::lemma_set_disjoint_lens(l.symbols(), r.symbols());
                assert(l.symbols() + r.symbols() == l.symbols().union(r.symbols()));
            }
            if tree.symbols().len() == tree.leaf_count() {
                lemma_full_union_disjoint(l.symbols(), r.symbols());
            }
        },
    }
}

/// A tree whose leaves carry distinct symbols has at most 256 leaves and is
/// at most 255 high.
pub proof fn lemma_distinct_small(tree: HuffmanTree)
    requires
        tree.distinct_symbols(),
    ensures
        tree.leaf_count() <= 256,
        tree.height() <= 255,
{
    lemma_distinct_iff(tree);
    lemma_byte_set_small(tree.symbols());
    lemma_height_below_leaves(tree);
}

/// Setting the weights to zero changes neither the symbols nor whether they
/// are distinct.
pub proof fn lemma_stripped_symbols(tree: HuffmanTree)
    ensures
        tree.stripped().symbols() == tree.symbols(),
        tree.stripped().leaf_count() == tree.leaf_count(),
        tree.stripped().distinct_symbols() == tree.distinct_symbols(),
    decreases tree,
{
    match tree {
        HuffmanTree::Leaf(_, _) => {},
        HuffmanTree::Node(_, l, r) => {
            lemma_stripped_symbols(*l);
            lemma_stripped_symbols(*r);
        },
    }
}

} // verus!
