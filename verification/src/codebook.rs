//! Codewords: the table from symbols to codewords that a tree gives.
//!
//! A codeword is the way from the root to a leaf, `false` for a step to the
//! left and `true` for a step to the right. A tree that is a single leaf has
//! no such way: its one symbol gets the codeword of one `false` bit.

use crate::bits::{bit_seq, bv_clone, bv_get, bv_len, bv_new, bv_push};
use crate::tree::HuffmanTree;
use bit_vec::BitVec;
use std::collections::HashMap;
use vstd::prelude::*;

verus! {

broadcast use vstd::std_specs::hash::group_hash_axioms;

impl HuffmanTree {
    /// The way from the root to the leaf that carries `symbol`; where several
    /// leaves carry it, to the rightmost of them.
    pub open spec fn path_to(self, symbol: u8) -> Option<Seq<bool>>
        decreases self,
    {
        match self {
            HuffmanTree::Leaf(c, _) => if c == symbol {
                Some(Seq::<bool>::empty())
            } else {
                None
            },
            HuffmanTree::Node(_, l, r) => match r.path_to(symbol) {
                Some(p) => Some(seq![true] + p),
                None => match l.path_to(symbol) {
                    Some(p) => Some(seq![false] + p),
                    None => None,
                },
            },
        }
    }

    /// The codeword of `symbol`, if the tree has a leaf for it.
    pub open spec fn codeword(self, symbol: u8) -> Option<Seq<bool>> {
        match self {
            HuffmanTree::Leaf(c, _) => if c == symbol {
                Some(seq![false])
            } else {
                None
            },
            HuffmanTree::Node(_, _, _) => self.path_to(symbol),
        }
    }

    /// The symbol of the leaf that `route` leads to from the root. Bits of
    /// `route` behind the leaf are not looked at; a route that ends at an
    /// inner node leads to no symbol.
    pub open spec fn walk(self, route: Seq<bool>) -> Option<u8>
        decreases self,
    {
        match self {
            HuffmanTree::Leaf(c, _) => Some(c),
            HuffmanTree::Node(_, l, r) => if route.len() == 0 {
                None
            } else if route[0] {
                r.walk(route.skip(1))
            } else {
                l.walk(route.skip(1))
            },
        }
    }
}

/// A way to a leaf is no longer than the tree is high.
pub proof fn lemma_path_within_height(tree: HuffmanTree, symbol: u8)
    ensures
        tree.path_to(symbol) matches Some(p) ==> p.len() <= tree.height(),
    decreases tree,
{
    match tree {
        HuffmanTree::Leaf(_, _) => {},
        HuffmanTree::Node(_, l, r) => {
            lemma_path_within_height(*l, symbol);
            lemma_path_within_height(*r, symbol);
        },
    }
}

/// A symbol has a way to a leaf just where the tree has a leaf for it.
pub proof fn lemma_path_iff_symbol(tree: HuffmanTree, symbol: u8)
    ensures
        tree.path_to(symbol).is_some() <==> tree.symbols().contains(symbol),
        tree.codeword(symbol).is_some() <==> tree.symbols().contains(symbol),
    decreases tree,
{
    match tree {
        HuffmanTree::Leaf(_, _) => {},
        HuffmanTree::Node(_, l, r) => {
            lemma_path_iff_symbol(*l, symbol);
            lemma_path_iff_symbol(*r, symbol);
        },
    }
}

/// A codeword has at least one bit and, under an inner node, no more bits
/// than the tree is high.
pub proof fn lemma_codeword_len(tree: HuffmanTree, symbol: u8)
    requires
        tree.codeword(symbol).is_some(),
    ensures
        1 <= tree.codeword(symbol).unwrap().len(),
        tree.codeword(symbol).unwrap().len() <= tree.height() || tree.codeword(
            symbol,
        ).unwrap().len() == 1,
{
    lemma_path_within_height(tree, symbol);
}

/// No way to the leaf of one symbol is the beginning of the way to the leaf
/// of another.
pub proof fn lemma_paths_prefix_free(tree: HuffmanTree, a: u8, b: u8)
    requires
        a != b,
        tree.path_to(a).is_some(),
        tree.path_to(b).is_some(),
    ensures
        !tree.path_to(a).unwrap().is_prefix_of(tree.path_to(b).unwrap()),
    decreases tree,
{
    let p = tree.path_to(a).unwrap();
    let q = tree.path_to(b).unwrap();
    match tree {
        HuffmanTree::Leaf(_, _) => {},
        HuffmanTree::Node(_, l, r) => {
            if p.is_prefix_of(q) {
                if p[0] {
                    assert(p.skip(1) =~= r.path_to(a).unwrap());
                    lemma_paths_prefix_free(*r, a, b);
                } else {
                    assert(p.skip(1) =~= l.path_to(a).unwrap());
                    lemma_paths_prefix_free(*l, a, b);
                }
            }
        },
    }
}

/// No codeword of a tree is the beginning of the codeword of another symbol.
pub proof fn law_prefix_free(tree: HuffmanTree, a: u8, b: u8)
    requires
        a != b,
        tree.codeword(a).is_some(),
        tree.codeword(b).is_some(),
    ensures
        !tree.codeword(a).unwrap().is_prefix_of(tree.codeword(b).unwrap()),
{
    match tree {
        HuffmanTree::Leaf(_, _) => {},
        HuffmanTree::Node(_, _, _) => {
            lemma_paths_prefix_free(tree, a, b);
        },
    }
}

/// Setting the weights to zero changes no codeword.
pub proof fn lemma_stripped_codewords(tree: HuffmanTree)
    ensures
        forall|b: u8| (#[trigger] tree.stripped().path_to(b)) == tree.path_to(b),
        forall|b: u8| (#[trigger] tree.stripped().codeword(b)) == tree.codeword(b),
    decreases tree,
{
    match tree {
        HuffmanTree::Leaf(_, _) => {},
        HuffmanTree::Node(_, l, r) => {
            lemma_stripped_codewords(*l);
            lemma_stripped_codewords(*r);
            assert forall|b: u8| (#[trigger] tree.stripped().path_to(b)) == tree.path_to(b) by {
                assert(l.stripped().path_to(b) == l.path_to(b));
                assert(r.stripped().path_to(b) == r.path_to(b));
            }
        },
    }
}

impl HuffmanTree {
    /// The table from each symbol of the tree to its codeword: one entry
    /// for each symbol that a leaf carries, each codeword at least one bit
    /// long, and none the beginning of another.
    pub fn get_lookup_table(&self) -> (table: HashMap<u8, BitVec>)
        requires
            self.height() < usize::MAX,
        ensures
            forall|b: u8| table@.contains_key(b) <==> self.symbols().contains(b),
            forall|b: u8| table@.contains_key(b) <==> self.codeword(b).is_some(),
            forall|b: u8|
                self.codeword(b) matches Some(code) ==> bit_seq(#[trigger] table@[b]) == code
                    && code.len() >= 1,
            forall|a: u8, b: u8|
                a != b && table@.contains_key(a) && table@.contains_key(b) ==> !bit_seq(
                    #[trigger] table@[a],
                ).is_prefix_of(bit_seq(#[trigger] table@[b])),
    {
        proof {
            assert forall|b: u8| self.codeword(b).is_some() <==> self.symbols().contains(b) by {
                lemma_path_iff_symbol(*self, b);
            }
        }
        let mut out: HashMap<u8, BitVec> = HashMap::new();
        let start = bv_new();
        if let Some(c) = self.get_lookup_table_inner(&mut out, &start) {
            let mut only = bv_new();
            bv_push(&mut only, false);
            out.insert(c, only);
        }
        assert forall|b: u8| self.codeword(b).is_some() implies bit_seq(#[trigger] out@[b])
            == self.codeword(b).unwrap() by {
            if let Some(p) = self.path_to(b) {
                assert(Seq::<bool>::empty() + p =~= p);
            }
        }
        assert forall|a: u8, b: u8|
            a != b && out@.contains_key(a) && out@.contains_key(b) implies !bit_seq(
            #[trigger] out@[a],
        ).is_prefix_of(bit_seq(#[trigger] out@[b])) by {
            assert(bit_seq(out@[a]) == self.codeword(a).unwrap());
            assert(bit_seq(out@[b]) == self.codeword(b).unwrap());
            law_prefix_free(*self, a, b);
        }
        out
    }

    /// Enters the codewords of the leaves below an inner node into `table`,
    /// each with `prev` in front: the way from the root down to this node.
    /// A leaf enters nothing and hands its symbol back, for its parent to
    /// enter it.
    fn get_lookup_table_inner(&self, table: &mut HashMap<u8, BitVec>, prev: &BitVec) -> (leaf:
        Option<u8>)
        requires
            bit_seq(*prev).len() + self.height() < usize::MAX,
        ensures
            leaf == match *self {
                HuffmanTree::Leaf(c, _) => Some(c),
                HuffmanTree::Node(_, _, _) => None,
            },
            self is Leaf ==> final(table)@ == old(table)@,
            self is Node ==> forall|b: u8|
                final(table)@.contains_key(b) <==> (old(table)@.contains_key(b) || self.path_to(
                    b,
                ).is_some()),
            self is Node ==> forall|b: u8|
                self.path_to(b).is_some() ==> bit_seq(#[trigger] final(table)@[b]) == bit_seq(
                    *prev,
                ) + self.path_to(b).unwrap(),
            self is Node ==> forall|b: u8|
                self.path_to(b).is_none() && old(table)@.contains_key(b)
                    ==> #[trigger] final(table)@[b] == old(table)@[b],
        decreases self,
    {
        if let HuffmanTree::Leaf(c, _w) = self {
            return Some(*c);
        } else if let HuffmanTree::Node(_weight, left, right) = self {
            let ghost before = table@;
            let mut left_branch = bv_clone(prev);
            bv_push(&mut left_branch, false);
            let ghost left_bits = bit_seq(left_branch);
            if let Some(c) = left.get_lookup_table_inner(table, &left_branch) {
                table.insert(c, left_branch);
            }
            let ghost middle = table@;
            assert forall|b: u8| #[trigger] middle.contains_key(b) <==> (before.contains_key(b)
                || left.path_to(b).is_some()) by {}
            assert forall|b: u8| left.path_to(b).is_some() implies bit_seq(#[trigger] middle[b])
                == bit_seq(*prev) + (seq![false] + left.path_to(b).unwrap()) by {
                let p = left.path_to(b).unwrap();
                assert(left_bits + p =~= bit_seq(*prev) + (seq![false] + p));
            }
            let mut right_branch = bv_clone(prev);
            bv_push(&mut right_branch, true);
            let ghost right_bits = bit_seq(right_branch);
            if let Some(c) = right.get_lookup_table_inner(table, &right_branch) {
                table.insert(c, right_branch);
            }
            let ghost after = table@;
            assert forall|b: u8| #[trigger] after.contains_key(b) <==> (middle.contains_key(b)
                || right.path_to(b).is_some()) by {}
            assert forall|b: u8| right.path_to(b).is_some() implies bit_seq(#[trigger] after[b])
                == bit_seq(*prev) + (seq![true] + right.path_to(b).unwrap()) by {
                let p = right.path_to(b).unwrap();
                assert(right_bits + p =~= bit_seq(*prev) + (seq![true] + p));
            }
        }
        None
    }

    /// The symbol that `route` leads to from the root, if it reaches a leaf.
    pub fn get_u8(&self, route: BitVec) -> (symbol: Option<u8>)
        ensures
            symbol == self.walk(bit_seq(route)),
    {
        assert(bit_seq(route).skip(0) =~= bit_seq(route));
        self.get_u8_inner(&route, 0)
    }

    /// The symbol that the bits of `route` from index `at` on lead to.
    fn get_u8_inner(&self, route: &BitVec, at: usize) -> (symbol: Option<u8>)
        requires
            at <= bit_seq(*route).len(),
        ensures
            symbol == self.walk(bit_seq(*route).skip(at as int)),
        decreases self,
    {
        match self {
            HuffmanTree::Leaf(c, _w) => Some(*c),
            HuffmanTree::Node(_w, l, r) => {
                let len = bv_len(route);
                proof {
                    if at < len {
                        assert(bit_seq(*route).skip(at as int).skip(1) =~= bit_seq(*route).skip(
                            at + 1,
                        ));
                    }
                }
                match bv_get(route, at) {
                    Some(false) => l.get_u8_inner(route, at + 1),
                    Some(true) => r.get_u8_inner(route, at + 1),
                    None => None,
                }
            },
        }
    }
}

} // verus!
