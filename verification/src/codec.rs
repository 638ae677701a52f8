//! Writing a tree down as bits and reading it back.
//!
//! A tree is written in preorder, one control bit per node: `0` for an inner
//! node, followed by its left and then its right subtree; `1` for a leaf,
//! followed by the eight bits of its symbol, most significant bit first. The
//! description ends by itself, and it is read from the front in the order in
//! which it was written.

use crate::bits::{
    bit_seq, bv_get, bv_len, bv_new, bv_push, bv_split_off, bv_to_bytes, byte_bits,
    byte_from_bits, lemma_byte_from_its_bits, push_byte,
};
use crate::error::HuffmanError;
use crate::tree::{lemma_distinct_small, HuffmanTree};
use bit_vec::BitVec;
use vstd::prelude::*;

verus! {

/// What is read from the front of `bits`: the tree, with all weights zero,
/// and the number of bits that describe it; `None` where the bits end before
/// the description does.
pub open spec fn parse(bits: Seq<bool>) -> Option<(HuffmanTree, nat)>
    decreases bits.len(),
{
    if bits.len() == 0 {
        None
    } else if bits[0] {
        if bits.len() < 9 {
            None
        } else {
            Some((HuffmanTree::Leaf(byte_from_bits(bits.subrange(1, 9)), 0), 9nat))
        }
    } else {
        match parse(bits.skip(1)) {
            None => None,
            Some((left, n)) => if 1 + n > bits.len() {
                None
            } else {
                match parse(bits.skip(1 + n as int)) {
                    None => None,
                    Some((right, m)) => Some(
                        (HuffmanTree::Node(0, Box::new(left), Box::new(right)), 1 + n + m),
                    ),
                }
            },
        }
    }
}

impl HuffmanTree {
    /// The bits that describe the tree.
    pub open spec fn serialized(self) -> Seq<bool>
        decreases self,
    {
        match self {
            HuffmanTree::Leaf(c, _) => seq![true] + byte_bits(c),
            HuffmanTree::Node(_, l, r) => seq![false] + l.serialized() + r.serialized(),
        }
    }
}

/// A description that is read takes up no more bits than there are.
pub proof fn lemma_parse_within(bits: Seq<bool>)
    ensures
        parse(bits) matches Some((_, n)) ==> 0 < n <= bits.len(),
    decreases bits.len(),
{
    if bits.len() > 0 && !bits[0] {
        lemma_parse_within(bits.skip(1));
        if let Some((_, n)) = parse(bits.skip(1)) {
            lemma_parse_within(bits.skip(1 + n as int));
        }
    }
}

/// A tree with `n` leaves is described by `10 * n - 1` bits: nine for each
/// leaf and one for each of the `n - 1` inner nodes.
pub proof fn lemma_serialized_len(tree: HuffmanTree)
    ensures
        tree.serialized().len() == 10 * tree.leaf_count() - 1,
    decreases tree,
{
    match tree {
        HuffmanTree::Leaf(_, _) => {},
        HuffmanTree::Node(_, l, r) => {
            lemma_serialized_len(*l);
            lemma_serialized_len(*r);
        },
    }
}

/// A tree whose leaves carry distinct symbols is described by at most 2559
/// bits.
pub proof fn lemma_distinct_description(tree: HuffmanTree)
    requires
        tree.distinct_symbols(),
    ensures
        tree.serialized().len() <= 2559,
{
    lemma_serialized_len(tree);
    lemma_distinct_small(tree);
}

/// Reading the description of a tree, whatever follows it, gives the tree
/// back with all weights zero, and takes up just the description.
pub proof fn lemma_parse_serialized(tree: HuffmanTree, rest: Seq<bool>)
    ensures
        parse(tree.serialized() + rest) == Some((tree.stripped(), tree.serialized().len())),
    decreases tree,
{
    let bits = tree.serialized() + rest;
    match tree {
        HuffmanTree::Leaf(c, _) => {
            assert(bits.subrange(1, 9) =~= byte_bits(c));
            lemma_byte_from_its_bits(c);
        },
        HuffmanTree::Node(_, l, r) => {
            let after_left = r.serialized() + rest;
            assert(bits.skip(1) =~= l.serialized() + after_left);
            lemma_parse_serialized(*l, after_left);
            let n = l.serialized().len();
            assert(bits.skip(1 + n as int) =~= after_left);
            lemma_parse_serialized(*r, rest);
        },
    }
}

/// No beginning of the description of a tree, short of the whole, is the
/// description of a tree: reading it fails.
pub proof fn lemma_parse_prefix(tree: HuffmanTree, k: int)
    requires
        0 <= k < tree.serialized().len(),
    ensures
        parse(tree.serialized().take(k)).is_none(),
    decreases tree,
{
    let bits = tree.serialized().take(k);
    match tree {
        HuffmanTree::Leaf(_, _) => {},
        HuffmanTree::Node(_, l, r) => {
            if k > 0 {
                let left = l.serialized();
                let right = r.serialized();
                assert(tree.serialized() =~= seq![false] + (left + right));
                assert(!bits[0]);
                if k - 1 < left.len() {
                    assert(bits.skip(1) =~= left.take(k - 1));
                    lemma_parse_prefix(*l, k - 1);
                } else {
                    let rest = right.take(k - 1 - left.len());
                    assert(bits.skip(1) =~= left + rest);
                    lemma_parse_serialized(*l, rest);
                    assert(bits.skip(1 + left.len() as int) =~= rest);
                    lemma_parse_prefix(*r, k - 1 - left.len());
                }
            }
        },
    }
}

/// The byte made of the eight bits of `v` that start at `start`.
fn read_byte(v: &BitVec, start: usize) -> (byte: u8)
    requires
        start + 8 <= bit_seq(*v).len(),
    ensures
        byte == byte_from_bits(bit_seq(*v).subrange(start as int, start + 8)),
{
    let ghost wanted = bit_seq(*v).subrange(start as int, start + 8);
    let len = bv_len(v);
    let mut eight = bv_new();
    let mut k: usize = 0;
    while k < 8
        invariant
            k <= 8,
            start + 8 <= bit_seq(*v).len() == len,
            wanted == bit_seq(*v).subrange(start as int, start + 8),
            bit_seq(eight) == wanted.subrange(0, k as int),
        decreases 8 - k,
    {
        let bit = bv_get(v, start + k);
        match bit {
            Some(b) => {
                bv_push(&mut eight, b);
            },
            None => {},
        }
        k = k + 1;
    }
    let bytes = bv_to_bytes(&eight);
    bytes[0]
}

impl HuffmanTree {
    /// Reads the description of a tree from the front of `v` and takes the
    /// bits that it read off `v`. The tree comes back with all weights zero.
    /// Where the bits end before the description does, `v` is left as it is.
    pub fn reconstruct(v: &mut BitVec) -> (tree: Result<HuffmanTree, HuffmanError>)
        ensures
            match parse(bit_seq(*old(v))) {
                Some((t, n)) => tree == Ok::<HuffmanTree, HuffmanError>(t) && bit_seq(*final(v))
                    == bit_seq(*old(v)).skip(n as int),
                None => tree == Err::<HuffmanTree, HuffmanError>(HuffmanError::CorruptContainer)
                    && bit_seq(*final(v)) == bit_seq(*old(v)),
            },
    {
        assert(bit_seq(*v).skip(0) =~= bit_seq(*v));
        match HuffmanTree::reconstruct_inner(v, 0) {
            Ok((tree, end)) => {
                proof {
                    lemma_parse_within(bit_seq(*v));
                }
                let rest = bv_split_off(v, end);
                *v = rest;
                Ok(tree)
            },
            Err(e) => Err(e),
        }
    }

    /// Reads the description of a tree that starts at bit `start` of `v`;
    /// returns the tree and the index of the first bit behind it.
    pub fn reconstruct_inner(v: &BitVec, start: usize) -> (read: Result<
        (HuffmanTree, usize),
        HuffmanError,
    >)
        requires
            start <= bit_seq(*v).len(),
        ensures
            match parse(bit_seq(*v).skip(start as int)) {
                Some((t, n)) => read == Ok::<(HuffmanTree, usize), HuffmanError>(
                    (t, (start + n) as usize),
                ) && start + n <= bit_seq(*v).len() <= usize::MAX,
                None => read == Err::<(HuffmanTree, usize), HuffmanError>(
                    HuffmanError::CorruptContainer,
                ),
            },
        decreases bit_seq(*v).len() - start,
    {
        let ghost bits = bit_seq(*v).skip(start as int);
        let len = bv_len(v);
        match bv_get(v, start) {
            None => Err(HuffmanError::CorruptContainer),
            Some(true) => {
                if len - start < 9 {
                    Err(HuffmanError::CorruptContainer)
                } else {
                    let symbol = read_byte(v, start + 1);
                    Ok((HuffmanTree::Leaf(symbol, 0), start + 9))
                }
            },
            Some(false) => {
                assert(bits.skip(1) =~= bit_seq(*v).skip(start + 1));
                proof {
                    lemma_parse_within(bits.skip(1));
                }
                match HuffmanTree::reconstruct_inner(v, start + 1) {
                    Err(e) => Err(e),
                    Ok((left, mid)) => {
                        assert(bits.skip(1 + (mid - start - 1)) =~= bit_seq(*v).skip(mid as int));
                        proof {
                            lemma_parse_within(bit_seq(*v).skip(mid as int));
                        }
                        match HuffmanTree::reconstruct_inner(v, mid) {
                            Err(e) => Err(e),
                            Ok((right, end)) => Ok(
                                (HuffmanTree::Node(0, Box::new(left), Box::new(right)), end),
                            ),
                        }
                    },
                }
            },
        }
    }

    /// The description of the tree as bits, in the order in which a reader
    /// takes them. Read back, it gives the tree with all weights zero.
    pub fn deconstructed(&self) -> (out: BitVec)
        requires
            self.serialized().len() <= usize::MAX,
        ensures
            bit_seq(out) == self.serialized(),
            parse(bit_seq(out)) == Some((self.stripped(), bit_seq(out).len())),
    {
        proof {
            lemma_parse_serialized(*self, Seq::<bool>::empty());
            assert(self.serialized() + Seq::<bool>::empty() =~= self.serialized());
        }
        let mut vec = bv_new();
        self.deconstructed_inner(&mut vec);
        vec
    }

    /// Appends the description of the tree to `output`.
    pub fn deconstructed_inner(&self, output: &mut BitVec)
        requires
            bit_seq(*old(output)).len() + self.serialized().len() <= usize::MAX,
        ensures
            bit_seq(*final(output)) == bit_seq(*old(output)) + self.serialized(),
        decreases self,
    {
        match self {
            HuffmanTree::Leaf(c, _w) => {
                bv_push(output, true);
                push_byte(output, *c);
            },
            HuffmanTree::Node(_, l, r) => {
                bv_push(output, false);
                l.deconstructed_inner(output);
                r.deconstructed_inner(output);
            },
        };
    }
}

} // verus!
