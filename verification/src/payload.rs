//! The payload: the codewords of the bytes of an input, one after the other,
//! and reading the bytes back from them by walking down the tree.

use crate::bits::{append_bits, bit_seq, bv_get, bv_len, bv_new};
use crate::codebook::lemma_codeword_len;
use crate::error::HuffmanError;
use crate::tree::HuffmanTree;
use bit_vec::BitVec;
use vstd::prelude::*;
use vstd::string::StringSliceAdditionalSpecFns;

verus! {

broadcast use vstd::std_specs::hash::group_hash_axioms;

/// The bits that stand for one byte: its codeword, or nothing without one.
pub open spec fn code_or_nothing(tree: HuffmanTree, symbol: u8) -> Seq<bool> {
    match tree.codeword(symbol) {
        Some(code) => code,
        None => Seq::<bool>::empty(),
    }
}

impl HuffmanTree {
    /// The codewords of the bytes of `input`, one after the other. A byte
    /// without a codeword adds nothing.
    pub open spec fn encoded(self, input: Seq<u8>) -> Seq<bool>
        decreases input.len(),
    {
        if input.len() == 0 {
            Seq::<bool>::empty()
        } else {
            self.encoded(input.drop_last()) + code_or_nothing(self, input.last())
        }
    }

    /// Goes down from the root along `bits` to a leaf: its symbol and the
    /// number of bits that led to it; `None` where the bits end before a
    /// leaf is reached.
    pub open spec fn descend(self, bits: Seq<bool>) -> Option<(u8, nat)>
        decreases self,
    {
        match self {
            HuffmanTree::Leaf(c, _) => Some((c, 0nat)),
            HuffmanTree::Node(_, l, r) => if bits.len() == 0 {
                None
            } else {
                match (if bits[0] {
                    r.descend(bits.skip(1))
                } else {
                    l.descend(bits.skip(1))
                }) {
                    Some((c, n)) => Some((c, n + 1)),
                    None => None,
                }
            },
        }
    }

    /// The first symbol that `bits` code for and the length of its codeword.
    /// Under a tree that is a single leaf the codeword is one `false` bit.
    pub open spec fn first_symbol(self, bits: Seq<bool>) -> Option<(u8, nat)> {
        match self {
            HuffmanTree::Leaf(c, _) => if bits.len() > 0 && !bits[0] {
                Some((c, 1nat))
            } else {
                None
            },
            HuffmanTree::Node(_, _, _) => self.descend(bits),
        }
    }

    /// The bytes that `bits` code for, codeword by codeword; `None` where
    /// the bits do not end with the end of a codeword.
    pub open spec fn decoded(self, bits: Seq<bool>) -> Option<Seq<u8>>
        decreases bits.len(),
    {
        if bits.len() == 0 {
            Some(Seq::<u8>::empty())
        } else {
            match self.first_symbol(bits) {
                None => None,
                Some((c, n)) => if n == 0 || n > bits.len() {
                    None
                } else {
                    match self.decoded(bits.skip(n as int)) {
                        None => None,
                        Some(rest) => Some(seq![c] + rest),
                    }
                },
            }
        }
    }
}

/// The bytes `head` in front of what `tail` holds, where it holds anything.
pub open spec fn prepend(head: Seq<u8>, tail: Option<Seq<u8>>) -> Option<Seq<u8>> {
    match tail {
        Some(rest) => Some(head + rest),
        None => None,
    }
}

/// The codewords of a part of the input are a part of those of the whole.
pub proof fn lemma_encoded_grows(tree: HuffmanTree, input: Seq<u8>, n: int)
    requires
        0 <= n <= input.len(),
    ensures
        tree.encoded(input.take(n)).len() <= tree.encoded(input).len(),
    decreases input.len() - n,
{
    if n < input.len() {
        lemma_encoded_grows(tree, input, n + 1);
        assert(input.take(n + 1).drop_last() =~= input.take(n));
    } else {
        assert(input.take(n) =~= input);
    }
}

/// The codewords of an input begin with the codeword of its first byte.
pub proof fn lemma_encoded_front(tree: HuffmanTree, input: Seq<u8>)
    requires
        input.len() > 0,
    ensures
        tree.encoded(input) == code_or_nothing(tree, input[0]) + tree.encoded(input.skip(1)),
    decreases input.len(),
{
    if input.len() == 1 {
        assert(input.drop_last() =~= input.skip(1));
    } else {
        lemma_encoded_front(tree, input.drop_last());
        assert(input.drop_last().skip(1) =~= input.skip(1).drop_last());
    }
}

/// The codewords of an input have no more bits than the input has bytes
/// times the height of the tree, or times one under a single leaf.
pub proof fn lemma_encoded_len(tree: HuffmanTree, input: Seq<u8>)
    ensures
        tree.encoded(input).len() <= input.len() * if tree.height() == 0 {
            1
        } else {
            tree.height() as int
        },
    decreases input.len(),
{
    let most = if tree.height() == 0 {
        1
    } else {
        tree.height() as int
    };
    if input.len() > 0 {
        lemma_encoded_len(tree, input.drop_last());
        if tree.codeword(input.last()).is_some() {
            lemma_codeword_len(tree, input.last());
        }
        assert(input.len() * most == (input.len() - 1) * most + most) by (nonlinear_arith);
    }
}

/// Going down to a leaf uses no more bits than there are, and under an inner
/// node at least one.
pub proof fn lemma_descend_within(tree: HuffmanTree, bits: Seq<bool>)
    ensures
        tree.descend(bits) matches Some((_, n)) ==> n <= bits.len() && (tree is Node ==> n > 0),
    decreases tree,
{
    match tree {
        HuffmanTree::Leaf(_, _) => {},
        HuffmanTree::Node(_, l, r) => {
            if bits.len() > 0 {
                lemma_descend_within(*l, bits.skip(1));
                lemma_descend_within(*r, bits.skip(1));
            }
        },
    }
}

/// Going down along the way to a leaf, whatever bits follow, ends at that
/// leaf when the way is used up.
pub proof fn lemma_descend_path(tree: HuffmanTree, symbol: u8, rest: Seq<bool>)
    requires
        tree.path_to(symbol).is_some(),
    ensures
        tree.descend(tree.path_to(symbol).unwrap() + rest) == Some(
            (symbol, tree.path_to(symbol).unwrap().len()),
        ),
    decreases tree,
{
    let path = tree.path_to(symbol).unwrap();
    match tree {
        HuffmanTree::Leaf(_, _) => {},
        HuffmanTree::Node(_, l, r) => {
            if r.path_to(symbol).is_some() {
                lemma_descend_path(*r, symbol, rest);
                assert((path + rest).skip(1) =~= r.path_to(symbol).unwrap() + rest);
            } else {
                lemma_descend_path(*l, symbol, rest);
                assert((path + rest).skip(1) =~= l.path_to(symbol).unwrap() + rest);
            }
        },
    }
}

/// Bits that begin with a codeword code for its symbol first.
pub proof fn lemma_first_symbol_codeword(tree: HuffmanTree, symbol: u8, rest: Seq<bool>)
    requires
        tree.codeword(symbol).is_some(),
    ensures
        tree.first_symbol(tree.codeword(symbol).unwrap() + rest) == Some(
            (symbol, tree.codeword(symbol).unwrap().len()),
        ),
{
    match tree {
        HuffmanTree::Leaf(_, _) => {},
        HuffmanTree::Node(_, _, _) => {
            lemma_descend_path(tree, symbol, rest);
        },
    }
}

/// Decoding the codewords of an input gives the input back.
pub proof fn lemma_decoded_encoded(tree: HuffmanTree, input: Seq<u8>)
    requires
        forall|i: int| 0 <= i < input.len() ==> tree.codeword(#[trigger] input[i]).is_some(),
    ensures
        tree.decoded(tree.encoded(input)) == Some(input),
    decreases input.len(),
{
    if input.len() > 0 {
        let first = input[0];
        let code = tree.codeword(first).unwrap();
        let tail = tree.encoded(input.skip(1));
        lemma_encoded_front(tree, input);
        lemma_codeword_len(tree, first);
        lemma_first_symbol_codeword(tree, first, tail);
        lemma_decoded_encoded(tree, input.skip(1));
        assert((code + tail).skip(code.len() as int) =~= tail);
    }
}

/// Going down to a leaf ends at the same leaf whatever bits follow.
pub proof fn lemma_descend_extend(tree: HuffmanTree, bits: Seq<bool>, more: Seq<bool>)
    requires
        tree.descend(bits).is_some(),
    ensures
        tree.descend(bits + more) == tree.descend(bits),
    decreases tree,
{
    match tree {
        HuffmanTree::Leaf(_, _) => {},
        HuffmanTree::Node(_, l, r) => {
            assert((bits + more).skip(1) =~= bits.skip(1) + more);
            assert((bits + more)[0] == bits[0]);
            if bits[0] {
                lemma_descend_extend(*r, bits.skip(1), more);
            } else {
                lemma_descend_extend(*l, bits.skip(1), more);
            }
        },
    }
}

/// Bits that end with the end of a codeword can be decoded apart from the
/// bits that follow them.
pub proof fn lemma_decoded_concat(tree: HuffmanTree, bits: Seq<bool>, more: Seq<bool>)
    requires
        tree.decoded(bits).is_some(),
    ensures
        tree.decoded(bits + more) == prepend(tree.decoded(bits).unwrap(), tree.decoded(more)),
    decreases bits.len(),
{
    if bits.len() == 0 {
        assert(bits + more =~= more);
        if let Some(rest) = tree.decoded(more) {
            assert(tree.decoded(bits).unwrap() + rest =~= rest);
        }
    } else {
        let (c, n) = tree.first_symbol(bits).unwrap();
        let tail = bits.skip(n as int);
        assert(tree.first_symbol(bits + more) == Some((c, n))) by {
            match tree {
                HuffmanTree::Leaf(_, _) => {
                    assert((bits + more)[0] == bits[0]);
                },
                HuffmanTree::Node(_, _, _) => {
                    lemma_descend_extend(tree, bits, more);
                },
            }
        }
        assert((bits + more).skip(n as int) =~= tail + more);
        lemma_decoded_concat(tree, tail, more);
        if let Some(rest) = tree.decoded(more) {
            let first = tree.decoded(tail).unwrap();
            assert(seq![c] + (first + rest) =~= (seq![c] + first) + rest);
        }
    }
}

/// Setting the weights to zero changes nothing in going down the tree.
pub proof fn lemma_stripped_descend(tree: HuffmanTree, bits: Seq<bool>)
    ensures
        tree.stripped().descend(bits) == tree.descend(bits),
        tree.stripped().first_symbol(bits) == tree.first_symbol(bits),
    decreases tree,
{
    match tree {
        HuffmanTree::Leaf(_, _) => {},
        HuffmanTree::Node(_, l, r) => {
            if bits.len() > 0 {
                lemma_stripped_descend(*l, bits.skip(1));
                lemma_stripped_descend(*r, bits.skip(1));
            }
        },
    }
}

/// A tree with all weights set to zero decodes as the tree itself does.
pub proof fn lemma_stripped_decoded(tree: HuffmanTree, bits: Seq<bool>)
    ensures
        tree.stripped().decoded(bits) == tree.decoded(bits),
    decreases bits.len(),
{
    lemma_stripped_descend(tree, bits);
    if bits.len() > 0 {
        if let Some((_, n)) = tree.first_symbol(bits) {
            if 0 < n <= bits.len() {
                lemma_stripped_decoded(tree, bits.skip(n as int));
            }
        }
    }
}

impl HuffmanTree {
    /// Goes down from this node along the bits of `input` from index `at` on
    /// until a leaf is reached: its symbol and the index behind the bits used.
    fn descend_from(&self, input: &BitVec, at: usize) -> (found: Option<(u8, usize)>)
        requires
            at <= bit_seq(*input).len(),
        ensures
            match self.descend(bit_seq(*input).skip(at as int)) {
                Some((c, n)) => found == Some((c, (at + n) as usize)) && at + n <= bit_seq(
                    *input,
                ).len() <= usize::MAX,
                None => found.is_none(),
            },
        decreases self,
    {
        let len = bv_len(input);
        proof {
            lemma_descend_within(*self, bit_seq(*input).skip(at as int));
        }
        match self {
            HuffmanTree::Leaf(c, _w) => Some((*c, at)),
            HuffmanTree::Node(_w, l, r) => {
                proof {
                    if at < len {
                        assert(bit_seq(*input).skip(at as int).skip(1) =~= bit_seq(*input).skip(
                            at + 1,
                        ));
                    }
                }
                match bv_get(input, at) {
                    Some(false) => l.descend_from(input, at + 1),
                    Some(true) => r.descend_from(input, at + 1),
                    None => None,
                }
            },
        }
    }

    /// The payload for `input`: the codeword of each byte, in input order.
    /// Every byte of `input` must have a leaf in the tree.
    pub fn encode_bytes(&self, input: &[u8]) -> (output: BitVec)
        requires
            self.height() < usize::MAX,
            forall|i: int| 0 <= i < input@.len() ==> self.codeword(#[trigger] input@[i]).is_some(),
            self.encoded(input@).len() <= usize::MAX,
        ensures
            bit_seq(output) == self.encoded(input@),
    {
        let table = self.get_lookup_table();
        let mut output = bv_new();
        let mut i: usize = 0;
        while i < input.len()
            invariant
                i <= input@.len(),
                self.encoded(input@).len() <= usize::MAX,
                forall|j: int|
                    0 <= j < input@.len() ==> self.codeword(#[trigger] input@[j]).is_some(),
                forall|b: u8| table@.contains_key(b) <==> self.codeword(b).is_some(),
                forall|b: u8|
                    self.codeword(b) matches Some(code) ==> bit_seq(#[trigger] table@[b]) == code,
                bit_seq(output) == self.encoded(input@.take(i as int)),
            decreases input@.len() - i,
        {
            let c = input[i];
            proof {
                lemma_encoded_grows(*self, input@, i + 1);
                assert(input@.take(i + 1).drop_last() =~= input@.take(i as int));
            }
            match table.get(&c) {
                Some(code) => {
                    append_bits(&mut output, code);
                },
                None => {},
            }
            i = i + 1;
        }
        assert(input@.take(i as int) =~= input@);
        output
    }

    /// The payload for the bytes of `input`, as `encode_bytes` gives it.
    pub fn encode_message(&self, input: &str) -> (output: BitVec)
        requires
            self.height() < usize::MAX,
            forall|i: int|
                0 <= i < input.spec_bytes().len() ==> self.codeword(
                    #[trigger] input.spec_bytes()[i],
                ).is_some(),
            self.encoded(input.spec_bytes()).len() <= usize::MAX,
        ensures
            bit_seq(output) == self.encoded(input.spec_bytes()),
    {
        self.encode_bytes(input.as_bytes())
    }

    /// The bytes that the payload `input` codes for. Fails where the bits
    /// end inside a codeword or, under a tree that is a single leaf, where a
    /// bit is set.
    pub fn decode_bits(&self, input: BitVec) -> (output: Result<Vec<u8>, HuffmanError>)
        ensures
            match self.decoded(bit_seq(input)) {
                Some(bytes) => output.is_ok() && output.unwrap()@ == bytes,
                None => output == Err::<Vec<u8>, HuffmanError>(HuffmanError::CorruptContainer),
            },
    {
        let ghost bits = bit_seq(input);
        let len = bv_len(&input);
        let mut out: Vec<u8> = Vec::new();
        let mut at: usize = 0;
        assert(bits.skip(0) =~= bits);
        while at < len
            invariant
                bits == bit_seq(input),
                at <= len == bits.len(),
                self.decoded(bits) == prepend(out@, self.decoded(bits.skip(at as int))),
            decreases len - at,
        {
            let ghost rest = bits.skip(at as int);
            let found = match self {
                HuffmanTree::Leaf(c, _w) => match bv_get(&input, at) {
                    Some(false) => Some((*c, at + 1)),
                    _ => None,
                },
                HuffmanTree::Node(_w, _l, _r) => self.descend_from(&input, at),
            };
            proof {
                lemma_descend_within(*self, rest);
            }
            match found {
                None => {
                    return Err(HuffmanError::CorruptContainer);
                },
                Some((c, next)) => {
                    proof {
                        let n = next - at;
                        assert(rest.skip(n) =~= bits.skip(next as int));
                    }
                    out.push(c);
                    at = next;
                },
            }
        }
        Ok(out)
    }
}

} // verus!
