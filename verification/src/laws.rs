//! What holds of compression and decompression taken together.

use crate::bits::bytes_to_bits;
use crate::builder::huffman_tree;
use crate::codebook::lemma_stripped_codewords;
use crate::codec::{lemma_parse_prefix, lemma_parse_serialized, parse};
use crate::container::{
    container, law_padding, lemma_cut_container, lemma_tree_covers_input, opened, stream_of,
    valid_part,
};
use crate::payload::{lemma_decoded_concat, lemma_decoded_encoded, lemma_stripped_decoded};
use crate::tree::{lemma_stripped_symbols, HuffmanTree};
use vstd::prelude::*;

verus! {

/// Decompressing the container of an input gives the input back.
pub proof fn law_round_trip(input: Seq<u8>)
    requires
        input.len() > 0,
    ensures
        opened(container(input)) == Some(input),
{
    let tree = huffman_tree(input);
    let payload = tree.encoded(input);
    let bytes = container(input);
    law_padding(input);
    let valid = valid_part(bytes);
    assert(valid == stream_of(input)) by {
        let bits = bytes_to_bits(bytes.skip(1));
        assert(bits.len() - bytes[0] == stream_of(input).len());
    }
    lemma_parse_serialized(tree, payload);
    assert(parse(valid) == Some((tree.stripped(), tree.serialized().len())));
    assert(valid.skip(tree.serialized().len() as int) =~= payload);
    lemma_stripped_decoded(tree, payload);
    lemma_tree_covers_input(input);
    lemma_decoded_encoded(tree, input);
}

/// Where a beginning of the payload, short of the whole, can be decoded at
/// all, it gives less than the input.
proof fn lemma_cut_payload(tree: HuffmanTree, input: Seq<u8>, kept: int)
    requires
        forall|i: int| 0 <= i < input.len() ==> tree.codeword(#[trigger] input[i]).is_some(),
        0 <= kept < tree.encoded(input).len(),
    ensures
        tree.decoded(tree.encoded(input).take(kept)) != Some(input),
{
    let payload = tree.encoded(input);
    let left = payload.take(kept);
    let lost = payload.skip(kept);
    if let Some(found) = tree.decoded(left) {
        assert(left + lost =~= payload);
        lemma_decoded_concat(tree, left, lost);
        lemma_decoded_encoded(tree, input);
        let rest = tree.decoded(lost).unwrap();
        assert(input == found + rest);
        assert(lost.len() >= 1);
        assert(rest.len() >= 1);
        assert(found.len() < input.len());
    }
}

/// A container without its last byte does not open to the input: it is no
/// container, or it opens to less than the input.
pub proof fn law_truncated(input: Seq<u8>)
    requires
        input.len() > 0,
    ensures
        opened(container(input).drop_last()) != Some(input),
{
    let tree = huffman_tree(input);
    let description = tree.serialized();
    let payload = tree.encoded(input);
    let stream = stream_of(input);
    let cut = container(input).drop_last();
    if cut.len() >= 2 {
        lemma_cut_container(input);
        let kept = stream.len() - 8;
        let valid = valid_part(cut);
        assert(valid == stream.take(kept));
        if kept < description.len() {
            assert(stream.take(kept) =~= description.take(kept));
            lemma_parse_prefix(tree, kept);
            assert(parse(valid).is_none());
        } else {
            let left = payload.take(kept - description.len());
            assert(stream.take(kept) =~= description + left);
            lemma_parse_serialized(tree, left);
            assert(parse(valid) == Some((tree.stripped(), description.len())));
            assert(valid.skip(description.len() as int) =~= left);
            lemma_stripped_decoded(tree, left);
            lemma_tree_covers_input(input);
            lemma_cut_payload(tree, input, kept - description.len());
            assert(tree.stripped().decoded(left) != Some(input));
        }
    }
}

/// Writing a tree down and reading it back gives a tree with the same
/// leaves in the same places, and so with the same codeword for every symbol.
pub proof fn law_tree_round_trip(tree: HuffmanTree)
    ensures
        parse(tree.serialized()) == Some((tree.stripped(), tree.serialized().len())),
        forall|b: u8| (#[trigger] tree.stripped().codeword(b)) == tree.codeword(b),
        tree.stripped().symbols() == tree.symbols(),
        tree.stripped().distinct_symbols() == tree.distinct_symbols(),
{
    lemma_stripped_symbols(tree);
    lemma_parse_serialized(tree, Seq::<bool>::empty());
    lemma_stripped_codewords(tree);
}

} // verus!
