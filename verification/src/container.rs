//! The container: one byte that says how many bits of padding end it, then
//! the description of the tree, the payload, and the padding of zero bits
//! that fills up the last byte.

use crate::bits::{
    append_bits, bv_to_bytes, bytes_to_bits, finalize, lemma_bytes_to_bits_take,
    lemma_unpack_padded, pack, pad_count, valid_bits, zeros,
};
use crate::builder::{huffman_tree, law_leaf_count};
use crate::codebook::lemma_path_iff_symbol;
use crate::codec::{lemma_serialized_len, parse};
use crate::error::HuffmanError;
use crate::laws::law_round_trip;
use crate::payload::lemma_encoded_len;
use crate::tree::{lemma_height_below_leaves, HuffmanTree};
use vstd::prelude::*;

verus! {

/// The bits of the container for `input` before padding: the description
/// of its tree, then its payload.
pub open spec fn stream_of(input: Seq<u8>) -> Seq<bool> {
    huffman_tree(input).serialized() + huffman_tree(input).encoded(input)
}

/// The container for `input`.
pub open spec fn container(input: Seq<u8>) -> Seq<u8> {
    let stream = stream_of(input);
    let pad = pad_count(stream.len());
    seq![pad as u8] + pack(stream + zeros(pad))
}

/// What a container holds; `None` for bytes that are no container: fewer
/// than two bytes, a padding count above seven, a description of the tree
/// that does not end within the bits, or a payload that ends inside a
/// codeword.
pub open spec fn opened(bytes: Seq<u8>) -> Option<Seq<u8>> {
    if bytes.len() < 2 || bytes[0] > 7 {
        None
    } else {
        let valid = valid_part(bytes);
        match parse(valid) {
            None => None,
            Some((tree, n)) => tree.decoded(valid.skip(n as int)),
        }
    }
}

/// The bits of a container that count: those of the bytes behind the first
/// byte, less as many at the end as the first byte says.
pub open spec fn valid_part(bytes: Seq<u8>) -> Seq<bool> {
    let bits = bytes_to_bits(bytes.skip(1));
    bits.take(bits.len() - bytes[0])
}

/// The bits of the container for `input` can be counted in a `usize`.
pub open spec fn countable(input: Seq<u8>) -> bool {
    stream_of(input).len() + 7 <= usize::MAX
}

/// A length for which every input is countable: a codeword has at most 255
/// bits, and the description of the tree with the padding at most 2566.
pub open spec fn compressible(len: nat) -> bool {
    len * 255 + 2566 <= usize::MAX
}

/// Whether every input of `len` bytes can be compressed on this machine.
pub fn within_limits(len: usize) -> (fits: bool)
    ensures
        fits == compressible(len as nat),
{
    len <= (usize::MAX - 2566) / 255
}

/// The tree of an input has a codeword for each byte of the input.
pub proof fn lemma_tree_covers_input(input: Seq<u8>)
    requires
        input.len() > 0,
    ensures
        forall|i: int|
            0 <= i < input.len() ==> huffman_tree(input).codeword(#[trigger] input[i]).is_some(),
{
    law_leaf_count(input);
    assert forall|i: int| 0 <= i < input.len() implies huffman_tree(input).codeword(
        #[trigger] input[i],
    ).is_some() by {
        assert(input.to_set().contains(input[i]));
        lemma_path_iff_symbol(huffman_tree(input), input[i]);
    }
}

/// The tree of an input is at most 255 high, its description takes at most
/// 2559 bits, and its payload at most 255 bits for each byte of the input:
/// an input of a compressible length is countable.
pub proof fn lemma_stream_len(input: Seq<u8>)
    requires
        input.len() > 0,
    ensures
        huffman_tree(input).height() <= 255,
        huffman_tree(input).serialized().len() <= 2559,
        huffman_tree(input).encoded(input).len() <= input.len() * 255,
        stream_of(input).len() <= input.len() * 255 + 2559,
        compressible(input.len()) ==> countable(input),
{
    let tree = huffman_tree(input);
    law_leaf_count(input);
    lemma_height_below_leaves(tree);
    lemma_serialized_len(tree);
    lemma_encoded_len(tree, input);
    assert(tree.encoded(input).len() <= input.len() * 255) by (nonlinear_arith)
        requires
            tree.encoded(input).len() <= input.len() * if tree.height() == 0 {
                1
            } else {
                tree.height() as int
            },
            tree.height() <= 255,
    ;
}

/// The padding count of a container is at most seven, and the bits of the
/// container behind its first byte are those that compression produced,
/// the description of the tree and the payload, and then as many zero bits
/// as the padding count says.
pub proof fn law_padding(input: Seq<u8>)
    requires
        input.len() > 0,
    ensures
        container(input).len() >= 2,
        0 <= container(input)[0] <= 7,
        container(input)[0] == pad_count(stream_of(input).len()),
        (container(input).len() - 1) * 8 - container(input)[0] == stream_of(input).len(),
        bytes_to_bits(container(input).skip(1)) == stream_of(input) + zeros(
            container(input)[0] as nat,
        ),
        bytes_to_bits(container(input).skip(1)).take(stream_of(input).len() as int) == stream_of(
            input,
        ),
        stream_of(input).len() == 10 * input.to_set().len() - 1 + huffman_tree(input).encoded(
            input,
        ).len(),
{
    let stream = stream_of(input);
    let pad = pad_count(stream.len());
    let padded = stream + zeros(pad);
    law_leaf_count(input);
    lemma_serialized_len(huffman_tree(input));
    assert(stream.len() >= 9);
    lemma_unpack_padded(stream);
    assert(container(input) == seq![pad as u8] + pack(padded));
    assert(container(input).skip(1) =~= pack(padded));
    assert(container(input)[0] == pad as u8);
    assert(padded.take(stream.len() as int) =~= stream);
}

/// Of a container without its last byte, the bits that count are those that
/// compression produced less the last eight.
pub proof fn lemma_cut_container(input: Seq<u8>)
    requires
        input.len() > 0,
        container(input).len() >= 3,
    ensures
        container(input).drop_last()[0] == container(input)[0],
        stream_of(input).len() >= 8,
        valid_part(container(input).drop_last()) == stream_of(input).take(
            stream_of(input).len() - 8,
        ),
{
    let stream = stream_of(input);
    let whole = container(input);
    let cut = whole.drop_last();
    let body = whole.skip(1);
    let bits = bytes_to_bits(body);
    law_padding(input);
    assert(cut[0] == whole[0]);
    assert(cut.skip(1) =~= body.take(body.len() - 1));
    lemma_bytes_to_bits_take(body, body.len() - 1);
    let cut_bits = bytes_to_bits(cut.skip(1));
    assert(cut_bits == bits.take(bits.len() - 8));
    assert(bits.len() == stream.len() + whole[0]);
    assert(cut_bits.take(cut_bits.len() - whole[0]) =~= stream.take(stream.len() - 8));
}

/// Compresses `input` into a container; fails on an empty input. The
/// container opens to the input again. The bits of the container must be
/// countable, as they are for every input whose length is `within_limits`.
pub fn compress(input: &[u8]) -> (out: Result<Vec<u8>, HuffmanError>)
    requires
        input@.len() > 0 ==> countable(input@),
    ensures
        match out {
            Ok(bytes) => {
                &&& input@.len() > 0
                &&& bytes@ == container(input@)
                &&& bytes@.len() >= 2
                &&& bytes@[0] <= 7
                &&& (bytes@.len() - 1) * 8 - bytes@[0] == stream_of(input@).len()
                &&& (bytes@.len() - 1) * 8 <= usize::MAX
                &&& opened(bytes@) == Some(input@)
            },
            Err(e) => e == HuffmanError::EmptyInput && input@.len() == 0,
        },
{
    let len = input.len();
    let tree = match HuffmanTree::from_bytes(input) {
        Ok(tree) => tree,
        Err(e) => {
            return Err(e);
        },
    };
    proof {
        lemma_stream_len(input@);
        lemma_tree_covers_input(input@);
        law_padding(input@);
        law_round_trip(input@);
    }
    let mut stream = tree.deconstructed();
    let message = tree.encode_bytes(input);
    append_bits(&mut stream, &message);
    let pad = finalize(&mut stream);
    let mut body = bv_to_bytes(&stream);
    let mut bytes: Vec<u8> = Vec::new();
    bytes.push(pad);
    bytes.append(&mut body);
    Ok(bytes)
}

/// Opens a container and returns what it holds; fails on bytes that are no
/// container.
pub fn decompress(input: &[u8]) -> (out: Result<Vec<u8>, HuffmanError>)
    requires
        (input@.len() - 1) * 8 <= usize::MAX,
    ensures
        match opened(input@) {
            Some(bytes) => out.is_ok() && out.unwrap()@ == bytes,
            None => out == Err::<Vec<u8>, HuffmanError>(HuffmanError::CorruptContainer),
        },
{
    if input.len() < 2 {
        return Err(HuffmanError::CorruptContainer);
    }
    let pad = input[0];
    let body = &input[1..input.len()];
    let mut stream = match valid_bits(body, pad) {
        Some(stream) => stream,
        None => {
            return Err(HuffmanError::CorruptContainer);
        },
    };
    match HuffmanTree::reconstruct(&mut stream) {
        Err(e) => Err(e),
        Ok(tree) => tree.decode_bits(stream),
    }
}

/// Compresses `input` where its length is within the limits of this
/// machine, and returns `None` where it is not.
pub fn checked_compress(input: &[u8]) -> (out: Option<Result<Vec<u8>, HuffmanError>>)
    ensures
        match out {
            Some(Ok(bytes)) => {
                &&& input@.len() > 0
                &&& bytes@ == container(input@)
                &&& bytes@.len() >= 2
                &&& bytes@[0] <= 7
                &&& (bytes@.len() - 1) * 8 - bytes@[0] == stream_of(input@).len()
                &&& (bytes@.len() - 1) * 8 <= usize::MAX
                &&& opened(bytes@) == Some(input@)
            },
            Some(Err(e)) => e == HuffmanError::EmptyInput && input@.len() == 0,
            None => !compressible(input@.len()),
        },
{
    let len = input.len();
    if within_limits(len) {
        proof {
            if len > 0 {
                lemma_stream_len(input@);
            }
        }
        Some(compress(input))
    } else {
        None
    }
}

/// Opens a container whose bits can be counted on this machine, and returns
/// `None` for one whose bits cannot.
pub fn checked_decompress(input: &[u8]) -> (out: Option<Result<Vec<u8>, HuffmanError>>)
    ensures
        match out {
            Some(result) => match opened(input@) {
                Some(bytes) => result.is_ok() && result.unwrap()@ == bytes,
                None => result == Err::<Vec<u8>, HuffmanError>(HuffmanError::CorruptContainer),
            },
            None => (input@.len() - 1) * 8 > usize::MAX,
        },
{
    let len = input.len();
    if len == 0 || len - 1 <= usize::MAX / 8 {
        Some(decompress(input))
    } else {
        None
    }
}

} // verus!
