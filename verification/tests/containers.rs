use huffman::container::{
    checked_compress, checked_decompress, compress, decompress, within_limits,
};
use huffman::error::HuffmanError;
use huffman::tree::HuffmanTree;

const MESSAGE: &str = "hello my name is gunther welcome to the valley!";

fn count_leaves(tree: &HuffmanTree) -> usize {
    match tree {
        HuffmanTree::Leaf(_, _) => 1,
        HuffmanTree::Node(_, l, r) => count_leaves(l) + count_leaves(r),
    }
}

#[test]
fn single_symbol_round_trip() {
    let packed = compress(b"aaaa").unwrap();
    assert_eq!(decompress(&packed).unwrap(), b"aaaa");
}

#[test]
fn single_symbol_container_bytes() {
    // one leaf: control bit 1 and the symbol 0x61, then four zero bits of
    // payload, then three bits of padding
    assert_eq!(compress(b"aaaa").unwrap(), vec![3, 0b1011_0000, 0b1000_0000]);
}

#[test]
fn two_equal_symbols_container_bytes() {
    // 'a' is taken first and goes to the left: 'a' is 0 and 'b' is 1
    assert_eq!(compress(b"abab").unwrap(), vec![1, 0x58, 0x6C, 0x4A]);
    assert_eq!(decompress(&[1, 0x58, 0x6C, 0x4A]).unwrap(), b"abab");
}

#[test]
fn two_equal_symbols_is_repeatable() {
    let first = compress(b"abab").unwrap();
    for _ in 0..10 {
        assert_eq!(compress(b"abab").unwrap(), first);
    }
}

#[test]
fn message_round_trip() {
    let packed = compress(MESSAGE.as_bytes()).unwrap();
    assert_eq!(decompress(&packed).unwrap(), MESSAGE.as_bytes());
}

#[test]
fn message_container_starts_as_expected() {
    let packed = compress(MESSAGE.as_bytes()).unwrap();
    assert_eq!(packed.len(), 48);
    assert_eq!(&packed[..12], &[4, 4, 134, 198, 179, 218, 75, 149, 205, 117, 187, 45]);
}

#[test]
fn container_without_padding() {
    let packed = compress(b"abracadabra").unwrap();
    assert_eq!(packed, vec![0, 88, 75, 29, 145, 98, 185, 55, 69, 110]);
    assert_eq!(decompress(&packed).unwrap(), b"abracadabra");
}

#[test]
fn truncated_container_is_corrupt() {
    let mut packed = compress(MESSAGE.as_bytes()).unwrap();
    packed.pop();
    assert_eq!(decompress(&packed), Err(HuffmanError::CorruptContainer));
}

#[test]
fn truncated_single_symbol_container_is_corrupt() {
    assert_eq!(decompress(&[3, 0b1011_0000]), Err(HuffmanError::CorruptContainer));
}

#[test]
fn empty_input_is_refused() {
    assert_eq!(compress(&[]), Err(HuffmanError::EmptyInput));
}

#[test]
fn all_byte_values_round_trip() {
    let input: Vec<u8> = (0..=255u8).collect();
    let packed = compress(&input).unwrap();
    assert_eq!(packed.len(), 577);
    assert_eq!(packed[0], 1);
    assert_eq!(decompress(&packed).unwrap(), input);
    let tree = HuffmanTree::from_bytes(&input).unwrap();
    assert_eq!(count_leaves(&tree), 256);
    assert_eq!(tree.weight(), 256);
}

#[test]
fn padding_accounts_for_the_bits() {
    for input in [&b"aaaa"[..], b"abab", b"abracadabra", MESSAGE.as_bytes(), b"i love chicken"] {
        let tree = HuffmanTree::from_bytes(input).unwrap();
        let bits = tree.deconstructed().len() + tree.encode_bytes(input).len();
        let packed = compress(input).unwrap();
        assert!(packed[0] <= 7);
        assert_eq!((packed.len() - 1) * 8 - packed[0] as usize, bits);
    }
}

#[test]
fn longer_input_round_trip() {
    let mut input: Vec<u8> = Vec::new();
    let mut x: u32 = 12345;
    for i in 0..5000u32 {
        x = x.wrapping_mul(1103515245).wrapping_add(12345);
        let skewed = ((x >> 16) % 64) * ((x >> 8) % 4) + (i % 3);
        input.push(skewed as u8);
    }
    let packed = compress(&input).unwrap();
    assert!(packed.len() < input.len());
    assert_eq!(decompress(&packed).unwrap(), input);
}

#[test]
fn too_short_containers_are_corrupt() {
    assert_eq!(decompress(&[]), Err(HuffmanError::CorruptContainer));
    assert_eq!(decompress(&[0]), Err(HuffmanError::CorruptContainer));
    assert_eq!(decompress(&[7]), Err(HuffmanError::CorruptContainer));
}

#[test]
fn padding_count_above_seven_is_corrupt() {
    assert_eq!(decompress(&[8, 0b1011_0000, 0b1000_0000]), Err(HuffmanError::CorruptContainer));
    assert_eq!(decompress(&[255, 0x58, 0x6C, 0x4A]), Err(HuffmanError::CorruptContainer));
}

#[test]
fn tree_that_does_not_end_is_corrupt() {
    // inner nodes only
    assert_eq!(decompress(&[0, 0, 0]), Err(HuffmanError::CorruptContainer));
    // a leaf whose symbol is cut off
    assert_eq!(decompress(&[0, 0b1011_0000]), Err(HuffmanError::CorruptContainer));
    assert_eq!(decompress(&[7, 0b1011_0000]), Err(HuffmanError::CorruptContainer));
}

#[test]
fn long_run_of_inner_nodes_is_corrupt() {
    assert_eq!(decompress(&[0u8; 300]), Err(HuffmanError::CorruptContainer));
}

#[test]
fn payload_that_ends_inside_a_codeword_is_corrupt() {
    // the tree of "abracadabra" takes 49 bits; of the payload 0 110 111 ...
    // the first two bits are kept: an 'a', and a 1 that is no codeword yet
    assert_eq!(
        decompress(&[5, 88, 75, 29, 145, 98, 185, 55]),
        Err(HuffmanError::CorruptContainer)
    );
    // with one bit less the payload ends with the codeword of 'a'
    assert_eq!(decompress(&[6, 88, 75, 29, 145, 98, 185, 55]), Ok(b"a".to_vec()));
    // with the whole byte it ends with the codeword of 'r'
    assert_eq!(decompress(&[0, 88, 75, 29, 145, 98, 185, 55]), Ok(b"abr".to_vec()));
}

#[test]
fn set_bit_under_a_single_leaf_is_corrupt() {
    // the leaf 'a', then the payload 0 1 0 0
    assert_eq!(decompress(&[3, 0b1011_0000, 0b1010_0000]), Err(HuffmanError::CorruptContainer));
}

#[test]
fn container_of_tree_alone_holds_nothing() {
    // the leaf 'a' and no payload: seven bits of padding
    assert_eq!(decompress(&[7, 0b1011_0000, 0b1000_0000]), Ok(vec![]));
    // one more byte: eight zero bits of payload under a single leaf
    assert_eq!(decompress(&[7, 0b1011_0000, 0b1000_0000, 0]), Ok(b"aaaaaaaa".to_vec()));
}

#[test]
fn limits_admit_ordinary_inputs() {
    assert!(within_limits(0));
    assert!(within_limits(1 << 20));
    assert!(!within_limits(usize::MAX));
    assert!(within_limits((usize::MAX - 2566) / 255));
    assert!(!within_limits((usize::MAX - 2566) / 255 + 1));
}

#[test]
fn checked_entry_points_agree_with_the_plain_ones() {
    for input in [&b""[..], b"aaaa", b"abab", b"abracadabra", MESSAGE.as_bytes()] {
        assert_eq!(checked_compress(input), Some(compress(input)));
    }
    for bytes in [&[][..], &[0], &[3, 0b1011_0000, 0b1000_0000], &[1, 0x58, 0x6C, 0x4A], &[9, 1, 2]] {
        assert_eq!(checked_decompress(bytes), Some(decompress(bytes)));
    }
    assert_eq!(checked_decompress(&[1, 0x58, 0x6C, 0x4A]), Some(Ok(b"abab".to_vec())));
    assert_eq!(checked_compress(&[]), Some(Err(HuffmanError::EmptyInput)));
}

#[test]
fn truncated_container_never_gives_the_input_back() {
    let mut inputs: Vec<Vec<u8>> = vec![
        b"aaaa".to_vec(),
        b"aaaaaaaaaaaaaaaa".to_vec(),
        b"abab".to_vec(),
        b"abracadabra".to_vec(),
        MESSAGE.as_bytes().to_vec(),
        (0..=255u8).collect(),
    ];
    inputs.push(vec![7u8; 1000]);
    for input in inputs {
        let mut packed = compress(&input).unwrap();
        packed.pop();
        match decompress(&packed) {
            Ok(found) => {
                assert!(found.len() < input.len());
                assert_eq!(&input[..found.len()], &found[..]);
            }
            Err(e) => assert_eq!(e, HuffmanError::CorruptContainer),
        }
    }
}

#[test]
fn truncated_container_may_open_to_a_beginning_of_the_input() {
    let mut packed = compress(b"abracadabra").unwrap();
    packed.pop();
    assert_eq!(decompress(&packed), Ok(b"abracad".to_vec()));
}

#[test]
fn padding_bits_are_zero() {
    for input in [&b"aaaa"[..], b"abab", b"abracadabra", MESSAGE.as_bytes(), b"i love chicken"] {
        let packed = compress(input).unwrap();
        let pad = packed[0] as u32;
        let last = *packed.last().unwrap() as u32;
        assert_eq!(last & ((1u32 << pad) - 1), 0);
    }
}

#[test]
fn bit_count_is_tree_bits_and_payload_bits() {
    for input in [&b"aaaa"[..], b"abab", b"abracadabra", MESSAGE.as_bytes(), b"i love chicken"] {
        let tree = HuffmanTree::from_bytes(input).unwrap();
        let table = tree.get_lookup_table();
        let mut distinct = input.to_vec();
        distinct.sort();
        distinct.dedup();
        let payload: usize = input.iter().map(|b| table[b].len()).sum();
        let packed = compress(input).unwrap();
        assert_eq!(
            (packed.len() - 1) * 8 - packed[0] as usize,
            10 * distinct.len() - 1 + payload
        );
    }
}
