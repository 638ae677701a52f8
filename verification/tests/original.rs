use bit_vec::BitVec;
use huffman::tree::{pop_byte, rev_byte, HuffmanTree};

const MESSAGE: &str = "hello my name is gunther welcome to the valley!";

#[test]
fn test_tree_char() {
    let tree = HuffmanTree::from_str(&MESSAGE.to_string()).unwrap();
    let encrypt = &tree.get_lookup_table();
    let ec = encrypt.get(&b'l').unwrap();
    assert_eq!(tree.get_u8(ec.clone()).unwrap() as char, 'l');
}

#[test]
fn test_tree_str() {
    let tree = HuffmanTree::from_str(MESSAGE).unwrap();
    let encrypt = tree.encode_message(MESSAGE);
    assert_eq!(tree.decode_bits(encrypt).unwrap(), MESSAGE.as_bytes());
}

#[test]
fn test_pop_bytes() {
    let mut v = BitVec::from_bytes(&[0b11111111]);
    assert_eq!(pop_byte(&mut v).unwrap(), 255_u8);
}

#[test]
fn test_pop_byte() {
    let mut vec = BitVec::from_bytes(&[0b10011001, 0b11111111]);
    assert_eq!(pop_byte(&mut vec), Some(255));
}

#[test]
fn test_rev_byte() {
    assert_eq!(rev_byte(0b11110000), 0b00001111);
}

#[test]
fn tree_test_rev_byte() {
    assert_eq!(rev_byte(0b11110000), 0b00001111);
}

#[test]
fn test_construction() {
    let tree = HuffmanTree::from_str("i love chicken").unwrap();
    let mut deconstructed = tree.deconstructed();
    let reconstructed = HuffmanTree::reconstruct(&mut deconstructed).unwrap();
    assert_eq!(
        tree.encode_message("i love chicken"),
        reconstructed.encode_message("i love chicken")
    );
}

#[test]
fn test_rev_bitvec() {
    let mut vec = BitVec::new();
    vec.push(true);
    vec.push(false);
    vec.push(false);
    let reverse: BitVec = vec.iter().rev().collect();
    let mut true_reverse = BitVec::new();
    true_reverse.push(false);
    true_reverse.push(false);
    true_reverse.push(true);
    assert_eq!(true_reverse, reverse)
}
