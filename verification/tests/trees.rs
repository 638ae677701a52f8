use bit_vec::BitVec;
use huffman::bits::{append_bits, push_byte, valid_bits};
use huffman::counts::FrequencyTable;
use huffman::forest::{comes_before, Ranked};
use huffman::error::HuffmanError;
use huffman::tree::HuffmanTree;

fn bits_of(text: &str) -> BitVec {
    let mut v = BitVec::new();
    for c in text.chars() {
        if c == '0' || c == '1' {
            v.push(c == '1');
        }
    }
    v
}

fn leaf(symbol: u8, weight: u64) -> HuffmanTree {
    HuffmanTree::Leaf(symbol, weight)
}

fn node(weight: u64, left: HuffmanTree, right: HuffmanTree) -> HuffmanTree {
    HuffmanTree::Node(weight, Box::new(left), Box::new(right))
}

fn abracadabra() -> HuffmanTree {
    node(
        11,
        leaf(b'a', 5),
        node(6, node(2, leaf(b'c', 1), leaf(b'd', 1)), node(4, leaf(b'b', 2), leaf(b'r', 2))),
    )
}

#[test]
fn tree_of_abracadabra() {
    assert_eq!(HuffmanTree::from_str("abracadabra").unwrap(), abracadabra());
    assert_eq!(HuffmanTree::from_bytes(b"abracadabra").unwrap(), abracadabra());
}

#[test]
fn tree_of_one_symbol_is_a_leaf() {
    assert_eq!(HuffmanTree::from_str("aaaa").unwrap(), leaf(b'a', 4));
}

#[test]
fn tree_of_two_equal_symbols() {
    assert_eq!(
        HuffmanTree::from_str("abab").unwrap(),
        node(4, leaf(b'a', 2), leaf(b'b', 2))
    );
    assert_eq!(
        HuffmanTree::from_str("baba").unwrap(),
        node(4, leaf(b'a', 2), leaf(b'b', 2))
    );
}

#[test]
fn leaves_come_before_joined_trees_of_equal_weight() {
    // 'a' and 'b' are joined to a tree of weight 2; 'c' of weight 2 is
    // taken before it and goes to the left
    assert_eq!(
        HuffmanTree::from_str("abcc").unwrap(),
        node(4, leaf(b'c', 2), node(2, leaf(b'a', 1), leaf(b'b', 1)))
    );
}

#[test]
fn tree_of_empty_input_is_refused() {
    assert_eq!(HuffmanTree::from_str(""), Err(HuffmanError::EmptyInput));
    assert_eq!(HuffmanTree::from_bytes(&[]), Err(HuffmanError::EmptyInput));
    assert!(FrequencyTable::from_bytes(&[]).is_err());
}

#[test]
fn tree_of_a_string_is_the_tree_of_its_bytes() {
    let text = "h\u{e9}llo w\u{f6}rld";
    assert_eq!(
        HuffmanTree::from_str(text).unwrap(),
        HuffmanTree::from_bytes(text.as_bytes()).unwrap()
    );
}

#[test]
fn root_weight_is_input_length() {
    for input in [&b"a"[..], b"aaaa", b"abab", b"abracadabra", b"i love chicken"] {
        let tree = HuffmanTree::from_bytes(input).unwrap();
        assert_eq!(tree.weight(), input.len() as u64);
    }
}

#[test]
fn weight_adds_up_the_leaves() {
    assert_eq!(leaf(7, 42).weight(), 42);
    assert_eq!(abracadabra().weight(), 11);
    // the stored weights of inner nodes are not what is added up
    assert_eq!(node(1000, leaf(1, 2), node(0, leaf(2, 3), leaf(3, 4))).weight(), 9);
}

#[test]
fn frequency_table_counts() {
    let table = FrequencyTable::from_bytes(b"abracadabra").unwrap();
    assert_eq!(table.count(b'a'), 5);
    assert_eq!(table.count(b'b'), 2);
    assert_eq!(table.count(b'r'), 2);
    assert_eq!(table.count(b'c'), 1);
    assert_eq!(table.count(b'd'), 1);
    assert_eq!(table.count(b'z'), 0);
    assert_eq!(table.count(0), 0);
    assert_eq!(table.count(255), 0);
    assert_eq!(HuffmanTree::from_frequencies(&table), abracadabra());
}

#[test]
fn order_of_waiting_trees() {
    let light = Ranked { tree: leaf(b'z', 1), rank: 122 };
    let heavy = Ranked { tree: leaf(b'a', 2), rank: 97 };
    let joined = Ranked { tree: node(2, leaf(b'x', 1), leaf(b'y', 1)), rank: 256 };
    assert!(comes_before(&light, &heavy));
    assert!(!comes_before(&heavy, &light));
    assert!(comes_before(&heavy, &joined));
    assert!(!comes_before(&joined, &heavy));
    assert!(!comes_before(&heavy, &heavy));
}

#[test]
fn description_of_a_leaf() {
    assert_eq!(leaf(b'a', 4).deconstructed(), bits_of("1 0110 0001"));
}

#[test]
fn description_of_abracadabra() {
    assert_eq!(
        abracadabra().deconstructed(),
        bits_of(
            "0 1 01100001  0 0 1 01100011 1 01100100  0 1 01100010 1 01110010"
        )
    );
}

#[test]
fn reconstruct_reads_from_the_front_and_keeps_the_rest() {
    let mut bits = bits_of("0 1 01100001 1 01100010  1101");
    let tree = HuffmanTree::reconstruct(&mut bits).unwrap();
    assert_eq!(tree, node(0, leaf(b'a', 0), leaf(b'b', 0)));
    assert_eq!(bits, bits_of("1101"));
}

#[test]
fn reconstruct_gives_the_shape_back() {
    let mut bits = abracadabra().deconstructed();
    let tree = HuffmanTree::reconstruct(&mut bits).unwrap();
    assert!(bits.is_empty());
    assert_eq!(
        tree,
        node(
            0,
            leaf(b'a', 0),
            node(0, node(0, leaf(b'c', 0), leaf(b'd', 0)), node(0, leaf(b'b', 0), leaf(b'r', 0))),
        )
    );
    assert_eq!(tree.deconstructed(), abracadabra().deconstructed());
}

#[test]
fn reconstruct_fails_where_the_bits_end_early() {
    let mut empty = BitVec::new();
    assert_eq!(HuffmanTree::reconstruct(&mut empty), Err(HuffmanError::CorruptContainer));
    let mut cut_symbol = bits_of("1 0110 000");
    assert_eq!(HuffmanTree::reconstruct(&mut cut_symbol), Err(HuffmanError::CorruptContainer));
    assert_eq!(cut_symbol, bits_of("1 0110 000"));
    let mut no_right_child = bits_of("0 1 01100001");
    assert_eq!(HuffmanTree::reconstruct(&mut no_right_child), Err(HuffmanError::CorruptContainer));
    assert_eq!(no_right_child, bits_of("0 1 01100001"));
}

#[test]
fn reconstruct_inner_reads_at_an_index() {
    let bits = bits_of("111  0 1 01100001 1 01100010  1101");
    assert_eq!(
        HuffmanTree::reconstruct_inner(&bits, 3),
        Ok((node(0, leaf(b'a', 0), leaf(b'b', 0)), 22))
    );
    assert_eq!(HuffmanTree::reconstruct_inner(&bits, 22), Err(HuffmanError::CorruptContainer));
    assert_eq!(HuffmanTree::reconstruct_inner(&bits, 26), Err(HuffmanError::CorruptContainer));
}

#[test]
fn deconstructed_inner_appends() {
    let mut bits = bits_of("111");
    leaf(b'b', 9).deconstructed_inner(&mut bits);
    assert_eq!(bits, bits_of("111 1 01100010"));
}

#[test]
fn push_byte_after_reconstruct_lands_behind_the_last_bit() {
    // a leaf description, then 31 zero bits: 40 bits in all
    let mut bits = valid_bits(&[0xB0, 0x80, 0, 0, 0], 0).unwrap();
    assert_eq!(bits.len(), 40);
    assert_eq!(HuffmanTree::reconstruct(&mut bits), Ok(leaf(b'a', 0)));
    assert_eq!(bits.len(), 31);
    push_byte(&mut bits, 0xFF);
    assert_eq!(bits.len(), 39);
    assert_eq!(bits.to_bytes(), vec![0, 0, 0, 0x01, 0xFE]);
    for i in 0..39 {
        assert_eq!(bits.get(i), Some(i >= 31));
    }
}

#[test]
fn append_bits_after_reconstruct_lands_behind_the_last_bit() {
    let mut bits = valid_bits(&[0xB0, 0xFF, 0xFF, 0xFF, 0xFF, 0xFF], 0).unwrap();
    assert!(HuffmanTree::reconstruct(&mut bits).is_ok());
    assert_eq!(bits.len(), 39);
    append_bits(&mut bits, &bits_of("0101 1"));
    assert_eq!(bits.len(), 44);
    assert_eq!(bits.to_bytes(), vec![0xFF, 0xFF, 0xFF, 0xFF, 0xFE, 0xB0]);
}

#[test]
fn description_is_appended_behind_what_reconstruct_left() {
    let mut bits = valid_bits(&[0xB0, 0x80, 0, 0, 0], 0).unwrap();
    let tree = HuffmanTree::reconstruct(&mut bits).unwrap();
    tree.deconstructed_inner(&mut bits);
    assert_eq!(bits.len(), 40);
    assert_eq!(bits.to_bytes(), vec![0, 0, 0, 0x01, 0x61]);
}

fn leaf_symbols(tree: &HuffmanTree, out: &mut Vec<u8>) {
    match tree {
        HuffmanTree::Leaf(c, _) => out.push(*c),
        HuffmanTree::Node(_, l, r) => {
            leaf_symbols(l, out);
            leaf_symbols(r, out);
        }
    }
}

#[test]
fn leaves_of_a_built_tree_carry_distinct_symbols() {
    let all: Vec<u8> = (0..=255u8).collect();
    for input in [&b"a"[..], b"abab", b"abracadabra", b"i love chicken", &all[..]] {
        let tree = HuffmanTree::from_bytes(input).unwrap();
        let mut symbols = Vec::new();
        leaf_symbols(&tree, &mut symbols);
        let mut sorted = symbols.clone();
        sorted.sort();
        sorted.dedup();
        assert_eq!(sorted.len(), symbols.len());
        let mut distinct = input.to_vec();
        distinct.sort();
        distinct.dedup();
        assert_eq!(sorted, distinct);
    }
}
