use bit_vec::BitVec;
use huffman::bits::{append_bits, finalize, pop_byte, push_byte, rev_byte, valid_bits};

fn bits_of(text: &str) -> BitVec {
    let mut v = BitVec::new();
    for c in text.chars() {
        if c == '0' || c == '1' {
            v.push(c == '1');
        }
    }
    v
}

#[test]
fn push_byte_appends_most_significant_bit_first() {
    let mut v = bits_of("101");
    push_byte(&mut v, 0b1100_0101);
    assert_eq!(v, bits_of("101 1100 0101"));
}

#[test]
fn push_byte_on_empty_buffer() {
    let mut v = BitVec::new();
    push_byte(&mut v, 0x61);
    assert_eq!(v.to_bytes(), vec![0x61]);
    assert_eq!(v.len(), 8);
}

#[test]
fn pop_byte_takes_the_last_eight_bits_last_bit_first() {
    let mut v = bits_of("101 1100 0101");
    assert_eq!(pop_byte(&mut v), Some(0b1010_0011));
    assert_eq!(v, bits_of("101"));
}

#[test]
fn pop_byte_undoes_push_byte_up_to_bit_order() {
    for byte in [0u8, 1, 2, 0x61, 0x80, 0xF0, 0xFE, 0xFF] {
        let mut v = bits_of("0110");
        push_byte(&mut v, byte);
        assert_eq!(pop_byte(&mut v), Some(rev_byte(byte)));
        assert_eq!(v, bits_of("0110"));
    }
}

#[test]
fn pop_byte_needs_eight_bits() {
    let mut v = bits_of("1010101");
    assert_eq!(pop_byte(&mut v), None);
    assert_eq!(v, bits_of("1010101"));
    let mut empty = BitVec::new();
    assert_eq!(pop_byte(&mut empty), None);
    assert!(empty.is_empty());
}

#[test]
fn rev_byte_turns_the_bits_round() {
    assert_eq!(rev_byte(0b0000_0001), 0b1000_0000);
    assert_eq!(rev_byte(0b1000_0000), 0b0000_0001);
    assert_eq!(rev_byte(0b0110_0001), 0b1000_0110);
    assert_eq!(rev_byte(0), 0);
    assert_eq!(rev_byte(0xFF), 0xFF);
}

#[test]
fn rev_byte_twice_is_the_byte() {
    for byte in 0..=255u8 {
        assert_eq!(rev_byte(rev_byte(byte)), byte);
        assert_eq!(rev_byte(byte), byte.reverse_bits());
    }
}

#[test]
fn finalize_fills_up_to_a_full_byte() {
    let mut v = bits_of("1 0110 0001 0000");
    assert_eq!(finalize(&mut v), 3);
    assert_eq!(v, bits_of("1011 0000 1000 0000"));
}

#[test]
fn finalize_pad_counts() {
    for len in 0..40usize {
        let mut v = BitVec::from_elem(len, true);
        let pad = finalize(&mut v);
        assert_eq!(pad as usize, (8 - len % 8) % 8);
        assert_eq!(v.len(), len + pad as usize);
        assert_eq!(v.len() % 8, 0);
        for i in 0..v.len() {
            assert_eq!(v.get(i), Some(i < len));
        }
    }
}

#[test]
fn finalize_leaves_full_bytes_alone() {
    let mut v = BitVec::from_bytes(&[0xAB, 0xCD]);
    assert_eq!(finalize(&mut v), 0);
    assert_eq!(v.to_bytes(), vec![0xAB, 0xCD]);
    let mut empty = BitVec::new();
    assert_eq!(finalize(&mut empty), 0);
    assert!(empty.is_empty());
}

#[test]
fn valid_bits_drops_the_padding() {
    assert_eq!(valid_bits(&[0b1011_0000, 0b1000_0000], 3), Some(bits_of("1 0110 0001 0000")));
    assert_eq!(valid_bits(&[0xAB, 0xCD], 0), Some(BitVec::from_bytes(&[0xAB, 0xCD])));
    assert_eq!(valid_bits(&[0xFF], 7), Some(bits_of("1")));
}

#[test]
fn valid_bit_length_is_eight_per_byte_less_the_padding() {
    for len in 1..6usize {
        for pad in 0..=7u8 {
            let bytes = vec![0x5Au8; len];
            assert_eq!(valid_bits(&bytes, pad).unwrap().len(), len * 8 - pad as usize);
        }
    }
}

#[test]
fn valid_bits_refuses_a_padding_count_that_cannot_be() {
    assert_eq!(valid_bits(&[0xFF, 0xFF], 8), None);
    assert_eq!(valid_bits(&[0xFF, 0xFF], 255), None);
    assert_eq!(valid_bits(&[], 1), None);
    assert_eq!(valid_bits(&[], 0), Some(BitVec::new()));
}

#[test]
fn append_bits_keeps_both_orders() {
    let mut v = bits_of("101");
    append_bits(&mut v, &bits_of("0011 1"));
    assert_eq!(v, bits_of("1010 0111"));
    append_bits(&mut v, &BitVec::new());
    assert_eq!(v, bits_of("1010 0111"));
    let mut empty = BitVec::new();
    append_bits(&mut empty, &bits_of("110"));
    assert_eq!(empty, bits_of("110"));
}

#[test]
fn append_bits_across_block_borders() {
    let mut v = BitVec::from_elem(31, true);
    append_bits(&mut v, &BitVec::from_elem(35, false));
    append_bits(&mut v, &BitVec::from_elem(2, true));
    assert_eq!(v.len(), 68);
    for i in 0..68 {
        assert_eq!(v.get(i), Some(i < 31 || i >= 66));
    }
}
