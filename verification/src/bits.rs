//! Bit buffers: the `BitVec` of the `bit_vec` crate with the contracts that
//! the rest of the library relies on, and the byte-level helpers built on it.

use bit_vec::BitVec;
use vstd::prelude::*;

verus! {

/// The bit vector of the `bit_vec` crate, made known to the verifier as a
/// type whose inside it does not look into. All that is said of a value of
/// it is said through `bit_seq`.
#[verifier::external_type_specification]
#[verifier::external_body]
#[verifier::reject_recursive_types(B)]
pub struct ExBitVec<B>(BitVec<B>);

/// The bits that a bit buffer holds, first bit first: as many as `len`
/// says, the `i`-th as `get(i)` gives it. The contracts of the `bv_`
/// functions below say what each method of `BitVec` does to them.
pub uninterp spec fn bit_seq(v: BitVec) -> Seq<bool>;

/// The byte in which only bit `k` is set, counted from the most significant
/// bit; zero for a `k` outside `0..8`.
pub open spec fn mask(k: int) -> u8 {
    if k == 0 {
        0x80
    } else if k == 1 {
        0x40
    } else if k == 2 {
        0x20
    } else if k == 3 {
        0x10
    } else if k == 4 {
        0x08
    } else if k == 5 {
        0x04
    } else if k == 6 {
        0x02
    } else if k == 7 {
        0x01
    } else {
        0x00
    }
}

/// Bit `k` of `byte`, counted from the most significant bit.
pub open spec fn bit_of(byte: u8, k: int) -> bool {
    byte & mask(k) != 0
}

/// The eight bits of `byte`, most significant bit first.
pub open spec fn byte_bits(byte: u8) -> Seq<bool> {
    Seq::new(8, |k: int| bit_of(byte, k))
}

/// The bits of a byte sequence: eight per byte, most significant bit first.
pub open spec fn bytes_to_bits(bytes: Seq<u8>) -> Seq<bool> {
    Seq::new(8 * bytes.len(), |i: int| bit_of(bytes[i / 8], i % 8))
}

/// The bit that `bits` contributes to a byte at place `k`, counted from the
/// most significant bit: set only where `bits` has a `true` at index `k`.
pub open spec fn place(bits: Seq<bool>, k: int) -> u8 {
    if 0 <= k < bits.len() && bits[k] {
        mask(k)
    } else {
        0u8
    }
}

/// The byte made of up to eight bits, most significant bit first; bits that
/// `bits` does not hold count as zero.
pub open spec fn byte_from_bits(bits: Seq<bool>) -> u8 {
    place(bits, 0) | place(bits, 1) | place(bits, 2) | place(bits, 3) | place(bits, 4) | place(
        bits,
        5,
    ) | place(bits, 6) | place(bits, 7)
}

/// The bytes that hold `bits`, eight to a byte, most significant bit first,
/// the last byte filled up with zero bits.
pub open spec fn pack(bits: Seq<bool>) -> Seq<u8> {
    Seq::new(
        ((bits.len() + 7) / 8) as nat,
        |j: int|
            byte_from_bits(
                bits.subrange(8 * j, if 8 * j + 8 <= bits.len() {
                    8 * j + 8
                } else {
                    bits.len() as int
                }),
            ),
    )
}

/// Each bit of a byte made from bits is the bit it was made from.
pub proof fn lemma_bit_of_byte_from_bits(bits: Seq<bool>, k: int)
    requires
        0 <= k < 8,
    ensures
        bit_of(byte_from_bits(bits), k) == (k < bits.len() && bits[k]),
{
    let p0 = place(bits, 0);
    let p1 = place(bits, 1);
    let p2 = place(bits, 2);
    let p3 = place(bits, 3);
    let p4 = place(bits, 4);
    let p5 = place(bits, 5);
    let p6 = place(bits, 6);
    let p7 = place(bits, 7);
    let whole = p0 | p1 | p2 | p3 | p4 | p5 | p6 | p7;
    assert((p0 == 0 || p0 == 0x80) && (p1 == 0 || p1 == 0x40) && (p2 == 0 || p2 == 0x20) && (p3
        == 0 || p3 == 0x10) && (p4 == 0 || p4 == 0x08) && (p5 == 0 || p5 == 0x04) && (p6 == 0
        || p6 == 0x02) && (p7 == 0 || p7 == 0x01) && whole == p0 | p1 | p2 | p3 | p4 | p5 | p6
        | p7 ==> ((whole & 0x80 != 0) == (p0 != 0)) && ((whole & 0x40 != 0) == (p1 != 0)) && ((
    whole & 0x20 != 0) == (p2 != 0)) && ((whole & 0x10 != 0) == (p3 != 0)) && ((whole & 0x08
        != 0) == (p4 != 0)) && ((whole & 0x04 != 0) == (p5 != 0)) && ((whole & 0x02 != 0) == (p6
        != 0)) && ((whole & 0x01 != 0) == (p7 != 0))) by (bit_vector);
}

/// A byte is made again from its own eight bits.
pub proof fn lemma_byte_from_its_bits(byte: u8)
    ensures
        byte_from_bits(byte_bits(byte)) == byte,
{
    let bits = byte_bits(byte);
    assert(byte == (if byte & 0x80 != 0 {
        0x80u8
    } else {
        0u8
    }) | (if byte & 0x40 != 0 {
        0x40u8
    } else {
        0u8
    }) | (if byte & 0x20 != 0 {
        0x20u8
    } else {
        0u8
    }) | (if byte & 0x10 != 0 {
        0x10u8
    } else {
        0u8
    }) | (if byte & 0x08 != 0 {
        0x08u8
    } else {
        0u8
    }) | (if byte & 0x04 != 0 {
        0x04u8
    } else {
        0u8
    }) | (if byte & 0x02 != 0 {
        0x02u8
    } else {
        0u8
    }) | (if byte & 0x01 != 0 {
        0x01u8
    } else {
        0u8
    })) by (bit_vector);
}

/// How many bits are missing from `len` bits to the next full byte.
pub open spec fn pad_count(len: nat) -> nat {
    ((8 - len % 8) % 8) as nat
}

/// `n` bits that are all zero.
pub open spec fn zeros(n: nat) -> Seq<bool> {
    Seq::new(n, |i: int| false)
}

/// The bits of the bytes that hold `bits` are `bits`, filled up with zero
/// bits to a full byte.
pub proof fn lemma_unpack_pack(bits: Seq<bool>)
    ensures
        bytes_to_bits(pack(bits)) == bits + zeros(pad_count(bits.len())),
        pack(bits).len() * 8 == bits.len() + pad_count(bits.len()),
{
    let bytes = pack(bits);
    let filled = bits + zeros(pad_count(bits.len()));
    assert forall|i: int| 0 <= i < 8 * bytes.len() implies bytes_to_bits(bytes)[i] == filled[i] by {
        let j = i / 8;
        let k = i % 8;
        let part = bits.subrange(8 * j, if 8 * j + 8 <= bits.len() {
            8 * j + 8
        } else {
            bits.len() as int
        });
        lemma_bit_of_byte_from_bits(part, k);
    }
}

/// Bits that are filled up with zero bits to a full byte come back from
/// their bytes as they are, eight for each byte.
pub proof fn lemma_unpack_padded(bits: Seq<bool>)
    ensures
        pad_count(bits.len()) <= 7,
        pack(bits + zeros(pad_count(bits.len()))).len() * 8 == bits.len() + pad_count(bits.len()),
        bytes_to_bits(pack(bits + zeros(pad_count(bits.len())))) == bits + zeros(
            pad_count(bits.len()),
        ),
{
    let padded = bits + zeros(pad_count(bits.len()));
    assert(padded.len() == bits.len() + pad_count(bits.len()));
    assert(pad_count(padded.len()) == 0);
    lemma_unpack_pack(padded);
    assert(padded + zeros(0) =~= padded);
}

/// The bits of the first `n` bytes are the first `8 * n` bits of all bytes.
pub proof fn lemma_bytes_to_bits_take(bytes: Seq<u8>, n: int)
    requires
        0 <= n <= bytes.len(),
    ensures
        bytes_to_bits(bytes.take(n)) == bytes_to_bits(bytes).take(8 * n),
{
    assert forall|i: int| 0 <= i < 8 * n implies bytes_to_bits(bytes.take(n))[i] == bytes_to_bits(
        bytes,
    ).take(8 * n)[i] by {
        assert(bytes.take(n)[i / 8] == bytes[i / 8]);
    }
    assert(bytes_to_bits(bytes.take(n)) =~= bytes_to_bits(bytes).take(8 * n));
}

/// `BitVec::new`: a buffer that holds no bits.
#[verifier::external_body]
pub(crate) fn bv_new() -> (v: BitVec)
    ensures
        bit_seq(v) == Seq::<bool>::empty(),
{
    BitVec::new()
}

/// `BitVec::len`: the number of bits held.
#[verifier::external_body]
pub(crate) fn bv_len(v: &BitVec) -> (n: usize)
    ensures
        n == bit_seq(*v).len(),
{
    v.len()
}

/// `BitVec::push`: appends one bit at the end. The crate panics when the
/// length would pass `usize::MAX`, which the precondition rules out.
#[verifier::external_body]
pub(crate) fn bv_push(v: &mut BitVec, bit: bool)
    requires
        bit_seq(*old(v)).len() < usize::MAX,
    ensures
        bit_seq(*final(v)) == bit_seq(*old(v)).push(bit),
{
    v.push(bit)
}

/// `BitVec::pop`: removes the last bit and returns it; on an empty buffer it
/// returns `None` and changes nothing.
#[verifier::external_body]
pub(crate) fn bv_pop(v: &mut BitVec) -> (bit: Option<bool>)
    ensures
        match bit {
            Some(b) => bit_seq(*old(v)).len() > 0 && b == bit_seq(*old(v)).last() && bit_seq(
                *final(v),
            ) == bit_seq(*old(v)).drop_last(),
            None => bit_seq(*old(v)).len() == 0 && bit_seq(*final(v)) == bit_seq(*old(v)),
        },
{
    v.pop()
}

/// `BitVec::get`: the bit at index `i`, or `None` past the end.
#[verifier::external_body]
pub(crate) fn bv_get(v: &BitVec, i: usize) -> (bit: Option<bool>)
    ensures
        bit == if i < bit_seq(*v).len() {
            Some(bit_seq(*v)[i as int])
        } else {
            None
        },
{
    v.get(i)
}

/// `BitVec::split_off`: keeps the first `at` bits in `v` and returns the
/// rest. The crate panics when `at` is past the end.
#[verifier::external_body]
pub(crate) fn bv_split_off(v: &mut BitVec, at: usize) -> (rest: BitVec)
    requires
        at <= bit_seq(*old(v)).len(),
    ensures
        bit_seq(*final(v)) == bit_seq(*old(v)).subrange(0, at as int),
        bit_seq(rest) == bit_seq(*old(v)).subrange(at as int, bit_seq(*old(v)).len() as int),
{
    v.split_off(at)
}

/// `BitVec::clone`: a buffer with the same bits.
#[verifier::external_body]
pub(crate) fn bv_clone(v: &BitVec) -> (copy: BitVec)
    ensures
        bit_seq(copy) == bit_seq(*v),
{
    v.clone()
}

/// `BitVec::from_bytes`: each byte becomes eight bits, most significant bit
/// first. The crate panics when eight times the length overflows.
#[verifier::external_body]
pub(crate) fn bv_from_bytes(bytes: &[u8]) -> (v: BitVec)
    requires
        bytes@.len() * 8 <= usize::MAX,
    ensures
        bit_seq(v) == bytes_to_bits(bytes@),
{
    BitVec::from_bytes(bytes)
}

/// `BitVec::to_bytes`: the first bit becomes the high-order bit of the first
/// byte; a last byte that is not full is filled up with zero bits.
#[verifier::external_body]
pub(crate) fn bv_to_bytes(v: &BitVec) -> (bytes: Vec<u8>)
    ensures
        bytes@ == pack(bit_seq(*v)),
{
    v.to_bytes()
}

/// The last eight bits of `bits`, last bit first: the order in which popping
/// hands them out.
pub open spec fn last_eight_reversed(bits: Seq<bool>) -> Seq<bool> {
    Seq::new(8, |k: int| bits[bits.len() - 1 - k])
}

/// Appends the bits of `other` to `v`, in their order, one by one.
///
/// `BitVec::append` is not called for this: it writes behind the last block
/// of the storage, and a buffer that `split_off` has returned can hold a
/// block behind its last bit, so that the appended bits would land too far
/// back. `get` and `push` go by the index of the bit and are right on every
/// buffer.
pub fn append_bits(v: &mut BitVec, other: &BitVec)
    requires
        bit_seq(*old(v)).len() + bit_seq(*other).len() <= usize::MAX,
    ensures
        bit_seq(*final(v)) == bit_seq(*old(v)) + bit_seq(*other),
{
    let n = bv_len(other);
    let mut i: usize = 0;
    while i < n
        invariant
            i <= n == bit_seq(*other).len(),
            bit_seq(*old(v)).len() + n <= usize::MAX,
            bit_seq(*v) == bit_seq(*old(v)) + bit_seq(*other).take(i as int),
        decreases n - i,
    {
        match bv_get(other, i) {
            Some(bit) => {
                bv_push(v, bit);
            },
            None => {},
        }
        i = i + 1;
        assert(bit_seq(*v) =~= bit_seq(*old(v)) + bit_seq(*other).take(i as int));
    }
    assert(bit_seq(*other).take(n as int) =~= bit_seq(*other));
}

/// Appends the eight bits of `byte`, most significant bit first.
pub fn push_byte(v: &mut BitVec, byte: u8)
    requires
        bit_seq(*old(v)).len() + 8 <= usize::MAX,
    ensures
        bit_seq(*final(v)) == bit_seq(*old(v)) + byte_bits(byte),
{
    let mut one: Vec<u8> = Vec::new();
    one.push(byte);
    let tail = bv_from_bytes(one.as_slice());
    assert(bit_seq(tail) =~= byte_bits(byte));
    append_bits(v, &tail);
}

/// Takes the last eight bits off `v` and returns the byte that they make in
/// the order in which they leave: the last bit of `v` becomes the most
/// significant bit. With fewer than eight bits, `v` is left as it is.
pub fn pop_byte(v: &mut BitVec) -> (byte: Option<u8>)
    ensures
        bit_seq(*old(v)).len() >= 8 ==> byte == Some(
            byte_from_bits(last_eight_reversed(bit_seq(*old(v)))),
        ) && bit_seq(*final(v)) == bit_seq(*old(v)).subrange(0, bit_seq(*old(v)).len() - 8),
        bit_seq(*old(v)).len() < 8 ==> byte.is_none() && bit_seq(*final(v)) == bit_seq(*old(v)),
{
    if bv_len(v) < 8 {
        return None;
    }
    let ghost before = bit_seq(*v);
    let mut taken = bv_new();
    let mut k: usize = 0;
    while k < 8
        invariant
            k <= 8,
            before.len() >= 8,
            bit_seq(*v) == before.subrange(0, before.len() - k),
            bit_seq(taken) == last_eight_reversed(before).subrange(0, k as int),
        decreases 8 - k,
    {
        let bit = bv_pop(v);
        match bit {
            Some(b) => {
                bv_push(&mut taken, b);
            },
            None => {},
        }
        k = k + 1;
    }
    let bytes = bv_to_bytes(&taken);
    Some(bytes[0])
}

/// The byte with the bits of `byte` in the opposite order.
pub fn rev_byte(byte: u8) -> (rev: u8)
    ensures
        forall|k: int| 0 <= k < 8 ==> bit_of(rev, k) == bit_of(byte, 7 - k),
{
    let mut one: Vec<u8> = Vec::new();
    one.push(byte);
    let mut bits = bv_from_bytes(one.as_slice());
    let popped = pop_byte(&mut bits);
    let rev = match popped {
        Some(r) => r,
        None => byte,
    };
    proof {
        let turned = last_eight_reversed(byte_bits(byte));
        assert forall|k: int| 0 <= k < 8 implies bit_of(rev, k) == bit_of(byte, 7 - k) by {
            lemma_bit_of_byte_from_bits(turned, k);
        }
    }
    rev
}

/// Fills `v` up with zero bits to the next full byte and returns how many
/// bits that took.
pub fn finalize(v: &mut BitVec) -> (pad: u8)
    requires
        bit_seq(*old(v)).len() + 7 <= usize::MAX,
    ensures
        pad == pad_count(bit_seq(*old(v)).len()),
        pad <= 7,
        bit_seq(*final(v)) == bit_seq(*old(v)) + zeros(pad as nat),
{
    let len = bv_len(v);
    let pad: u8 = ((8 - len % 8) % 8) as u8;
    let mut k: u8 = 0;
    while k < pad
        invariant
            k <= pad <= 7,
            bit_seq(*old(v)).len() + 7 <= usize::MAX,
            bit_seq(*v) == bit_seq(*old(v)) + zeros(k as nat),
        decreases pad - k,
    {
        bv_push(v, false);
        k = k + 1;
    }
    pad
}

/// The bits of `bytes` that count when the last `pad` bits are padding:
/// all but these. There is no such reading where `pad` is above seven or
/// above the number of bits.
pub fn valid_bits(bytes: &[u8], pad: u8) -> (v: Option<BitVec>)
    requires
        bytes@.len() * 8 <= usize::MAX,
    ensures
        match v {
            Some(stream) => pad <= 7 && pad <= bytes@.len() * 8 && bit_seq(stream)
                == bytes_to_bits(bytes@).take(bytes@.len() * 8 - pad),
            None => pad > 7 || pad > bytes@.len() * 8,
        },
{
    if pad > 7 || (bytes.len() == 0 && pad > 0) {
        return None;
    }
    let mut stream = bv_from_bytes(bytes);
    let ghost bits = bit_seq(stream);
    let mut k: u8 = 0;
    while k < pad
        invariant
            k <= pad <= 7,
            pad <= bits.len(),
            bit_seq(stream) == bits.take(bits.len() - k),
        decreases pad - k,
    {
        let _ = bv_pop(&mut stream);
        k = k + 1;
    }
    Some(stream)
}

} // verus!
