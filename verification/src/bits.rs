//! The mathematical model of a bit stream that is stored in bytes, most
//! significant bit first, and the facts about it that the bit-level readers
//! and writers of this crate rely on.
use vstd::prelude::*;

verus! {

/// The byte with only bit `i` set, where bit 0 is the most significant one.
pub open spec fn mask(i: int) -> u8 {
    if i == 0 {
        0x80
    } else if i == 1 {
        0x40
    } else if i == 2 {
        0x20
    } else if i == 3 {
        0x10
    } else if i == 4 {
        0x08
    } else if i == 5 {
        0x04
    } else if i == 6 {
        0x02
    } else {
        0x01
    }
}

/// Bit `i` of `byte`, counted from the most significant end.
pub open spec fn bit_at(byte: u8, i: int) -> bool {
    byte & mask(i) != 0
}

/// The mask of bit `n` is the top bit moved down by `n` places.
pub proof fn lemma_mask_is_shift(n: u8)
    requires
        n < 8,
    ensures
        0x80u8 >> n == mask(n as int),
{
    assert(0x80u8 >> 0u8 == 0x80u8) by (bit_vector);
    assert(0x80u8 >> 1u8 == 0x40u8) by (bit_vector);
    assert(0x80u8 >> 2u8 == 0x20u8) by (bit_vector);
    assert(0x80u8 >> 3u8 == 0x10u8) by (bit_vector);
    assert(0x80u8 >> 4u8 == 0x08u8) by (bit_vector);
    assert(0x80u8 >> 5u8 == 0x04u8) by (bit_vector);
    assert(0x80u8 >> 6u8 == 0x02u8) by (bit_vector);
    assert(0x80u8 >> 7u8 == 0x01u8) by (bit_vector);
}

/// The byte with bit `i` set if `bit` holds, and no other bit set.
pub open spec fn place(bit: bool, i: int) -> u8 {
    if bit {
        mask(i)
    } else {
        0
    }
}

/// The eight bits of a byte, most significant first.
pub open spec fn byte_bits(byte: u8) -> Seq<bool> {
    Seq::new(8, |i: int| bit_at(byte, i))
}

/// The bits held by a sequence of bytes, in stream order.
pub open spec fn unpack(bytes: Seq<u8>) -> Seq<bool> {
    Seq::new(8 * bytes.len(), |i: int| bit_at(bytes[i / 8], i % 8))
}

/// `n` zero bits.
pub open spec fn zeros(n: nat) -> Seq<bool> {
    Seq::new(n, |i: int| false)
}

/// `n` one bits.
pub open spec fn ones(n: nat) -> Seq<bool> {
    Seq::new(n, |i: int| true)
}

/// The number of bits that must follow `len` bits to reach a byte boundary.
pub open spec fn pad_len(len: nat) -> nat {
    ((8 - len % 8) % 8) as nat
}

/// `bits` followed by as many zero bits as it takes to fill the last byte.
pub open spec fn pad_with_zeros(bits: Seq<bool>) -> Seq<bool> {
    bits + zeros(pad_len(bits.len()))
}

/// `bits` followed by as many one bits as it takes to fill the last byte.
pub open spec fn pad_with_ones(bits: Seq<bool>) -> Seq<bool> {
    bits + ones(pad_len(bits.len()))
}

/// The byte whose bits, most significant first, are `bits[at..at + 8]`.
pub open spec fn byte_of(bits: Seq<bool>, at: int) -> u8 {
    place(bits[at], 0) | place(bits[at + 1], 1) | place(bits[at + 2], 2) | place(bits[at + 3], 3)
        | place(bits[at + 4], 4) | place(bits[at + 5], 5) | place(bits[at + 6], 6) | place(
        bits[at + 7],
        7,
    )
}

/// The bytes that hold `bits`, the last byte filled up with zero bits.
pub open spec fn pack(bits: Seq<bool>) -> Seq<u8> {
    let padded = pad_with_zeros(bits);
    Seq::new(padded.len() / 8, |j: int| byte_of(padded, 8 * j))
}

/// The last `n` bits of a byte, most significant first.
pub open spec fn tail_bits(byte: u8, n: nat) -> Seq<bool> {
    Seq::new(n, |i: int| bit_at(byte, 8 - n + i))
}

/// Shifting a bit into a byte from the right moves every bit one place up
/// and puts the new bit last.
pub proof fn lemma_shift_in(byte: u8, bit: bool)
    ensures
        forall|j: int|
            1 <= j < 8 ==> bit_at((byte << 1) | place(bit, 7), j - 1) == #[trigger] bit_at(byte, j),
        bit_at((byte << 1) | place(bit, 7), 7) == bit,
{
    let b = place(bit, 7);
    let r = (byte << 1) | b;
    assert(((r & 0x80 != 0) == (byte & 0x40 != 0)) && ((r & 0x40 != 0) == (byte & 0x20 != 0)) && ((r
        & 0x20 != 0) == (byte & 0x10 != 0)) && ((r & 0x10 != 0) == (byte & 0x08 != 0)) && ((r
        & 0x08 != 0) == (byte & 0x04 != 0)) && ((r & 0x04 != 0) == (byte & 0x02 != 0)) && ((r
        & 0x02 != 0) == (byte & 0x01 != 0)) && ((r & 0x01 != 0) == (b != 0))) by (bit_vector)
        requires
            r == (byte << 1) | b,
            b == 0 || b == 1,
    ;
    assert forall|j: int| 1 <= j < 8 implies bit_at(r, j - 1) == #[trigger] bit_at(byte, j) by {
        if j == 1 {
        } else if j == 2 {
        } else if j == 3 {
        } else if j == 4 {
        } else if j == 5 {
        } else if j == 6 {
        } else {
        }
    }
}

/// Shifting a bit into a byte appends it to the byte's last bits.
pub proof fn lemma_tail_bits_push(byte: u8, bit: bool, n: nat)
    requires
        n < 8,
    ensures
        tail_bits((byte << 1) | place(bit, 7), n + 1) =~= tail_bits(byte, n).push(bit),
        tail_bits(byte, 8) =~= byte_bits(byte),
        tail_bits(byte, 0) =~= Seq::<bool>::empty(),
{
    lemma_shift_in(byte, bit);
    let after = (byte << 1) | place(bit, 7);
    let a = tail_bits(after, n + 1);
    let b = tail_bits(byte, n).push(bit);
    assert forall|i: int| 0 <= i < a.len() implies a[i] == b[i] by {
        if i < n {
            let j = 8 - n + i;
            assert(bit_at(after, j - 1) == bit_at(byte, j));
        }
    }
}

/// Appending a byte appends its eight bits.
pub proof fn lemma_unpack_push(bytes: Seq<u8>, byte: u8)
    ensures
        unpack(bytes.push(byte)) =~= unpack(bytes) + byte_bits(byte),
{
    let a = unpack(bytes.push(byte));
    let b = unpack(bytes) + byte_bits(byte);
    assert(a.len() == b.len());
    assert forall|i: int| 0 <= i < a.len() implies a[i] == b[i] by {
        if i < 8 * bytes.len() {
            assert(bytes.push(byte)[i / 8] == bytes[i / 8]);
        } else {
            assert(i / 8 == bytes.len());
            assert(i % 8 == i - 8 * bytes.len());
        }
    }
}

/// A byte is determined by its eight bits.
pub proof fn lemma_byte_bits_injective(a: u8, b: u8)
    requires
        byte_bits(a) == byte_bits(b),
    ensures
        a == b,
{
    assert forall|i: int| 0 <= i < 8 implies bit_at(a, i) == bit_at(b, i) by {
        assert(byte_bits(a)[i] == bit_at(a, i));
        assert(byte_bits(b)[i] == bit_at(b, i));
    }
    assert(bit_at(a, 0) == bit_at(b, 0));
    assert(bit_at(a, 1) == bit_at(b, 1));
    assert(bit_at(a, 2) == bit_at(b, 2));
    assert(bit_at(a, 3) == bit_at(b, 3));
    assert(bit_at(a, 4) == bit_at(b, 4));
    assert(bit_at(a, 5) == bit_at(b, 5));
    assert(bit_at(a, 6) == bit_at(b, 6));
    assert(bit_at(a, 7) == bit_at(b, 7));
    assert(a == b) by (bit_vector)
        requires
            (a & 0x80 != 0) == (b & 0x80 != 0),
            (a & 0x40 != 0) == (b & 0x40 != 0),
            (a & 0x20 != 0) == (b & 0x20 != 0),
            (a & 0x10 != 0) == (b & 0x10 != 0),
            (a & 0x08 != 0) == (b & 0x08 != 0),
            (a & 0x04 != 0) == (b & 0x04 != 0),
            (a & 0x02 != 0) == (b & 0x02 != 0),
            (a & 0x01 != 0) == (b & 0x01 != 0),
    ;
}

/// Two byte sequences that hold the same bits are the same.
pub proof fn lemma_unpack_injective(a: Seq<u8>, b: Seq<u8>)
    requires
        unpack(a) == unpack(b),
    ensures
        a == b,
{
    assert(8 * a.len() == unpack(a).len());
    assert(8 * b.len() == unpack(b).len());
    assert(a.len() == b.len());
    assert forall|j: int| 0 <= j < a.len() implies a[j] == b[j] by {
        assert forall|k: int| 0 <= k < 8 implies bit_at(a[j], k) == bit_at(b[j], k) by {
            let i = 8 * j + k;
            assert(i / 8 == j && i % 8 == k);
            assert(unpack(a)[i] == bit_at(a[i / 8], i % 8));
            assert(unpack(b)[i] == bit_at(b[i / 8], i % 8));
        }
        assert(byte_bits(a[j]) =~= byte_bits(b[j]));
        lemma_byte_bits_injective(a[j], b[j]);
    }
    assert(a =~= b);
}

/// The byte built from eight bits has exactly those bits.
pub proof fn lemma_byte_of_bits(bits: Seq<bool>, at: int)
    requires
        0 <= at,
        at + 8 <= bits.len(),
    ensures
        byte_bits(byte_of(bits, at)) =~= bits.subrange(at, at + 8),
{
    let x0 = place(bits[at], 0);
    let x1 = place(bits[at + 1], 1);
    let x2 = place(bits[at + 2], 2);
    let x3 = place(bits[at + 3], 3);
    let x4 = place(bits[at + 4], 4);
    let x5 = place(bits[at + 5], 5);
    let x6 = place(bits[at + 6], 6);
    let x7 = place(bits[at + 7], 7);
    let v = x0 | x1 | x2 | x3 | x4 | x5 | x6 | x7;
    assert(v == byte_of(bits, at));
    assert(((v & 0x80 != 0) == (x0 != 0)) && ((v & 0x40 != 0) == (x1 != 0)) && ((v & 0x20 != 0) == (x2
        != 0)) && ((v & 0x10 != 0) == (x3 != 0)) && ((v & 0x08 != 0) == (x4 != 0)) && ((v & 0x04
        != 0) == (x5 != 0)) && ((v & 0x02 != 0) == (x6 != 0)) && ((v & 0x01 != 0) == (x7 != 0)))
        by (bit_vector)
        requires
            v == x0 | x1 | x2 | x3 | x4 | x5 | x6 | x7,
            x0 == 0x80 || x0 == 0,
            x1 == 0x40 || x1 == 0,
            x2 == 0x20 || x2 == 0,
            x3 == 0x10 || x3 == 0,
            x4 == 0x08 || x4 == 0,
            x5 == 0x04 || x5 == 0,
            x6 == 0x02 || x6 == 0,
            x7 == 0x01 || x7 == 0,
    ;
    assert forall|k: int| 0 <= k < 8 implies byte_bits(v)[k] == bits.subrange(at, at + 8)[k] by {
        assert(bits.subrange(at, at + 8)[k] == bits[at + k]);
    }
}

/// A byte that has the eight given bits is the byte built from them.
pub proof fn lemma_byte_from_bits(byte: u8, bits: Seq<bool>)
    requires
        bits.len() == 8,
        forall|i: int| 0 <= i < 8 ==> #[trigger] bit_at(byte, i) == bits[i],
    ensures
        byte == byte_of(bits, 0),
{
    lemma_byte_of_bits(bits, 0);
    assert(bits.subrange(0, 8) =~= bits);
    assert(byte_bits(byte) =~= bits);
    lemma_byte_bits_injective(byte, byte_of(bits, 0));
}

/// No bit of the zero byte is set.
pub proof fn lemma_zero_byte()
    ensures
        forall|i: int| 0 <= i < 8 ==> !#[trigger] bit_at(0u8, i),
{
    assert(0u8 & 0x80u8 == 0 && 0u8 & 0x40u8 == 0 && 0u8 & 0x20u8 == 0 && 0u8 & 0x10u8 == 0 && 0u8
        & 0x08u8 == 0 && 0u8 & 0x04u8 == 0 && 0u8 & 0x02u8 == 0 && 0u8 & 0x01u8 == 0)
        by (bit_vector);
}

/// Unpacking packed bits gives the bits back, followed by the zero bits that
/// filled the last byte.
pub proof fn lemma_unpack_pack(bits: Seq<bool>)
    ensures
        unpack(pack(bits)) =~= pad_with_zeros(bits),
{
    let padded = pad_with_zeros(bits);
    assert(padded.len() % 8 == 0);
    let bytes = pack(bits);
    assert(8 * bytes.len() == padded.len());
    assert forall|i: int| 0 <= i < padded.len() implies unpack(bytes)[i] == padded[i] by {
        let j = i / 8;
        let k = i % 8;
        lemma_byte_of_bits(padded, 8 * j);
        assert(byte_bits(bytes[j])[k] == padded.subrange(8 * j, 8 * j + 8)[k]);
    }
}

/// The bytes that hold a whole number of bytes' worth of bits are their
/// packing.
pub proof fn lemma_pack_unique(bytes: Seq<u8>, bits: Seq<bool>)
    requires
        unpack(bytes) == pad_with_zeros(bits),
    ensures
        bytes == pack(bits),
{
    lemma_unpack_pack(bits);
    lemma_unpack_injective(bytes, pack(bits));
}

} // verus!
