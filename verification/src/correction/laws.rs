//! What the extended Hamming code achieves: a clean word gives its data
//! back, a word with one flipped bit is corrected, and a word with two
//! flipped bits is found out.
use vstd::prelude::*;
use crate::bits::{bit_at, byte_of, mask, place, lemma_byte_from_bits, lemma_byte_of_bits, byte_bits};
use crate::correction::blocks::{joined, lower_half, upper_half};
use crate::correction::hamming::{
    check_bit,
    code_bit,
    code_word,
    data_bit,
    decoded_data,
    flipped_bit,
    has_double_error,
    parity,
    syndrome,
};

verus! {

/// The value of a check bit in the syndrome.
pub open spec fn check_value(code: u8, i: int) -> int {
    if check_bit(code, i) {
        mask(i) as int
    } else {
        0
    }
}

/// The bits of a byte built from bits are those bits.
pub proof fn lemma_built_bits(bits: Seq<bool>, i: int)
    requires
        bits.len() == 8,
        0 <= i < 8,
    ensures
        bit_at(byte_of(bits, 0), i) == bits[i],
{
    lemma_byte_of_bits(bits, 0);
    assert(byte_bits(byte_of(bits, 0))[i] == bits.subrange(0, 8)[i]);
}

/// The bits of a code word, of a syndrome and of decoded data are the
/// bits that define them.
pub proof fn lemma_bits_of_words(data: u8, code: u8)
    ensures
        forall|i: int| 0 <= i < 8 ==> #[trigger] bit_at(code_word(data), i) == code_bit(data, i),
        forall|i: int| 0 <= i < 8 ==> #[trigger] bit_at(syndrome(code), i) == check_bit(code, i),
        forall|i: int|
            0 <= i < 8 ==> #[trigger] bit_at(decoded_data(code), i) == data_bit(
                code,
                syndrome(code),
                i,
            ),
{
    assert forall|i: int| 0 <= i < 8 implies #[trigger] bit_at(code_word(data), i) == code_bit(
        data,
        i,
    ) by {
        lemma_built_bits(Seq::new(8, |k: int| code_bit(data, k)), i);
    }
    assert forall|i: int| 0 <= i < 8 implies #[trigger] bit_at(syndrome(code), i) == check_bit(
        code,
        i,
    ) by {
        lemma_built_bits(Seq::new(8, |k: int| check_bit(code, k)), i);
    }
    assert forall|i: int| 0 <= i < 8 implies #[trigger] bit_at(decoded_data(code), i) == data_bit(
        code,
        syndrome(code),
        i,
    ) by {
        lemma_built_bits(Seq::new(8, |k: int| data_bit(code, syndrome(code), k)), i);
    }
}

/// The syndrome is the sum of the values of its four check bits.
pub proof fn lemma_syndrome_value(code: u8)
    ensures
        syndrome(code) == check_value(code, 0) + check_value(code, 1) + check_value(code, 2)
            + check_value(code, 3),
{
    let x0 = place(check_bit(code, 0), 0);
    let x1 = place(check_bit(code, 1), 1);
    let x2 = place(check_bit(code, 2), 2);
    let x3 = place(check_bit(code, 3), 3);
    let x4 = place(check_bit(code, 4), 4);
    let x5 = place(check_bit(code, 5), 5);
    let x6 = place(check_bit(code, 6), 6);
    let x7 = place(check_bit(code, 7), 7);
    let v = x0 | x1 | x2 | x3 | x4 | x5 | x6 | x7;
    assert(v == syndrome(code));
    assert(v == x0 + x1 + x2 + x3) by (bit_vector)
        requires
            v == x0 | x1 | x2 | x3 | x4 | x5 | x6 | x7,
            x0 == 0x80 || x0 == 0,
            x1 == 0x40 || x1 == 0,
            x2 == 0x20 || x2 == 0,
            x3 == 0x10 || x3 == 0,
            x4 == 0,
            x5 == 0,
            x6 == 0,
            x7 == 0,
    ;
}

/// Flipping bit `e` of a byte changes that bit and no other.
pub proof fn lemma_flip(byte: u8, e: int)
    requires
        0 <= e < 8,
    ensures
        forall|i: int|
            0 <= i < 8 ==> #[trigger] bit_at(byte ^ mask(e), i) == (bit_at(byte, i) != (i == e)),
{
    let m = mask(e);
    let flipped = byte ^ m;
    assert forall|i: int| 0 <= i < 8 implies #[trigger] bit_at(flipped, i) == (bit_at(byte, i) != (i
        == e)) by {
        let q = mask(i);
        assert((flipped & q != 0) == ((byte & q != 0) != (q == m))) by (bit_vector)
            requires
                flipped == byte ^ m,
                m == 0x80 || m == 0x40 || m == 0x20 || m == 0x10 || m == 0x08 || m == 0x04 || m
                    == 0x02 || m == 0x01,
                q == 0x80 || q == 0x40 || q == 0x20 || q == 0x10 || q == 0x08 || q == 0x04 || q
                    == 0x02 || q == 0x01,
        ;
    }
}

/// The upper four bits of a byte, as bits.
pub proof fn lemma_upper_bits(byte: u8)
    ensures
        forall|i: int|
            0 <= i < 8 ==> #[trigger] bit_at(byte & 0xF0, i) == (i < 4 && bit_at(byte, i)),
{
    let upper = byte & 0xF0;
    assert(((upper & 0x80 != 0) == (byte & 0x80 != 0)) && ((upper & 0x40 != 0) == (byte & 0x40 != 0))
        && ((upper & 0x20 != 0) == (byte & 0x20 != 0)) && ((upper & 0x10 != 0) == (byte & 0x10
        != 0)) && (upper & 0x08 == 0) && (upper & 0x04 == 0) && (upper & 0x02 == 0) && (upper
        & 0x01 == 0)) by (bit_vector)
        requires
            upper == byte & 0xF0,
    ;
}

/// A byte with the given data bits in its upper half and nothing in its
/// lower half is the upper half of the data.
proof fn lemma_data_restored(data: u8, decoded: u8)
    requires
        forall|i: int|
            0 <= i < 8 ==> #[trigger] bit_at(decoded, i) == (i < 4 && bit_at(data, i)),
    ensures
        decoded == data & 0xF0,
{
    lemma_upper_bits(data);
    let bits = Seq::new(8, |i: int| i < 4 && bit_at(data, i));
    lemma_byte_from_bits(decoded, bits);
    lemma_byte_from_bits(data & 0xF0, bits);
}

/// A code word that arrives as it was sent decodes to the data that it
/// was made from, without an error being reported.
pub proof fn lemma_clean_word_decodes(data: u8)
    ensures
        decoded_data(code_word(data)) == data & 0xF0,
        !has_double_error(code_word(data)),
        syndrome(code_word(data)) == 0,
{
    let word = code_word(data);
    lemma_bits_of_words(data, word);
    lemma_syndrome_value(word);
    reveal_with_fuel(parity, 9);
    assert(!check_bit(word, 0) && !check_bit(word, 1) && !check_bit(word, 2) && !check_bit(
        word,
        3,
    ));
    assert forall|i: int| 0 <= i < 8 implies #[trigger] bit_at(decoded_data(word), i) == (i < 4
        && bit_at(data, i)) by {
        assert(bit_at(decoded_data(word), i) == data_bit(word, syndrome(word), i));
    }
    lemma_data_restored(data, decoded_data(word));
}

/// A code word of which one bit was flipped on the way still decodes to
/// the data that it was made from, without an error being reported.
pub proof fn lemma_single_error_corrected(data: u8, e: int)
    requires
        0 <= e < 8,
    ensures
        decoded_data(code_word(data) ^ mask(e)) == data & 0xF0,
        !has_double_error(code_word(data) ^ mask(e)),
        flipped_bit(syndrome(code_word(data) ^ mask(e))) == Some(e as u8),
{
    let word = code_word(data);
    let received = word ^ mask(e);
    lemma_bits_of_words(data, received);
    lemma_flip(word, e);
    lemma_syndrome_value(received);
    reveal_with_fuel(parity, 9);
    assert forall|i: int| 0 <= i < 8 implies bit_at(received, i) == (code_bit(data, i) != (i
        == e)) by {
        assert(bit_at(word ^ mask(e), i) == (bit_at(word, i) != (i == e)));
        assert(bit_at(code_word(data), i) == code_bit(data, i));
    }
    assert(bit_at(received, 0) == (code_bit(data, 0) != (0 == e)));
    assert(bit_at(received, 1) == (code_bit(data, 1) != (1 == e)));
    assert(bit_at(received, 2) == (code_bit(data, 2) != (2 == e)));
    assert(bit_at(received, 3) == (code_bit(data, 3) != (3 == e)));
    assert(bit_at(received, 4) == (code_bit(data, 4) != (4 == e)));
    assert(bit_at(received, 5) == (code_bit(data, 5) != (5 == e)));
    assert(bit_at(received, 6) == (code_bit(data, 6) != (6 == e)));
    assert(bit_at(received, 7) == (code_bit(data, 7) != (7 == e)));
    assert(flipped_bit(syndrome(received)) == Some(e as u8));
    assert forall|i: int| 0 <= i < 8 implies #[trigger] bit_at(decoded_data(received), i) == (i < 4
        && bit_at(data, i)) by {
        assert(bit_at(decoded_data(received), i) == data_bit(received, syndrome(received), i));
    }
    lemma_data_restored(data, decoded_data(received));
}

/// A code word of which two bits were flipped on the way is reported as
/// having an error that no single flipped bit explains.
pub proof fn lemma_double_error_detected(data: u8, e1: int, e2: int)
    requires
        0 <= e1 < 8,
        0 <= e2 < 8,
        e1 != e2,
    ensures
        has_double_error(code_word(data) ^ mask(e1) ^ mask(e2)),
{
    let word = code_word(data);
    let once = word ^ mask(e1);
    let received = once ^ mask(e2);
    lemma_bits_of_words(data, received);
    lemma_flip(word, e1);
    lemma_flip(once, e2);
    lemma_syndrome_value(received);
    reveal_with_fuel(parity, 9);
    assert forall|i: int| 0 <= i < 8 implies bit_at(received, i) == ((code_bit(data, i) != (i
        == e1)) != (i == e2)) by {
        assert(bit_at(once ^ mask(e2), i) == (bit_at(once, i) != (i == e2)));
        assert(bit_at(word ^ mask(e1), i) == (bit_at(word, i) != (i == e1)));
        assert(bit_at(code_word(data), i) == code_bit(data, i));
    }
    assert(bit_at(received, 0) == ((code_bit(data, 0) != (0 == e1)) != (0 == e2)));
    assert(bit_at(received, 1) == ((code_bit(data, 1) != (1 == e1)) != (1 == e2)));
    assert(bit_at(received, 2) == ((code_bit(data, 2) != (2 == e1)) != (2 == e2)));
    assert(bit_at(received, 3) == ((code_bit(data, 3) != (3 == e1)) != (3 == e2)));
    assert(bit_at(received, 4) == ((code_bit(data, 4) != (4 == e1)) != (4 == e2)));
    assert(bit_at(received, 5) == ((code_bit(data, 5) != (5 == e1)) != (5 == e2)));
    assert(bit_at(received, 6) == ((code_bit(data, 6) != (6 == e1)) != (6 == e2)));
    assert(bit_at(received, 7) == ((code_bit(data, 7) != (7 == e1)) != (7 == e2)));
    assert(!check_bit(received, 3));
    assert(check_bit(received, 0) || check_bit(received, 1) || check_bit(received, 2));
}

/// A byte that travels as two code words arrives as it was sent if both
/// words arrive as they were sent.
pub proof fn lemma_byte_restored(byte: u8)
    ensures
        joined(code_word(upper_half(byte)), code_word(lower_half(byte))) == byte,
        !has_double_error(code_word(upper_half(byte))),
        !has_double_error(code_word(lower_half(byte))),
{
    let upper = upper_half(byte);
    let lower = lower_half(byte);
    lemma_clean_word_decodes(upper);
    lemma_clean_word_decodes(lower);
    let a = upper & 0xF0;
    let b = lower & 0xF0;
    assert(a | (b >> 4) == byte) by (bit_vector)
        requires
            a == (byte & 0xF0) & 0xF0,
            b == (byte << 4) & 0xF0,
    ;
}

/// A byte that travels as two code words arrives as it was sent even if
/// one bit of each word was flipped on the way.
pub proof fn lemma_byte_corrected(byte: u8, e1: int, e2: int)
    requires
        0 <= e1 < 8,
        0 <= e2 < 8,
    ensures
        joined(
            code_word(upper_half(byte)) ^ mask(e1),
            code_word(lower_half(byte)) ^ mask(e2),
        ) == byte,
{
    let upper = upper_half(byte);
    let lower = lower_half(byte);
    lemma_single_error_corrected(upper, e1);
    lemma_single_error_corrected(lower, e2);
    let a = upper & 0xF0;
    let b = lower & 0xF0;
    assert(a | (b >> 4) == byte) by (bit_vector)
        requires
            a == (byte & 0xF0) & 0xF0,
            b == (byte << 4) & 0xF0,
    ;
}

} // verus!
