//! The extended Hamming code that protects four data bits with four check
//! bits: it corrects any single flipped bit of a code word and detects any
//! two.
//!
//! Bits are counted from the most significant end of a byte. The data are
//! the four bits 0 to 3 of a byte.
use vstd::prelude::*;
use crate::bits::{bit_at, byte_of, lemma_mask_is_shift, lemma_byte_from_bits, lemma_zero_byte};

verus! {

/// Reading and writing single bits, bit 0 being the most significant one.
pub trait BitGetSet: Sized {
    /// Bit `pos` of the value.
    spec fn bit(&self, pos: int) -> bool;

    /// Reads bit `pos`.
    fn get(&self, pos: u8) -> (value: bool)
        requires
            pos < 8,
        ensures
            value == self.bit(pos as int),
    ;

    /// Sets bit `pos` to `value` and leaves the other bits as they are.
    fn set(&mut self, pos: u8, value: bool)
        requires
            pos < 8,
        ensures
            forall|i: int|
                0 <= i < 8 ==> #[trigger] final(self).bit(i) == (if i == pos {
                    value
                } else {
                    old(self).bit(i)
                }),
    ;
}

impl BitGetSet for u8 {
    open spec fn bit(&self, pos: int) -> bool {
        bit_at(*self, pos)
    }

    fn get(&self, pos: u8) -> (value: bool) {
        proof {
            lemma_mask_is_shift(pos);
        }
        let byte = *self;
        (byte & (0x80u8 >> pos)) != 0
    }

    fn set(&mut self, pos: u8, value: bool) {
        let byte = *self;
        let top: u8 = if value {
            0x80
        } else {
            0
        };
        let x: u8 = top >> pos;
        let m: u8 = 0x80u8 >> pos;
        let result: u8 = (byte & !m) | x;
        proof {
            lemma_mask_is_shift(pos);
            assert forall|i: int| 0 <= i < 8 implies #[trigger] bit_at(result, i) == (if i == pos {
                value
            } else {
                bit_at(byte, i)
            }) by {
                let q = i as u8;
                lemma_mask_is_shift(q);
                let mq: u8 = 0x80u8 >> q;
                assert((result & mq != 0) == (if q == pos {
                    top == 0x80u8
                } else {
                    byte & mq != 0
                })) by (bit_vector)
                    requires
                        result == (byte & !m) | x,
                        x == top >> pos,
                        m == 0x80u8 >> pos,
                        mq == 0x80u8 >> q,
                        top == 0x80u8 || top == 0u8,
                        pos < 8,
                        q < 8,
                ;
            }
        }
        *self = result;
    }
}

/// Whether an odd number of the first `n` bits of `byte` are set.
pub open spec fn parity(byte: u8, n: int) -> bool
    decreases n,
{
    if n <= 0 {
        false
    } else {
        parity(byte, n - 1) ^ bit_at(byte, n - 1)
    }
}

/// Bit `i` of the code word for the data bits of `data`.
pub open spec fn code_bit(data: u8, i: int) -> bool {
    let d0 = bit_at(data, 0);
    let d1 = bit_at(data, 1);
    let d2 = bit_at(data, 2);
    let d3 = bit_at(data, 3);
    if i == 0 {
        d0
    } else if i == 1 {
        d0 ^ d1
    } else if i == 2 {
        d1 ^ d2
    } else if i == 3 {
        d0 ^ d2 ^ d3
    } else if i == 4 {
        d1 ^ d3
    } else if i == 5 {
        d2
    } else if i == 6 {
        d3
    } else {
        d0 ^ (d0 ^ d1) ^ (d1 ^ d2) ^ (d0 ^ d2 ^ d3) ^ (d1 ^ d3) ^ d2 ^ d3
    }
}

/// Bit `i` of the syndrome of the received word `code`: three checks over
/// the code bits and, as bit 3, the parity of the whole word. The other
/// bits are zero.
pub open spec fn check_bit(code: u8, i: int) -> bool {
    if i == 0 {
        bit_at(code, 2) ^ bit_at(code, 4) ^ bit_at(code, 5) ^ bit_at(code, 6)
    } else if i == 1 {
        bit_at(code, 1) ^ bit_at(code, 3) ^ bit_at(code, 4) ^ bit_at(code, 5)
    } else if i == 2 {
        bit_at(code, 0) ^ bit_at(code, 2) ^ bit_at(code, 3) ^ bit_at(code, 4)
    } else if i == 3 {
        parity(code, 8)
    } else {
        false
    }
}

/// The code word for the four data bits of `data`.
pub open spec fn code_word(data: u8) -> u8 {
    byte_of(Seq::new(8, |i: int| code_bit(data, i)), 0)
}

/// The syndrome of the received word `code`.
pub open spec fn syndrome(code: u8) -> u8 {
    byte_of(Seq::new(8, |i: int| check_bit(code, i)), 0)
}

/// The position of the single flipped bit that gives the syndrome `check`,
/// if there is one.
pub open spec fn flipped_bit(check: u8) -> Option<u8> {
    if check == 48 {
        Some(0u8)
    } else if check == 80 {
        Some(1u8)
    } else if check == 176 {
        Some(2u8)
    } else if check == 112 {
        Some(3u8)
    } else if check == 240 {
        Some(4u8)
    } else if check == 208 {
        Some(5u8)
    } else if check == 144 {
        Some(6u8)
    } else if check == 16 {
        Some(7u8)
    } else {
        None
    }
}

/// Bit `i` of the received word `code` after the correction that its
/// syndrome `check` calls for.
pub open spec fn corrected_bit(code: u8, check: u8, i: int) -> bool {
    match flipped_bit(check) {
        Some(pos) => if check != 0 && i == pos {
            !bit_at(code, i)
        } else {
            bit_at(code, i)
        },
        None => bit_at(code, i),
    }
}

/// Bit `i` of the data decoded from `code`, whose syndrome is `check`.
pub open spec fn data_bit(code: u8, check: u8, i: int) -> bool {
    if i == 0 {
        corrected_bit(code, check, 0)
    } else if i == 1 {
        corrected_bit(code, check, 1) ^ corrected_bit(code, check, 0)
    } else if i == 2 {
        corrected_bit(code, check, 5)
    } else if i == 3 {
        corrected_bit(code, check, 6)
    } else {
        false
    }
}

/// The data decoded from the received word `code`, in bits 0 to 3.
pub open spec fn decoded_data(code: u8) -> u8 {
    byte_of(Seq::new(8, |i: int| data_bit(code, syndrome(code), i)), 0)
}

/// Whether the received word `code` has an error that no single flipped
/// bit explains.
pub open spec fn has_double_error(code: u8) -> bool {
    syndrome(code) != 0 && flipped_bit(syndrome(code)).is_none()
}

/// The code word for the four data bits of `data`.
pub fn code(data: u8) -> (word: u8)
    ensures
        word == code_word(data),
{
    let mut code: u8 = 0;
    proof {
        lemma_zero_byte();
    }
    code.set(0, data.get(0));
    code.set(1, data.get(0) ^ data.get(1));
    code.set(2, data.get(1) ^ data.get(2));
    code.set(3, data.get(0) ^ data.get(2) ^ data.get(3));
    code.set(4, data.get(1) ^ data.get(3));
    code.set(5, data.get(2));
    code.set(6, data.get(3));
    let ghost partial = code;
    proof {
        assert(partial.bit(0) == code_bit(data, 0));
        assert(partial.bit(1) == code_bit(data, 1));
        assert(partial.bit(2) == code_bit(data, 2));
        assert(partial.bit(3) == code_bit(data, 3));
        assert(partial.bit(4) == code_bit(data, 4));
        assert(partial.bit(5) == code_bit(data, 5));
        assert(partial.bit(6) == code_bit(data, 6));
    }
    let mut parity_bit = false;
    let mut i: u8 = 0;
    while i <= 6
        invariant
            i <= 7,
            code == partial,
            parity_bit == parity(code, i as int),
        decreases 7 - i,
    {
        parity_bit = parity_bit ^ code.get(i);
        i = i + 1;
    }
    proof {
        reveal_with_fuel(parity, 8);
    }
    code.set(7, parity_bit);
    proof {
        let bits = Seq::new(8, |i: int| code_bit(data, i));
        assert forall|i: int| 0 <= i < 8 implies #[trigger] bit_at(code, i) == bits[i] by {
            assert(code.bit(i) == if i == 7 {
                parity_bit
            } else {
                partial.bit(i)
            });
        }
        lemma_byte_from_bits(code, bits);
    }
    code
}

/// The syndrome of the received word `code`.
pub fn check(code: u8) -> (check: u8)
    ensures
        check == syndrome(code),
{
    let mut check: u8 = 0;
    proof {
        lemma_zero_byte();
    }
    check.set(0, code.get(2) ^ code.get(4) ^ code.get(5) ^ code.get(6));
    check.set(1, code.get(1) ^ code.get(3) ^ code.get(4) ^ code.get(5));
    check.set(2, code.get(0) ^ code.get(2) ^ code.get(3) ^ code.get(4));
    let mut parity_check = false;
    let mut i: u8 = 0;
    while i <= 7
        invariant
            i <= 8,
            parity_check == parity(code, i as int),
        decreases 8 - i,
    {
        parity_check = parity_check ^ code.get(i);
        i = i + 1;
    }
    check.set(3, parity_check);
    proof {
        let bits = Seq::new(8, |i: int| check_bit(code, i));
        assert forall|i: int| 0 <= i < 8 implies #[trigger] bit_at(check, i) == bits[i] by {
            assert(check.bit(i) == check_bit(code, i));
        }
        lemma_byte_from_bits(check, bits);
    }
    check
}

/// The position of the bit to flip for the syndrome `check`, if a single
/// flipped bit explains it.
pub fn correction(check: u8) -> (pos: Option<u8>)
    ensures
        pos == flipped_bit(check),
        pos matches Some(p) ==> p < 8,
{
    match check {
        48 => Some(0),
        80 => Some(1),
        176 => Some(2),
        112 => Some(3),
        240 => Some(4),
        208 => Some(5),
        144 => Some(6),
        16 => Some(7),
        _ => None,
    }
}

/// Decodes the received word `code`: the data bits after correction, in
/// bits 0 to 3 of the first result, and whether the word has an error
/// that no single flipped bit explains.
pub fn decode(code: u8) -> (decoded: (u8, bool))
    ensures
        decoded.0 == decoded_data(code),
        decoded.1 == has_double_error(code),
{
    let mut code = code;
    let ghost received = code;
    let check = check(code);
    let mut double_error = false;
    if check != 0 {
        let correction = correction(check);
        match correction {
            Some(i) => {
                let x = code.get(i);
                code.set(i, !x);
            },
            None => {
                double_error = true;
            },
        }
    }
    assert forall|i: int| 0 <= i < 8 implies #[trigger] code.bit(i) == corrected_bit(
        received,
        check,
        i,
    ) by {}
    let mut decoded: u8 = 0;
    proof {
        lemma_zero_byte();
    }
    decoded.set(0, code.get(0));
    decoded.set(1, code.get(1) ^ code.get(0));
    decoded.set(2, code.get(5));
    decoded.set(3, code.get(6));
    proof {
        let bits = Seq::new(8, |i: int| data_bit(received, check, i));
        assert forall|i: int| 0 <= i < 8 implies #[trigger] bit_at(decoded, i) == bits[i] by {
            assert(decoded.bit(i) == data_bit(received, check, i));
        }
        lemma_byte_from_bits(decoded, bits);
    }
    (decoded, double_error)
}

} // verus!
