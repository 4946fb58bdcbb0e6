//! Protecting whole byte sequences: every byte travels as two code words,
//! one for its upper and one for its lower four bits.
use vstd::prelude::*;
use crate::correction::hamming::{code, decode, code_word, decoded_data, has_double_error};

verus! {

/// The byte that holds the lower four bits of `byte` as its upper four.
pub open spec fn lower_half(byte: u8) -> u8 {
    byte << 4
}

/// The byte that holds only the upper four bits of `byte`.
pub open spec fn upper_half(byte: u8) -> u8 {
    byte & 0xF0
}

/// The byte whose upper four bits are the data of the received word
/// `first` and whose lower four bits are the data of `second`.
pub open spec fn joined(first: u8, second: u8) -> u8 {
    decoded_data(first) | (decoded_data(second) >> 4)
}

/// How many of the received words `coded` have an error that no single
/// flipped bit explains.
pub open spec fn double_errors(coded: Seq<u8>) -> nat
    decreases coded.len(),
{
    if coded.len() == 0 {
        0
    } else {
        double_errors(coded.drop_last()) + if has_double_error(coded.last()) {
            1nat
        } else {
            0nat
        }
    }
}

/// How many of the halves of the bytes of `a` differ from the halves of
/// the bytes of `b` in the same place; both must have the same length.
pub open spec fn differing_halves(a: Seq<u8>, b: Seq<u8>) -> nat
    decreases a.len(),
{
    if a.len() == 0 {
        0
    } else {
        differing_halves(a.drop_last(), b.drop_last()) + (if upper_half(a.last()) != upper_half(
            b.last(),
        ) {
            1nat
        } else {
            0nat
        }) + (if lower_half(a.last()) != lower_half(b.last()) {
            1nat
        } else {
            0nat
        })
    }
}

/// Word `j` of the code words for `data`: two for each byte, first that
/// of its upper four bits.
pub open spec fn word_at(data: Seq<u8>, j: int) -> u8 {
    if j % 2 == 0 {
        code_word(upper_half(data[j / 2]))
    } else {
        code_word(lower_half(data[j / 2]))
    }
}

/// The code words for `data`: two for each byte, first that of its upper
/// four bits.
pub fn code_bytes(data: &[u8]) -> (coded: Vec<u8>)
    ensures
        coded@.len() == 2 * data@.len(),
        forall|j: int| 0 <= j < coded@.len() ==> #[trigger] coded@[j] == word_at(data@, j),
{
    let mut coded: Vec<u8> = Vec::new();
    let mut i: usize = 0;
    while i < data.len()
        invariant
            i <= data@.len(),
            coded@.len() == 2 * i,
            forall|j: int| 0 <= j < coded@.len() ==> #[trigger] coded@[j] == word_at(data@, j),
        decreases data@.len() - i,
    {
        let byte = data[i];
        let upper = byte & 0b11110000;
        let lower = byte << 4;
        coded.push(code(upper));
        coded.push(code(lower));
        i = i + 1;
    }
    coded
}

/// The bytes that the received words `coded` stand for, two words to a
/// byte, and the number of words with an error that no single flipped bit
/// explains.
pub fn decode_bytes(coded: &[u8]) -> (result: (Vec<u8>, usize))
    requires
        coded@.len() % 2 == 0,
    ensures
        2 * result.0@.len() == coded@.len(),
        forall|i: int|
            0 <= i < result.0@.len() ==> #[trigger] result.0@[i] == joined(
                coded@[2 * i],
                coded@[2 * i + 1],
            ),
        result.1 == double_errors(coded@),
{
    let mut data: Vec<u8> = Vec::new();
    let mut count: usize = 0;
    let mut i: usize = 0;
    proof {
        assert(coded@.take(0) =~= Seq::<u8>::empty());
    }
    while i < coded.len()
        invariant
            i <= coded@.len(),
            i % 2 == 0,
            coded@.len() % 2 == 0,
            2 * data@.len() == i,
            count == double_errors(coded@.take(i as int)),
            count <= i,
            forall|k: int|
                0 <= k < data@.len() ==> #[trigger] data@[k] == joined(
                    coded@[2 * k],
                    coded@[2 * k + 1],
                ),
        decreases coded@.len() - i,
    {
        let (upper_decoded, e1) = decode(coded[i]);
        let (lower_decoded, e2) = decode(coded[i + 1]);
        proof {
            let one = coded@.take(i + 1);
            let two = coded@.take(i + 2);
            assert(one.drop_last() =~= coded@.take(i as int));
            assert(two.drop_last() =~= one);
            assert(double_errors(one) == double_errors(coded@.take(i as int)) + if e1 {
                1nat
            } else {
                0nat
            });
            assert(double_errors(two) == double_errors(one) + if e2 {
                1nat
            } else {
                0nat
            });
        }
        if e1 {
            count = count + 1;
        }
        if e2 {
            count = count + 1;
        }
        data.push(upper_decoded | (lower_decoded >> 4));
        i = i + 2;
    }
    proof {
        assert(coded@.take(coded@.len() as int) =~= coded@);
    }
    (data, count)
}

/// The number of halves of the bytes of `a` that differ from the halves
/// of the bytes of `b` in the same place, and the number of halves
/// compared.
pub fn count_differing_halves(a: &[u8], b: &[u8]) -> (counts: (usize, usize))
    requires
        a@.len() == b@.len(),
        2 * a@.len() <= usize::MAX,
    ensures
        counts.0 == differing_halves(a@, b@),
        counts.1 == 2 * a@.len(),
{
    let mut count: usize = 0;
    let mut count_all: usize = 0;
    let mut i: usize = 0;
    proof {
        assert(a@.take(0) =~= Seq::<u8>::empty());
    }
    while i < a.len()
        invariant
            i <= a@.len(),
            a@.len() == b@.len(),
            2 * a@.len() <= usize::MAX,
            count_all == 2 * i,
            count <= count_all,
            count == differing_halves(a@.take(i as int), b@.take(i as int)),
        decreases a@.len() - i,
    {
        let byte1 = a[i];
        let byte2 = b[i];
        proof {
            assert(a@.take(i + 1).drop_last() =~= a@.take(i as int));
            assert(b@.take(i + 1).drop_last() =~= b@.take(i as int));
        }
        let upper1 = byte1 & 0b11110000;
        let upper2 = byte2 & 0b11110000;
        if upper1 != upper2 {
            count = count + 1;
        }
        let lower1 = byte1 << 4;
        let lower2 = byte2 << 4;
        if lower1 != lower2 {
            count = count + 1;
        }
        count_all = count_all + 2;
        i = i + 1;
    }
    proof {
        assert(a@.take(a@.len() as int) =~= a@);
        assert(b@.take(b@.len() as int) =~= b@);
    }
    (count, count_all)
}

} // verus!
