//! Decoding a Lempel-Ziv-Welch coding gives the input back.
//!
//! The dictionary of the decoder is the list of the phrases that the nodes
//! of the encoder's tree stand for, one step behind: the encoder adds a
//! phrase when it has seen the byte after it, the decoder when it has seen
//! the index that starts with that byte.
use vstd::prelude::*;
use crate::bits::pad_len;
use crate::lzw::MAX_DICT_SIZE;
use crate::lzw::prefix_tree::{TreeView, grown, initial_tree, tree_wf, lemma_grown_wf};
use crate::lzw::coder::{encode_bits, first_phrase, phrases, tree_after_phrase, walk, words, lemma_walk};
use crate::lzw::decoder::{
    Decoded,
    Dictionary,
    decode_bits,
    dictionary_after,
    dictionary_wf,
    extended,
    initial_dictionary,
    phrase_of,
    valid_index,
    lemma_extended_wf,
};
use crate::lzw::universal_coder::{
    DeltaCoder,
    FibonacciCoder,
    GammaCoder,
    OmegaCoder,
    UniversalCoder,
    bit_length,
    fibonacci_limit,
    fibonacci_top,
    filling,
    lemma_bit_length,
    lemma_fib_monotonic,
    lemma_fibonacci_top,
};
use crate::lzw::universal_decoder::{
    DeltaDecoder,
    FibonacciDecoder,
    GammaDecoder,
    OmegaDecoder,
    Parsed,
    UniversalDecoder,
    fibonacci_parse_from,
    omega_parse_from,
    read_digits,
    read_zeros,
    lemma_read_digits,
};
use crate::lzw::laws::{
    lemma_delta_round_trip,
    lemma_fib_31,
    lemma_fibonacci_round_trip,
    lemma_gamma_round_trip,
    lemma_omega_round_trip,
};


verus! {

/// The phrases of `dict` are those that the nodes of `tree` stand for:
/// a node for a byte value stands for that byte, and an edge leads from a
/// phrase to the phrase extended by the byte of the edge.
pub open spec fn represents(tree: TreeView, dict: Dictionary) -> bool {
    &&& tree_wf(tree)
    &&& tree.len() == dict.len()
    &&& forall|i: int| 0 <= i < 256 ==> #[trigger] dict[i] == seq![i as u8]
    &&& forall|node: int, byte: u8|
        0 <= node < tree.len() && #[trigger] tree[node].contains_key(byte) ==> dict[tree[node][byte] as int]
            == dict[node].push(byte)
}

/// What a decoder produces from the indices `indices` when its
/// dictionary is `dict` and the index before was `last`.
pub open spec fn decode_indices(dict: Dictionary, last: Option<usize>, indices: Seq<usize>)
    -> Decoded
    decreases indices.len(),
{
    if indices.len() == 0 {
        Decoded { bytes: Seq::empty(), valid: true }
    } else if !valid_index(dict, last, indices[0]) {
        Decoded { bytes: Seq::empty(), valid: false }
    } else {
        let rest = decode_indices(
            dictionary_after(dict, last, indices[0]),
            Some(indices[0]),
            indices.skip(1),
        );
        Decoded { bytes: phrase_of(dict, last, indices[0]) + rest.bytes, valid: rest.valid }
    }
}

/// The first tree and the first dictionary go together.
pub proof fn lemma_initial_represents()
    ensures
        represents(initial_tree(), initial_dictionary()),
        dictionary_wf(initial_dictionary()),
{
    let tree = initial_tree();
    let dict = initial_dictionary();
    assert forall|node: int, byte: u8|
        0 <= node < tree.len() && #[trigger] tree[node].contains_key(byte) implies tree[node][byte]
        < tree.len() by {}
}

/// Following the input through the tree ends at the node that stands for
/// the bytes followed.
pub proof fn lemma_walk_phrase(
    tree: TreeView,
    dict: Dictionary,
    node: usize,
    phrase: Seq<u8>,
    input: Seq<u8>,
)
    requires
        represents(tree, dict),
        node < tree.len(),
        dict[node as int] == phrase,
    ensures
        walk(tree, node, input).node < tree.len(),
        0 <= walk(tree, node, input).len <= input.len(),
        dict[walk(tree, node, input).node as int] == phrase + input.take(
            walk(tree, node, input).len,
        ),
    decreases input.len(),
{
    if input.len() == 0 || !tree[node as int].contains_key(input[0]) {
        assert(phrase + input.take(0) =~= phrase);
    } else {
        let next = tree[node as int][input[0]];
        let longer = phrase.push(input[0]);
        lemma_walk_phrase(tree, dict, next, longer, input.skip(1));
        let rest = walk(tree, next, input.skip(1));
        assert(longer + input.skip(1).take(rest.len) =~= phrase + input.take(rest.len + 1));
    }
}

/// A tree and a dictionary that go together still do when both grow by
/// the same phrase.
pub proof fn lemma_grown_represents(tree: TreeView, dict: Dictionary, from: int, byte: u8)
    requires
        represents(tree, dict),
        0 <= from < tree.len(),
    ensures
        represents(grown(tree, from, byte), extended(dict, from, byte)),
{
    let tree2 = grown(tree, from, byte);
    let dict2 = extended(dict, from, byte);
    lemma_grown_wf(tree, from, byte);
    if tree.len() < MAX_DICT_SIZE {
        assert forall|i: int| 0 <= i < 256 implies #[trigger] dict2[i] == seq![i as u8] by {
            assert(dict[i] == seq![i as u8]);
        }
        assert forall|node: int, b: u8|
            0 <= node < tree2.len() && #[trigger] tree2[node].contains_key(
                b,
            ) implies dict2[tree2[node][b] as int] == dict2[node].push(b) by {
            if node == from {
                if b != byte {
                    assert(tree[node].contains_key(b));
                }
            } else if node < tree.len() {
                assert(tree[node].contains_key(b));
            }
        }
    }
}

/// The decoder, one step behind the encoder or level with it at the
/// start, decodes the indices of the phrases of `input` to `input`.
pub proof fn lemma_indices_round_trip(
    tree: TreeView,
    dict: Dictionary,
    behind: Dictionary,
    last: Option<usize>,
    input: Seq<u8>,
)
    requires
        represents(tree, dict),
        dictionary_wf(behind),
        behind.len() <= MAX_DICT_SIZE,
        match last {
            None => behind == dict,
            Some(before) => before < behind.len() && (input.len() > 0 ==> dict == extended(
                behind,
                before as int,
                input[0],
            )),
        },
    ensures
        decode_indices(behind, last, phrases(tree, input)) == (Decoded { bytes: input, valid: true }),
    decreases input.len(),
{
    if input.len() == 0 {
        assert(decode_indices(behind, last, phrases(tree, input)).bytes =~= input);
    } else {
        let start = input[0] as usize;
        let phrase = first_phrase(tree, input);
        let node = phrase.node;
        let rest = input.skip(1 + phrase.len);
        let next_tree = tree_after_phrase(tree, input);
        lemma_walk_phrase(tree, dict, start, seq![input[0]], input.skip(1));
        let word = dict[node as int];
        assert(word =~= input.take(1 + phrase.len)) by {
            assert(seq![input[0]] + input.skip(1).take(phrase.len) =~= input.take(1 + phrase.len));
        }
        assert(word + rest =~= input);
        // What the decoder makes of the index.
        match last {
            None => {},
            Some(before) => {
                lemma_extended_wf(behind, before as int, input[0]);
                if node >= behind.len() {
                    assert(word == behind[before as int].push(input[0]));
                    assert(behind[before as int].len() > 0);
                    assert(word[0] == behind[before as int][0]);
                }
            },
        }
        assert(valid_index(behind, last, node));
        assert(phrase_of(behind, last, node) == word);
        assert(dictionary_after(behind, last, node) == dict);
        // The encoder's next step.
        if rest.len() > 0 {
            lemma_grown_represents(tree, dict, node as int, rest[0]);
        }
        assert(dictionary_wf(dict)) by {
            match last {
                None => {},
                Some(before) => {
                    lemma_extended_wf(behind, before as int, input[0]);
                },
            }
        }
        let next_dict = if rest.len() > 0 {
            extended(dict, node as int, rest[0])
        } else {
            dict
        };
        lemma_indices_round_trip(next_tree, next_dict, dict, Some(node), rest);
        assert(phrases(tree, input).skip(1) =~= phrases(next_tree, rest));
    }
}

/// What holds of a code whose words can be read back and do not stand in
/// the bits that fill the last byte: every index of a dictionary,
/// numbered from one, has a word that is not empty; the reader finds the
/// number of a word and leaves what follows it; and it finds no number in
/// fewer than eight filling bits.
pub open spec fn reads_back<C: UniversalCoder, D: UniversalDecoder>() -> bool {
    &&& forall|number: nat| 1 <= number <= MAX_DICT_SIZE ==> (#[trigger] C::word(number)).len() > 0
    &&& forall|number: nat, rest: Seq<bool>|
        1 <= number <= MAX_DICT_SIZE ==> #[trigger] D::parse(C::word(number) + rest) == Some(
            Parsed { number, rest },
        )
    &&& forall|count: nat| count < 8 ==> (#[trigger] D::parse(filling(C::fill(), count))).is_none()
}

/// With a code that reads back, decoding the words of indices and the
/// bits that fill the last byte is decoding the indices.
pub proof fn lemma_decode_words<C: UniversalCoder, D: UniversalDecoder>(
    dict: Dictionary,
    last: Option<usize>,
    indices: Seq<usize>,
    count: nat,
)
    requires
        reads_back::<C, D>(),
        count < 8,
        forall|i: int| 0 <= i < indices.len() ==> #[trigger] indices[i] < MAX_DICT_SIZE,
    ensures
        decode_bits::<D>(
            dict,
            last,
            words::<C>(indices) + filling(C::fill(), count),
        ) == decode_indices(dict, last, indices),
    decreases indices.len(),
{
    let fill = filling(C::fill(), count);
    let bits = words::<C>(indices) + fill;
    if indices.len() == 0 {
        assert(bits =~= fill);
        assert(D::parse(fill).is_none());
    } else {
        let number = (indices[0] + 1) as nat;
        let rest = words::<C>(indices.skip(1)) + fill;
        assert(indices[0] < MAX_DICT_SIZE);
        assert(bits =~= C::word(number) + rest);
        assert(C::word(number).len() > 0);
        assert(D::parse(C::word(number) + rest) == Some(Parsed { number, rest }));
        if valid_index(dict, last, indices[0]) {
            assert forall|i: int| 0 <= i < indices.skip(1).len() implies #[trigger] indices.skip(
                1,
            )[i] < MAX_DICT_SIZE by {
                assert(indices[i + 1] < MAX_DICT_SIZE);
            }
            lemma_decode_words::<C, D>(
                dictionary_after(dict, last, indices[0]),
                Some(indices[0]),
                indices.skip(1),
                count,
            );
        }
    }
}

/// The indices of the phrases of an input are indices of a dictionary.
pub proof fn lemma_phrases_in_range(tree: TreeView, input: Seq<u8>)
    requires
        tree_wf(tree),
    ensures
        forall|i: int|
            0 <= i < phrases(tree, input).len() ==> #[trigger] phrases(tree, input)[i]
                < MAX_DICT_SIZE,
    decreases input.len(),
{
    if input.len() > 0 {
        let phrase = first_phrase(tree, input);
        let rest = input.skip(1 + phrase.len);
        lemma_walk(tree, input[0] as usize, input.skip(1));
        if rest.len() > 0 {
            lemma_grown_wf(tree, phrase.node as int, rest[0]);
        }
        lemma_phrases_in_range(tree_after_phrase(tree, input), rest);
        assert forall|i: int| 0 <= i < phrases(tree, input).len() implies #[trigger] phrases(
            tree,
            input,
        )[i] < MAX_DICT_SIZE by {
            if i > 0 {
                assert(phrases(tree, input)[i] == phrases(tree_after_phrase(tree, input), rest)[i
                    - 1]);
            }
        }
    }
}

/// With a code that reads back, decoding the coding of any byte sequence
/// gives the sequence back, and finds every index valid.
pub proof fn lemma_round_trip<C: UniversalCoder, D: UniversalDecoder>(input: Seq<u8>)
    requires
        reads_back::<C, D>(),
    ensures
        decode_bits::<D>(initial_dictionary(), None, encode_bits::<C>(input)) == (Decoded {
            bytes: input,
            valid: true,
        }),
{
    let indices = phrases(initial_tree(), input);
    let count = pad_len(words::<C>(indices).len());
    lemma_initial_represents();
    lemma_phrases_in_range(initial_tree(), input);
    lemma_decode_words::<C, D>(initial_dictionary(), None, indices, count);
    lemma_indices_round_trip(initial_tree(), initial_dictionary(), initial_dictionary(), None, input);
}

/// Zero bits alone hold no one bit to end a run of zeros.
pub proof fn lemma_no_one_in_zeros(count: nat, seen: nat)
    ensures
        read_zeros(filling(false, count), seen).is_none(),
    decreases count,
{
    if count > 0 {
        assert(filling(false, count).skip(1) =~= filling(false, (count - 1) as nat));
        lemma_no_one_in_zeros((count - 1) as nat, seen + 1);
    }
}

/// One bits alone hold no zero bit to end an Elias omega word.
pub proof fn lemma_no_end_in_ones(count: nat, n: nat)
    ensures
        omega_parse_from(filling(true, count), n).is_none(),
    decreases count,
{
    let bits = filling(true, count);
    if count > 0 {
        let group = read_digits(bits.skip(1), 1, n);
        lemma_read_digits(bits.skip(1), 1, n);
        if group.is_some() {
            let left = (count - 1 - n) as nat;
            assert(bits.skip(1).skip(n as int) =~= filling(true, left));
            lemma_no_end_in_ones(left, group.unwrap().number);
        }
    }
}

/// Zero bits alone hold no two set digits to end a Fibonacci word.
pub proof fn lemma_no_pair_in_zeros(count: nat, sum: nat, index: nat, last: bool)
    ensures
        fibonacci_parse_from(filling(false, count), sum, index, last).is_none(),
    decreases count,
{
    if count > 0 {
        assert(filling(false, count).skip(1) =~= filling(false, (count - 1) as nat));
        lemma_no_pair_in_zeros(
            (count - 1) as nat,
            sum,
            if index >= fibonacci_limit() {
                index
            } else {
                index + 1
            },
            false,
        );
    }
}

/// The Elias gamma code reads back.
pub proof fn lemma_gamma_reads_back()
    ensures
        reads_back::<GammaCoder, GammaDecoder>(),
{
    assert forall|number: nat| 1 <= number <= MAX_DICT_SIZE implies (#[trigger] GammaCoder::word(
        number,
    )).len() > 0 by {
        lemma_bit_length(number);
    }
    assert forall|number: nat, rest: Seq<bool>|
        1 <= number <= MAX_DICT_SIZE implies #[trigger] GammaDecoder::parse(
        GammaCoder::word(number) + rest,
    ) == Some(Parsed { number, rest }) by {
        lemma_gamma_round_trip(number, rest);
    }
    assert forall|count: nat| count < 8 implies (#[trigger] GammaDecoder::parse(
        filling(GammaCoder::fill(), count),
    )).is_none() by {
        lemma_no_one_in_zeros(count, 0);
    }
}

/// The Elias delta code reads back.
pub proof fn lemma_delta_reads_back()
    ensures
        reads_back::<DeltaCoder, DeltaDecoder>(),
{
    assert forall|number: nat| 1 <= number <= MAX_DICT_SIZE implies (#[trigger] DeltaCoder::word(
        number,
    )).len() > 0 by {
        lemma_bit_length(number);
        lemma_bit_length(bit_length(number));
    }
    assert forall|number: nat, rest: Seq<bool>|
        1 <= number <= MAX_DICT_SIZE implies #[trigger] DeltaDecoder::parse(
        DeltaCoder::word(number) + rest,
    ) == Some(Parsed { number, rest }) by {
        lemma_delta_round_trip(number, rest);
    }
    assert forall|count: nat| count < 8 implies (#[trigger] DeltaDecoder::parse(
        filling(DeltaCoder::fill(), count),
    )).is_none() by {
        lemma_no_one_in_zeros(count, 0);
    }
}

/// The Elias omega code reads back.
pub proof fn lemma_omega_reads_back()
    ensures
        reads_back::<OmegaCoder, OmegaDecoder>(),
{
    assert forall|number: nat, rest: Seq<bool>|
        1 <= number <= MAX_DICT_SIZE implies #[trigger] OmegaDecoder::parse(
        OmegaCoder::word(number) + rest,
    ) == Some(Parsed { number, rest }) by {
        lemma_omega_round_trip(number, rest);
    }
    assert forall|count: nat| count < 8 implies (#[trigger] OmegaDecoder::parse(
        filling(OmegaCoder::fill(), count),
    )).is_none() by {
        lemma_no_end_in_ones(count, 1);
    }
}

/// The Fibonacci code reads back.
pub proof fn lemma_fibonacci_reads_back()
    ensures
        reads_back::<FibonacciCoder, FibonacciDecoder>(),
{
    assert forall|number: nat, rest: Seq<bool>|
        1 <= number <= MAX_DICT_SIZE implies #[trigger] FibonacciDecoder::parse(
        FibonacciCoder::word(number) + rest,
    ) == Some(Parsed { number, rest }) by {
        let top = fibonacci_top(number, 1, fibonacci_limit());
        lemma_fibonacci_top(number, 1, fibonacci_limit());
        lemma_fib_31();
        if top >= 31 {
            lemma_fib_monotonic(31, top);
        }
        lemma_fibonacci_round_trip(number, rest);
    }
    assert forall|count: nat| count < 8 implies (#[trigger] FibonacciDecoder::parse(
        filling(FibonacciCoder::fill(), count),
    )).is_none() by {
        lemma_no_pair_in_zeros(count, 0, 2, false);
    }
}

/// With each of the four codes, decoding the coding of any byte sequence
/// gives the sequence back.
pub proof fn lemma_round_trip_with_every_code(input: Seq<u8>)
    ensures
        decode_bits::<GammaDecoder>(
            initial_dictionary(),
            None,
            encode_bits::<GammaCoder>(input),
        ) == (Decoded { bytes: input, valid: true }),
        decode_bits::<DeltaDecoder>(
            initial_dictionary(),
            None,
            encode_bits::<DeltaCoder>(input),
        ) == (Decoded { bytes: input, valid: true }),
        decode_bits::<OmegaDecoder>(
            initial_dictionary(),
            None,
            encode_bits::<OmegaCoder>(input),
        ) == (Decoded { bytes: input, valid: true }),
        decode_bits::<FibonacciDecoder>(
            initial_dictionary(),
            None,
            encode_bits::<FibonacciCoder>(input),
        ) == (Decoded { bytes: input, valid: true }),
{
    lemma_gamma_reads_back();
    lemma_delta_reads_back();
    lemma_omega_reads_back();
    lemma_fibonacci_reads_back();
    lemma_round_trip::<GammaCoder, GammaDecoder>(input);
    lemma_round_trip::<DeltaCoder, DeltaDecoder>(input);
    lemma_round_trip::<OmegaCoder, OmegaDecoder>(input);
    lemma_round_trip::<FibonacciCoder, FibonacciDecoder>(input);
}

} // verus!
