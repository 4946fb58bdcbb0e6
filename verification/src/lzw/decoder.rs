//! The Lempel-Ziv-Welch decoder.
//!
//! The decoder rebuilds the dictionary of the encoder one step behind it:
//! each index but the first adds the phrase of the index before, extended
//! by the first byte of the phrase of this one.
use vstd::prelude::*;
use crate::lzw::MAX_DICT_SIZE;
use crate::lzw::universal_decoder::{BitInputStream, UniversalDecoder};

verus! {

/// A dictionary as a mathematical value: the phrase of every index.
pub type Dictionary = Seq<Seq<u8>>;

/// The dictionary with one phrase for each byte value.
pub open spec fn initial_dictionary() -> Dictionary {
    Seq::new(256, |i: int| seq![i as u8])
}

/// No phrase is empty.
pub open spec fn dictionary_wf(dict: Dictionary) -> bool {
    forall|i: int| 0 <= i < dict.len() ==> (#[trigger] dict[i]).len() > 0
}

/// The dictionary with one more phrase, that of `id` extended by `byte`;
/// the dictionary itself if it is full.
pub open spec fn extended(dict: Dictionary, id: int, byte: u8) -> Dictionary {
    if dict.len() >= MAX_DICT_SIZE {
        dict
    } else {
        dict.push(dict[id].push(byte))
    }
}

/// Extending a dictionary adds no empty phrase and does not make it
/// larger than a dictionary may be.
pub proof fn lemma_extended_wf(dict: Dictionary, id: int, byte: u8)
    requires
        dictionary_wf(dict),
        0 <= id < dict.len(),
        dict.len() <= MAX_DICT_SIZE,
    ensures
        dictionary_wf(extended(dict, id, byte)),
        dict.len() <= extended(dict, id, byte).len() <= MAX_DICT_SIZE,
        forall|i: int| 0 <= i < dict.len() ==> extended(dict, id, byte)[i] == dict[i],
{
    let after = extended(dict, id, byte);
    assert forall|i: int| 0 <= i < after.len() implies (#[trigger] after[i]).len() > 0 by {
        if i < dict.len() {
            assert(dict[i].len() > 0);
        }
    }
}

/// Whether an encoder can have written the index `n` when the dictionary
/// is `dict` and the index before was `last`: the index of a phrase, or
/// the index of the phrase that this very step adds.
pub open spec fn valid_index(dict: Dictionary, last: Option<usize>, n: usize) -> bool {
    n < dict.len() || (n == dict.len() && last.is_some() && dict.len() < MAX_DICT_SIZE)
}

/// The phrase of the index `n`.
pub open spec fn phrase_of(dict: Dictionary, last: Option<usize>, n: usize) -> Seq<u8> {
    if n < dict.len() {
        dict[n as int]
    } else {
        dict[last.unwrap() as int].push(dict[last.unwrap() as int][0])
    }
}

/// The dictionary after the index `n` has been decoded.
pub open spec fn dictionary_after(dict: Dictionary, last: Option<usize>, n: usize) -> Dictionary {
    match last {
        Some(id) => extended(dict, id as int, phrase_of(dict, last, n)[0]),
        None => dict,
    }
}

/// What a decoder produces.
pub struct Decoded {
    /// The bytes decoded.
    pub bytes: Seq<u8>,
    /// Whether every index read was one that an encoder can have written.
    pub valid: bool,
}

/// What a decoder produces from `bits`, read with the code `D`, when its
/// dictionary is `dict` and the index before was `last`. Reading ends
/// where no further number can be read.
pub open spec fn decode_bits<D: UniversalDecoder>(
    dict: Dictionary,
    last: Option<usize>,
    bits: Seq<bool>,
) -> Decoded
    decreases bits.len(),
{
    match D::parse(bits) {
        None => Decoded { bytes: Seq::empty(), valid: true },
        Some(parsed) => {
            if parsed.number == 0 || parsed.number > usize::MAX || parsed.rest.len() >= bits.len() {
                Decoded { bytes: Seq::empty(), valid: false }
            } else {
                let n = (parsed.number - 1) as usize;
                if !valid_index(dict, last, n) {
                    Decoded { bytes: Seq::empty(), valid: false }
                } else {
                    let rest = decode_bits::<D>(
                        dictionary_after(dict, last, n),
                        Some(n),
                        parsed.rest,
                    );
                    Decoded { bytes: phrase_of(dict, last, n) + rest.bytes, valid: rest.valid }
                }
            }
        },
    }
}

/// Why decoding stopped before the end of the input.
#[derive(Debug, Clone, Copy, PartialEq, Eq)]
pub enum DecodeError {
    /// An index was read that no encoder can have written at that point.
    InvalidIndex,
}

/// Reads the Lempel-Ziv-Welch coding of a byte sequence, the dictionary
/// indices as words of the code `D`, and writes the bytes.
pub struct LZWDecoder<D> {
    input_stream: BitInputStream,
    output_stream: Vec<u8>,
    universal_decoder: D,
    last_id: Option<usize>,
    dict: Vec<Vec<u8>>,
    output_len: usize,
}

impl<D: UniversalDecoder> LZWDecoder<D> {
    /// The bytes that the decoder reads from.
    pub closed spec fn input(&self) -> Seq<u8> {
        self.input_stream.bytes()
    }

    /// The bits that have not been read yet.
    pub closed spec fn remaining(&self) -> Seq<bool> {
        self.input_stream.rest()
    }

    /// The bytes decoded so far.
    pub closed spec fn output(&self) -> Seq<u8> {
        self.output_stream@
    }

    /// The dictionary.
    pub closed spec fn dictionary(&self) -> Dictionary {
        Seq::new(self.dict@.len(), |i: int| self.dict@[i]@)
    }

    /// The index decoded last.
    pub closed spec fn last(&self) -> Option<usize> {
        self.last_id
    }

    /// The dictionary has no empty phrase and holds the phrase of the
    /// index decoded last.
    pub closed spec fn wf(&self) -> bool {
        &&& dictionary_wf(self.dictionary())
        &&& self.dict@.len() <= MAX_DICT_SIZE
        &&& self.last_id matches Some(id) ==> id < self.dict@.len()
        &&& self.universal_decoder.wf()
        &&& self.input_stream.wf()
        &&& self.output_len == self.output_stream@.len()
    }

    /// A decoder that will decode `input_stream`, read with
    /// `universal_decoder`.
    pub fn new(input_stream: Vec<u8>, universal_decoder: D) -> (decoder: Self)
        requires
            universal_decoder.wf(),
        ensures
            decoder.wf(),
            decoder.input() == input_stream@,
            decoder.remaining() == crate::bits::unpack(input_stream@),
            decoder.output() == Seq::<u8>::empty(),
            decoder.dictionary() == initial_dictionary(),
            decoder.last().is_none(),
    {
        let mut dict: Vec<Vec<u8>> = Vec::new();
        let mut i: usize = 0;
        while i < 256
            invariant
                i <= 256,
                dict@.len() == i,
                forall|k: int| 0 <= k < i ==> (#[trigger] dict@[k])@ == seq![k as u8],
            decreases 256 - i,
        {
            let mut entry: Vec<u8> = Vec::new();
            entry.push(i as u8);
            proof {
                assert(entry@ =~= seq![i as u8]);
            }
            dict.push(entry);
            i = i + 1;
        }
        let decoder = Self {
            input_stream: BitInputStream::new(input_stream),
            output_stream: Vec::new(),
            universal_decoder,
            last_id: None,
            dict,
            output_len: 0,
        };
        proof {
            assert(decoder.dictionary() =~= initial_dictionary());
        }
        decoder
    }

    /// Decodes indices until no further number can be read, or until an
    /// index turns up that no encoder can have written.
    pub fn decode_to_end(&mut self) -> (result: Result<(), DecodeError>)
        requires
            old(self).wf(),
        ensures
            final(self).input() == old(self).input(),
            final(self).output() == old(self).output() + decode_bits::<D>(
                old(self).dictionary(),
                old(self).last(),
                old(self).remaining(),
            ).bytes,
            result.is_ok() == decode_bits::<D>(
                old(self).dictionary(),
                old(self).last(),
                old(self).remaining(),
            ).valid,
            result.is_ok() ==> final(self).wf(),
    {
        let ghost start_output = self.output();
        let ghost whole = decode_bits::<D>(self.dictionary(), self.last(), self.remaining());
        proof {
            assert(start_output + whole.bytes =~= self.output() + whole.bytes);
        }
        loop
            invariant
                self.wf(),
                self.input() == old(self).input(),
                start_output == old(self).output(),
                whole == decode_bits::<D>(
                    old(self).dictionary(),
                    old(self).last(),
                    old(self).remaining(),
                ),
                start_output + whole.bytes == self.output() + decode_bits::<D>(
                    self.dictionary(),
                    self.last(),
                    self.remaining(),
                ).bytes,
                whole.valid == decode_bits::<D>(
                    self.dictionary(),
                    self.last(),
                    self.remaining(),
                ).valid,
            decreases self.remaining().len(),
        {
            let ghost before_output = self.output();
            let ghost before_dict = self.dictionary();
            let ghost before_last = self.last();
            match self.universal_decoder.decode_number(&mut self.input_stream) {
                Some(new_n) => {
                    if !self.decode_one(new_n - 1) {
                        proof {
                            assert(before_output + Seq::<u8>::empty() =~= before_output);
                        }
                        return Err(DecodeError::InvalidIndex);
                    }
                    proof {
                        let n = (new_n - 1) as usize;
                        let phrase = phrase_of(before_dict, before_last, n);
                        let rest = decode_bits::<D>(
                            self.dictionary(),
                            self.last(),
                            self.remaining(),
                        );
                        assert(before_output + (phrase + rest.bytes) =~= before_output + phrase
                            + rest.bytes);
                    }
                },
                None => {
                    proof {
                        assert(self.output() + Seq::<u8>::empty() =~= self.output());
                    }
                    return Ok(());
                },
            }
        }
    }

    /// The number of bytes decoded so far.
    pub fn get_stat(&self) -> (len: usize)
        requires
            self.wf(),
        ensures
            len == self.output().len(),
    {
        self.output_len
    }

    /// The bytes decoded so far.
    pub fn output_bytes(&self) -> (bytes: &Vec<u8>)
        ensures
            bytes@ == self.output(),
    {
        &self.output_stream
    }

    /// Decodes the index `n`: writes its phrase and extends the
    /// dictionary. Does nothing and returns `false` if no encoder can have
    /// written `n` at this point.
    fn decode_one(&mut self, n: usize) -> (valid: bool)
        requires
            old(self).wf(),
        ensures
            valid == valid_index(old(self).dictionary(), old(self).last(), n),
            final(self).input_stream == old(self).input_stream,
            final(self).universal_decoder == old(self).universal_decoder,
            valid ==> {
                &&& final(self).wf()
                &&& final(self).output() == old(self).output() + phrase_of(
                    old(self).dictionary(),
                    old(self).last(),
                    n,
                )
                &&& final(self).dictionary() == dictionary_after(
                    old(self).dictionary(),
                    old(self).last(),
                    n,
                )
                &&& final(self).last() == Some(n)
            },
            !valid ==> {
                &&& final(self).output() == old(self).output()
                &&& final(self).dictionary() == old(self).dictionary()
                &&& final(self).last() == old(self).last()
            },
    {
        let ghost before = self.dictionary();
        if n < self.dict.len() {
            let entry = self.dict[n].clone();
            proof {
                assert(before[n as int] == self.dict@[n as int]@);
                assert(entry@ =~= before[n as int]);
            }
            self.write(&entry);
            match self.last_id {
                Some(last_id) => {
                    let first_byte = entry[0];
                    proof {
                        lemma_extended_wf(before, last_id as int, first_byte);
                    }
                    self.add_entry(last_id, first_byte);
                    proof {
                        assert(self.dictionary().len() == self.dict@.len());
                    }
                },
                None => {},
            }
        } else {
            let last_id = match self.last_id {
                Some(last_id) => last_id,
                None => {
                    return false;
                },
            };
            if n > self.dict.len() || self.dict.len() >= MAX_DICT_SIZE {
                return false;
            }
            proof {
                assert(before[last_id as int] == self.dict@[last_id as int]@);
            }
            let first_byte = self.dict[last_id][0];
            proof {
                lemma_extended_wf(before, last_id as int, first_byte);
            }
            self.add_entry(last_id, first_byte);
            proof {
                assert(self.dictionary().len() == self.dict@.len());
            }
            let entry = self.dict[self.dict.len() - 1].clone();
            proof {
                assert(self.dictionary()[self.dict@.len() - 1] == self.dict@[self.dict@.len()
                    - 1]@);
                assert(entry@ =~= phrase_of(before, old(self).last(), n));
            }
            self.write(&entry);
        }
        self.last_id = Some(n);
        true
    }

    /// Appends a phrase to the output.
    fn write(&mut self, entry: &Vec<u8>)
        requires
            old(self).output_len == old(self).output_stream@.len(),
        ensures
            final(self).output_stream@ == old(self).output_stream@ + entry@,
            final(self).output_len == final(self).output_stream@.len(),
            final(self).input_stream == old(self).input_stream,
            final(self).universal_decoder == old(self).universal_decoder,
            final(self).last_id == old(self).last_id,
            final(self).dict == old(self).dict,
    {
        let mut i: usize = 0;
        proof {
            assert(self.output_stream@ + entry@.take(0) =~= self.output_stream@);
        }
        while i < entry.len()
            invariant
                i <= entry@.len(),
                self.output_stream@ == old(self).output_stream@ + entry@.take(i as int),
                self.input_stream == old(self).input_stream,
                self.universal_decoder == old(self).universal_decoder,
                self.last_id == old(self).last_id,
                self.dict == old(self).dict,
            decreases entry@.len() - i,
        {
            self.output_stream.push(entry[i]);
            proof {
                assert((old(self).output_stream@ + entry@.take(i as int)).push(entry@[i as int])
                    =~= old(self).output_stream@ + entry@.take(i + 1));
            }
            i = i + 1;
        }
        proof {
            assert(entry@.take(entry@.len() as int) =~= entry@);
        }
        self.output_len = self.output_stream.len();
    }

    /// Adds the phrase of `id`, extended by `new_byte`, to the dictionary,
    /// unless the dictionary is full.
    fn add_entry(&mut self, id: usize, new_byte: u8)
        requires
            id < old(self).dict@.len(),
        ensures
            final(self).dictionary() == extended(old(self).dictionary(), id as int, new_byte),
            final(self).input_stream == old(self).input_stream,
            final(self).output_stream == old(self).output_stream,
            final(self).universal_decoder == old(self).universal_decoder,
            final(self).last_id == old(self).last_id,
            final(self).output_len == old(self).output_len,
            final(self).dict@.len() <= MAX_DICT_SIZE || final(self).dict@.len() == old(
                self,
            ).dict@.len(),
    {
        if self.dict.len() >= MAX_DICT_SIZE {
            return ;
        }
        let mut new_entry = self.dict[id].clone();
        new_entry.push(new_byte);
        proof {
            assert(new_entry@ =~= old(self).dictionary()[id as int].push(new_byte));
        }
        self.dict.push(new_entry);
        proof {
            assert(self.dictionary() =~= extended(old(self).dictionary(), id as int, new_byte));
        }
    }
}

} // verus!
