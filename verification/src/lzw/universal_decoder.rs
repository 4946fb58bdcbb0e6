//! Readers for the universal codes, and the bit reader that they read
//! from.
//!
//! A reader gives up, with `None`, when the bits run out within a word or
//! when a word stands for a number that does not fit a machine word.
use vstd::prelude::*;
use crate::bits::{unpack, bit_at, lemma_mask_is_shift};
use crate::lzw::universal_coder::{fib, fibonacci_limit, lemma_fib_monotonic};

verus! {

/// A number read from a stream of bits, and the bits that follow it.
pub struct Parsed {
    pub number: nat,
    pub rest: Seq<bool>,
}

/// The number of zero bits before the first one bit of `bits`, added to
/// `count`, and the bits after that one bit; `None` if there is no one
/// bit, or if the count reaches the width of a machine word.
pub open spec fn read_zeros(bits: Seq<bool>, count: nat) -> Option<Parsed>
    decreases bits.len(),
{
    if bits.len() == 0 {
        None
    } else if bits[0] {
        Some(Parsed { number: count, rest: bits.skip(1) })
    } else if count + 1 >= usize::BITS {
        None
    } else {
        read_zeros(bits.skip(1), count + 1)
    }
}

/// The number whose binary digits are those of `start` followed by the
/// first `count` bits of `bits`, and the bits after these; `None` if there
/// are fewer bits, or if the number does not fit a machine word.
pub open spec fn read_digits(bits: Seq<bool>, start: nat, count: nat) -> Option<Parsed>
    decreases count,
{
    if count == 0 {
        Some(Parsed { number: start, rest: bits })
    } else if bits.len() == 0 {
        None
    } else {
        let next = 2 * start + if bits[0] {
            1nat
        } else {
            0nat
        };
        if next > usize::MAX {
            None
        } else {
            read_digits(bits.skip(1), next, (count - 1) as nat)
        }
    }
}

/// Reads an Elias gamma word: as many zero bits as the number has binary
/// digits after the first, then the binary digits.
pub open spec fn gamma_parse(bits: Seq<bool>) -> Option<Parsed> {
    match read_zeros(bits, 0) {
        Some(zeros) => read_digits(zeros.rest, 1, zeros.number),
        None => None,
    }
}

/// Reads an Elias delta word: the gamma word of the number of binary
/// digits, then the binary digits after the first.
pub open spec fn delta_parse(bits: Seq<bool>) -> Option<Parsed> {
    match gamma_parse(bits) {
        Some(size) => read_digits(size.rest, 1, (size.number - 1) as nat),
        None => None,
    }
}

/// Reads the rest of an Elias omega word, the last group read standing
/// for `n`: a zero bit ends the word; a one bit starts a group of `n`
/// more binary digits.
pub open spec fn omega_parse_from(bits: Seq<bool>, n: nat) -> Option<Parsed>
    decreases bits.len(),
{
    if bits.len() == 0 {
        None
    } else if !bits[0] {
        Some(Parsed { number: n, rest: bits.skip(1) })
    } else {
        match read_digits(bits.skip(1), 1, n) {
            Some(group) => if group.rest.len() < bits.len() {
                omega_parse_from(group.rest, group.number)
            } else {
                None
            },
            None => None,
        }
    }
}

/// Reads an Elias omega word.
pub open spec fn omega_parse(bits: Seq<bool>) -> Option<Parsed> {
    omega_parse_from(bits, 1)
}

/// Reads the rest of a Fibonacci word: the next bit is the digit for
/// `fib(index)`, `sum` is the value of the digits read, and `last` tells
/// whether the digit before was set. Two set digits in a row end the
/// word.
pub open spec fn fibonacci_parse_from(bits: Seq<bool>, sum: nat, index: nat, last: bool) -> Option<
    Parsed,
>
    decreases bits.len(),
{
    if bits.len() == 0 {
        None
    } else if last && bits[0] {
        Some(Parsed { number: sum, rest: bits.skip(1) })
    } else if bits[0] {
        if index >= fibonacci_limit() || sum + fib(index) > usize::MAX {
            None
        } else {
            fibonacci_parse_from(bits.skip(1), sum + fib(index), index + 1, true)
        }
    } else {
        fibonacci_parse_from(
            bits.skip(1),
            sum,
            if index >= fibonacci_limit() {
                index
            } else {
                index + 1
            },
            false,
        )
    }
}

/// Reads a Fibonacci word.
pub open spec fn fibonacci_parse(bits: Seq<bool>) -> Option<Parsed> {
    fibonacci_parse_from(bits, 0, 2, false)
}

/// Reading binary digits uses up exactly as many bits as it reads.
pub proof fn lemma_read_digits(bits: Seq<bool>, start: nat, count: nat)
    ensures
        match read_digits(bits, start, count) {
            Some(parsed) => {
                &&& count <= bits.len()
                &&& parsed.rest == bits.skip(count as int)
                &&& parsed.number >= start
            },
            None => true,
        },
    decreases count,
{
    if count == 0 {
        assert(bits.skip(0) =~= bits);
    } else if bits.len() > 0 {
        let next = 2 * start + if bits[0] {
            1nat
        } else {
            0nat
        };
        if next <= usize::MAX {
            lemma_read_digits(bits.skip(1), next, (count - 1) as nat);
            if count <= bits.len() {
                assert(bits.skip(1).skip(count - 1) =~= bits.skip(count as int));
            }
        }
    }
}

/// Hands out the bits of a byte sequence, most significant bit first.
pub struct BitInputStream {
    buf: u8,
    n: u8,
    input_stream: Vec<u8>,
    position: usize,
}

impl BitInputStream {
    /// The buffered byte is the last one fetched, and `n` of its bits have
    /// been handed out.
    pub closed spec fn wf(&self) -> bool {
        &&& self.n < 8
        &&& self.position <= self.input_stream@.len()
        &&& self.n > 0 ==> self.position > 0 && self.buf == self.input_stream@[self.position - 1]
    }

    /// The bytes that the stream reads from.
    pub closed spec fn bytes(&self) -> Seq<u8> {
        self.input_stream@
    }

    /// The number of bits handed out so far.
    pub closed spec fn consumed(&self) -> nat {
        if self.n == 0 {
            8 * self.position as nat
        } else {
            (8 * (self.position - 1) + self.n) as nat
        }
    }

    /// The bits that have not been handed out yet.
    pub open spec fn rest(&self) -> Seq<bool> {
        unpack(self.bytes()).skip(self.consumed() as int)
    }

    /// No more bits have been handed out than there are.
    pub proof fn lemma_consumed(&self)
        requires
            self.wf(),
        ensures
            self.consumed() <= unpack(self.bytes()).len(),
            self.rest().len() == unpack(self.bytes()).len() - self.consumed(),
    {
    }

    /// A stream that will hand out the bits of `input_stream`.
    pub fn new(input_stream: Vec<u8>) -> (stream: Self)
        ensures
            stream.wf(),
            stream.bytes() == input_stream@,
            stream.consumed() == 0,
            stream.rest() == unpack(input_stream@),
    {
        let stream = Self { buf: 0, n: 0, input_stream, position: 0 };
        assert(stream.rest() =~= unpack(input_stream@));
        stream
    }

    /// The next bit, or `None` when every bit has been handed out.
    pub fn read_bit(&mut self) -> (bit: Option<bool>)
        requires
            old(self).wf(),
        ensures
            final(self).wf(),
            final(self).bytes() == old(self).bytes(),
            match bit {
                Some(b) => {
                    &&& old(self).rest().len() > 0
                    &&& b == old(self).rest()[0]
                    &&& final(self).rest() == old(self).rest().skip(1)
                    &&& final(self).consumed() == old(self).consumed() + 1
                },
                None => {
                    &&& old(self).rest().len() == 0
                    &&& final(self).rest() == old(self).rest()
                    &&& final(self).consumed() == old(self).consumed()
                },
            },
    {
        if self.n == 0 {
            if self.position >= self.input_stream.len() {
                return None;
            }
            self.buf = self.input_stream[self.position];
            self.position = self.position + 1;
        }
        proof {
            lemma_mask_is_shift(self.n);
            let at = old(self).consumed() as int;
            assert(at == 8 * (self.position - 1) + self.n);
            assert(at / 8 == self.position - 1 && at % 8 == self.n as int);
            assert(unpack(self.bytes())[at] == bit_at(self.buf, self.n as int));
        }
        let bit = (self.buf & (0x80u8 >> self.n)) != 0;
        self.n = (self.n + 1) % 8;
        proof {
            assert(self.rest() =~= old(self).rest().skip(1));
        }
        Some(bit)
    }
}

/// What a reader's result says of the bits that it had before it and of
/// those that it leaves: a number is the one that `parsed` holds, with
/// the bits left being the rest; giving up means that there was no
/// number to read.
pub open spec fn reads(
    number: Option<usize>,
    parsed: Option<Parsed>,
    before: Seq<bool>,
    after: Seq<bool>,
) -> bool {
    match number {
        Some(n) => parsed == Some(Parsed { number: n as nat, rest: after }) && after.len()
            < before.len(),
        None => parsed.is_none(),
    }
}

/// A reader of the words of one universal code.
pub trait UniversalDecoder {
    /// What the reader keeps between calls is in order.
    spec fn wf(&self) -> bool;

    /// The number that the first word of `bits` stands for, and the bits
    /// after that word.
    spec fn parse(bits: Seq<bool>) -> Option<Parsed>;

    /// Reads one word and returns its number, which is never zero.
    fn decode_number(&mut self, input_stream: &mut BitInputStream) -> (number: Option<usize>)
        requires
            old(self).wf(),
            old(input_stream).wf(),
        ensures
            final(self).wf(),
            final(input_stream).wf(),
            final(input_stream).bytes() == old(input_stream).bytes(),
            reads(
                number,
                Self::parse(old(input_stream).rest()),
                old(input_stream).rest(),
                final(input_stream).rest(),
            ),
            number matches Some(n) ==> n >= 1,
    ;
}

/// Reads `count` binary digits after those of `start`.
fn read_number(input_stream: &mut BitInputStream, start: usize, count: usize) -> (number: Option<
    usize,
>)
    requires
        old(input_stream).wf(),
    ensures
        final(input_stream).wf(),
        final(input_stream).bytes() == old(input_stream).bytes(),
        final(input_stream).rest().len() <= old(input_stream).rest().len(),
        match number {
            Some(n) => read_digits(old(input_stream).rest(), start as nat, count as nat) == Some(
                Parsed { number: n as nat, rest: final(input_stream).rest() },
            ) && n >= start,
            None => read_digits(old(input_stream).rest(), start as nat, count as nat).is_none(),
        },
{
    let mut read_number = start;
    let mut to_read = count;
    while to_read != 0
        invariant
            input_stream.wf(),
            input_stream.bytes() == old(input_stream).bytes(),
            input_stream.rest().len() <= old(input_stream).rest().len(),
            read_number >= start,
            read_digits(old(input_stream).rest(), start as nat, count as nat) == read_digits(
                input_stream.rest(),
                read_number as nat,
                to_read as nat,
            ),
        decreases to_read,
    {
        let bit = match input_stream.read_bit() {
            Some(bit) => bit,
            None => {
                return None;
            },
        };
        if read_number > usize::MAX / 2 {
            return None;
        }
        read_number = read_number * 2;
        if bit {
            if read_number == usize::MAX {
                return None;
            }
            read_number = read_number + 1;
        }
        to_read = to_read - 1;
    }
    Some(read_number)
}

/// The reader of the Elias gamma code.
pub struct GammaDecoder;

impl UniversalDecoder for GammaDecoder {
    open spec fn wf(&self) -> bool {
        true
    }

    open spec fn parse(bits: Seq<bool>) -> Option<Parsed> {
        gamma_parse(bits)
    }

    fn decode_number(&mut self, input_stream: &mut BitInputStream) -> (number: Option<usize>) {
        let mut zeros: usize = 0;
        loop
            invariant_except_break
                input_stream.rest().len() <= old(input_stream).rest().len(),
                read_zeros(old(input_stream).rest(), 0) == read_zeros(
                    input_stream.rest(),
                    zeros as nat,
                ),
            invariant
                input_stream.wf(),
                input_stream.bytes() == old(input_stream).bytes(),
                zeros < usize::BITS,
            ensures
                input_stream.wf(),
                input_stream.bytes() == old(input_stream).bytes(),
                input_stream.rest().len() < old(input_stream).rest().len(),
                read_zeros(old(input_stream).rest(), 0) == Some(
                    Parsed { number: zeros as nat, rest: input_stream.rest() },
                ),
            decreases input_stream.rest().len(),
        {
            let bit = match input_stream.read_bit() {
                Some(bit) => bit,
                None => {
                    return None;
                },
            };
            if !bit {
                if zeros + 1 >= usize::BITS as usize {
                    return None;
                }
                zeros = zeros + 1;
            } else {
                break ;
            }
        }
        read_number(input_stream, 1, zeros)
    }
}

/// The reader of the Elias delta code.
pub struct DeltaDecoder;

impl UniversalDecoder for DeltaDecoder {
    open spec fn wf(&self) -> bool {
        true
    }

    open spec fn parse(bits: Seq<bool>) -> Option<Parsed> {
        delta_parse(bits)
    }

    fn decode_number(&mut self, input_stream: &mut BitInputStream) -> (number: Option<usize>) {
        let mut gamma = GammaDecoder;
        let n_size = match gamma.decode_number(input_stream) {
            Some(size) => size - 1,
            None => {
                return None;
            },
        };
        read_number(input_stream, 1, n_size)
    }
}

/// The reader of the Elias omega code.
pub struct OmegaDecoder;

impl UniversalDecoder for OmegaDecoder {
    open spec fn wf(&self) -> bool {
        true
    }

    open spec fn parse(bits: Seq<bool>) -> Option<Parsed> {
        omega_parse(bits)
    }

    fn decode_number(&mut self, input_stream: &mut BitInputStream) -> (number: Option<usize>) {
        let mut n: usize = 1;
        loop
            invariant
                input_stream.wf(),
                input_stream.bytes() == old(input_stream).bytes(),
                input_stream.rest().len() <= old(input_stream).rest().len(),
                n >= 1,
                omega_parse(old(input_stream).rest()) == omega_parse_from(
                    input_stream.rest(),
                    n as nat,
                ),
            decreases input_stream.rest().len(),
        {
            let ghost before = input_stream.rest();
            let bit = match input_stream.read_bit() {
                Some(bit) => bit,
                None => {
                    return None;
                },
            };
            if !bit {
                return Some(n);
            }
            proof {
                lemma_read_digits(before.skip(1), 1, n as nat);
            }
            n = match read_number(input_stream, 1, n) {
                Some(group) => group,
                None => {
                    return None;
                },
            };
        }
    }
}

/// The reader of the Fibonacci code, with the Fibonacci numbers that it
/// has used so far.
pub struct FibonacciDecoder {
    fib_numbers: Vec<usize>,
}

impl FibonacciDecoder {
    /// The numbers kept are the first Fibonacci numbers, at least two of
    /// them.
    pub closed spec fn holds_fibonacci_numbers(&self) -> bool {
        &&& self.fib_numbers@.len() >= 2
        &&& forall|i: int|
            0 <= i < self.fib_numbers@.len() ==> #[trigger] self.fib_numbers@[i] == fib(i as nat)
    }

    /// A reader that knows the Fibonacci numbers 0 and 1.
    pub fn new() -> (decoder: Self)
        ensures
            decoder.wf(),
    {
        let mut fib_numbers: Vec<usize> = Vec::new();
        fib_numbers.push(0);
        fib_numbers.push(1);
        Self { fib_numbers }
    }

    /// The Fibonacci number of index `i`, which must fit a machine word.
    pub fn fib(&mut self, i: usize) -> (number: usize)
        requires
            old(self).wf(),
            fib(i as nat) <= usize::MAX,
        ensures
            final(self).wf(),
            number == fib(i as nat),
    {
        while i >= self.fib_numbers.len()
            invariant
                self.wf(),
                fib(i as nat) <= usize::MAX,
            decreases i + 1 - self.fib_numbers@.len(),
        {
            let len = self.fib_numbers.len();
            proof {
                lemma_fib_monotonic(len as nat, i as nat);
            }
            let next = self.fib_numbers[len - 1] + self.fib_numbers[len - 2];
            self.fib_numbers.push(next);
        }
        self.fib_numbers[i]
    }

    /// The Fibonacci number of index `i`, if it fits a machine word.
    fn checked_fib(&mut self, i: usize) -> (number: Option<usize>)
        requires
            old(self).wf(),
        ensures
            final(self).wf(),
            match number {
                Some(f) => f == fib(i as nat),
                None => fib(i as nat) > usize::MAX,
            },
    {
        while i >= self.fib_numbers.len()
            invariant
                self.wf(),
            decreases i + 1 - self.fib_numbers@.len(),
        {
            let len = self.fib_numbers.len();
            let a = self.fib_numbers[len - 1];
            let b = self.fib_numbers[len - 2];
            if a > usize::MAX - b {
                proof {
                    lemma_fib_monotonic(len as nat, i as nat);
                }
                return None;
            }
            self.fib_numbers.push(a + b);
        }
        Some(self.fib_numbers[i])
    }
}

impl UniversalDecoder for FibonacciDecoder {
    open spec fn wf(&self) -> bool {
        self.holds_fibonacci_numbers()
    }

    open spec fn parse(bits: Seq<bool>) -> Option<Parsed> {
        fibonacci_parse(bits)
    }

    fn decode_number(&mut self, input_stream: &mut BitInputStream) -> (number: Option<usize>) {
        let mut read_number: usize = 0;
        let mut i: usize = 2;
        let mut last_bit = false;
        loop
            invariant
                self.wf(),
                input_stream.wf(),
                input_stream.bytes() == old(input_stream).bytes(),
                input_stream.rest().len() <= old(input_stream).rest().len(),
                2 <= i <= fibonacci_limit(),
                last_bit ==> read_number >= 1,
                fibonacci_parse(old(input_stream).rest()) == fibonacci_parse_from(
                    input_stream.rest(),
                    read_number as nat,
                    i as nat,
                    last_bit,
                ),
            decreases input_stream.rest().len(),
        {
            let bit = match input_stream.read_bit() {
                Some(bit) => bit,
                None => {
                    return None;
                },
            };
            if last_bit && bit {
                return Some(read_number);
            }
            if bit {
                if i >= 94 {
                    return None;
                }
                let f = match self.checked_fib(i) {
                    Some(f) => f,
                    None => {
                        return None;
                    },
                };
                if read_number > usize::MAX - f {
                    return None;
                }
                proof {
                    lemma_fib_monotonic(2, i as nat);
                }
                read_number = read_number + f;
            }
            last_bit = bit;
            if i < 94 {
                i = i + 1;
            }
        }
    }
}

impl Default for FibonacciDecoder {
    fn default() -> (decoder: Self)
        ensures
            decoder.wf(),
    {
        Self::new()
    }
}

} // verus!
