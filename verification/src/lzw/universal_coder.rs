//! Universal codes for the positive integers, and the bit writer that they
//! write to.
//!
//! Each code gives every number a word of its own, no word being the start
//! of another, so that words can follow one another without separators.
use vstd::prelude::*;
use vstd::arithmetic::power2::{pow2, lemma_pow2_unfold, lemma_pow2_pos, lemma2_to64};
use vstd::arithmetic::div_mod::lemma_div_denominator;
use crate::bits::{unpack, tail_bits, place, pad_len, zeros, lemma_tail_bits_push, lemma_unpack_push};

verus! {

/// Binary digit `i` of `n`, digit 0 being the least significant one.
pub open spec fn digit(n: nat, i: nat) -> bool {
    (n / pow2(i)) % 2 == 1
}

/// The `len` low binary digits of `n`, most significant first.
pub open spec fn binary(n: nat, len: nat) -> Seq<bool> {
    Seq::new(len, |k: int| digit(n, (len - 1 - k) as nat))
}

/// The number of binary digits of `n`: none for zero.
pub open spec fn bit_length(n: nat) -> nat
    decreases n,
{
    if n == 0 {
        0
    } else {
        1 + bit_length(n / 2)
    }
}

/// `count` copies of `fill`.
pub open spec fn filling(fill: bool, count: nat) -> Seq<bool> {
    Seq::new(count, |i: int| fill)
}

/// `bits` followed by as many copies of `fill` as it takes to reach a
/// byte boundary.
pub open spec fn padded(bits: Seq<bool>, fill: bool) -> Seq<bool> {
    bits + filling(fill, pad_len(bits.len()))
}

/// The Elias gamma word of `n`: one zero for each binary digit but the
/// first, then the binary digits.
pub open spec fn gamma_word(n: nat) -> Seq<bool> {
    zeros((bit_length(n) - 1) as nat) + binary(n, bit_length(n))
}

/// The Elias delta word of `n`: the gamma word of the number of binary
/// digits, then the binary digits but the first.
pub open spec fn delta_word(n: nat) -> Seq<bool> {
    gamma_word(bit_length(n)) + binary(n, (bit_length(n) - 1) as nat)
}

/// The groups of the Elias omega word of `n`: the binary digits of `n`,
/// preceded by the groups of their number less one, down to the number
/// one, which has no group.
pub open spec fn omega_groups(n: nat) -> Seq<bool>
    decreases n,
{
    if n <= 1 {
        Seq::empty()
    } else {
        proof {
            lemma_bit_length(n);
        }
        omega_groups((bit_length(n) - 1) as nat) + binary(n, bit_length(n))
    }
}

/// The Elias omega word of `n`: its groups and a closing zero.
pub open spec fn omega_word(n: nat) -> Seq<bool> {
    omega_groups(n).push(false)
}

/// The Fibonacci numbers: 0, 1, 1, 2, 3, 5, ...
pub open spec fn fib(i: nat) -> nat
    decreases i,
{
    if i == 0 {
        0
    } else if i == 1 {
        1
    } else {
        fib((i - 1) as nat) + fib((i - 2) as nat)
    }
}

/// The digits of `n` for the Fibonacci numbers `fib(2)` to `fib(top)`,
/// in that order, chosen greedily from `fib(top)` down.
pub open spec fn fibonacci_digits(n: nat, top: nat) -> Seq<bool>
    decreases top,
{
    if top < 2 {
        Seq::empty()
    } else if n >= fib(top) {
        fibonacci_digits((n - fib(top)) as nat, (top - 1) as nat).push(true)
    } else {
        fibonacci_digits(n, (top - 1) as nat).push(false)
    }
}

/// The index, from `from` on, of the last Fibonacci number that is not
/// above `n`; searched for among the first `limit` indices.
pub open spec fn fibonacci_top(n: nat, from: nat, limit: nat) -> nat
    decreases limit - from,
{
    if from >= limit || n < fib(from + 1) {
        from
    } else {
        fibonacci_top(n, from + 1, limit)
    }
}

/// The number of Fibonacci numbers that a machine word might hold.
pub open spec fn fibonacci_limit() -> nat {
    94
}

/// The Fibonacci word of `n`: its digits for `fib(2)` up to the last
/// Fibonacci number that is not above `n`, and a closing one.
pub open spec fn fibonacci_word(n: nat) -> Seq<bool> {
    fibonacci_digits(n, fibonacci_top(n, 1, fibonacci_limit())).push(true)
}

/// Halving takes one binary digit away.
pub proof fn lemma_bit_length(n: nat)
    ensures
        n > 0 ==> bit_length(n) == 1 + bit_length(n / 2),
        n > 0 ==> pow2((bit_length(n) - 1) as nat) <= n < pow2(bit_length(n)),
        n == 0 ==> bit_length(n) == 0,
        n >= 2 ==> bit_length(n) - 1 < n,
    decreases n,
{
    lemma2_to64();
    if n > 0 {
        lemma_bit_length(n / 2);
        lemma_pow2_unfold(bit_length(n));
        if n >= 2 {
            lemma_pow2_unfold((bit_length(n) - 1) as nat);
        }
    }
}

/// Collects bits, most significant first, into bytes.
pub struct BitOutputStream {
    buf: u8,
    n: u8,
    output_stream: Vec<u8>,
    written_bytes: usize,
}

impl BitOutputStream {
    /// Fewer than eight bits wait in the accumulator, and the counter tells
    /// the number of bytes written.
    pub closed spec fn wf(&self) -> bool {
        &&& self.n < 8
        &&& self.written_bytes == self.output_stream@.len()
    }

    /// The bytes written so far.
    pub closed spec fn bytes(&self) -> Seq<u8> {
        self.output_stream@
    }

    /// All bits written so far: those of the bytes written, then those that
    /// wait in the accumulator.
    pub closed spec fn bits(&self) -> Seq<bool> {
        unpack(self.output_stream@) + tail_bits(self.buf, self.n as nat)
    }

    /// A stream to which nothing has been written.
    pub fn new() -> (stream: Self)
        ensures
            stream.wf(),
            stream.bits() == Seq::<bool>::empty(),
            stream.bytes() == Seq::<u8>::empty(),
    {
        let stream = Self { buf: 0, n: 0, written_bytes: 0, output_stream: Vec::new() };
        assert(stream.bits() =~= Seq::<bool>::empty());
        assert(stream.bytes() =~= Seq::<u8>::empty());
        stream
    }

    /// Appends one bit. Every eighth bit completes a byte, which is written
    /// out.
    pub fn write_bit(&mut self, bit: bool)
        requires
            old(self).wf(),
        ensures
            final(self).wf(),
            final(self).bits() == old(self).bits().push(bit),
    {
        proof {
            lemma_tail_bits_push(self.buf, bit, self.n as nat);
            lemma_tail_bits_push(((self.buf << 1) | place(bit, 7)), bit, 0);
        }
        let ghost before = self.bits();
        self.buf = (self.buf << 1) | (if bit {
            1u8
        } else {
            0u8
        });
        self.n = self.n + 1;
        if self.n >= 8 {
            proof {
                lemma_unpack_push(self.output_stream@, self.buf);
            }
            self.output_stream.push(self.buf);
            self.buf = 0;
            self.n = 0;
            self.written_bytes = self.output_stream.len();
            assert(self.bits() =~= before.push(bit));
        } else {
            assert(self.bits() =~= before.push(bit));
        }
    }

    /// Fills the last byte with one bits, if it is not complete, and
    /// writes it out.
    pub fn pad_with_ones(&mut self)
        requires
            old(self).wf(),
        ensures
            final(self).wf(),
            final(self).bits() == padded(old(self).bits(), true),
            unpack(final(self).bytes()) == final(self).bits(),
    {
        self.pad(true);
    }

    /// Fills the last byte with zero bits, if it is not complete, and
    /// writes it out.
    pub fn pad_with_zeros(&mut self)
        requires
            old(self).wf(),
        ensures
            final(self).wf(),
            final(self).bits() == padded(old(self).bits(), false),
            unpack(final(self).bytes()) == final(self).bits(),
    {
        self.pad(false);
    }

    /// The number of bytes written so far.
    pub fn written_bytes(&self) -> (count: usize)
        requires
            self.wf(),
        ensures
            count == self.bytes().len(),
    {
        self.written_bytes
    }

    /// The bytes written so far.
    pub fn as_bytes(&self) -> (bytes: &Vec<u8>)
        ensures
            bytes@ == self.bytes(),
    {
        &self.output_stream
    }

    /// Writes copies of `fill` up to the next byte boundary.
    fn pad(&mut self, fill: bool)
        requires
            old(self).wf(),
        ensures
            final(self).wf(),
            final(self).bits() == padded(old(self).bits(), fill),
            unpack(final(self).bytes()) == final(self).bits(),
    {
        let ghost start = self.bits();
        proof {
            assert(start.len() % 8 == self.n as int % 8);
            assert(start + filling(fill, 0) =~= start);
        }
        while self.n != 0
            invariant
                self.wf(),
                self.bits().len() % 8 == self.n as int,
                self.n != 0 ==> self.n as int >= start.len() % 8 > 0,
                self.n == 0 ==> self.bits() == padded(start, fill),
                self.n != 0 ==> self.bits() == start + filling(
                    fill,
                    (self.n as int - start.len() % 8) as nat,
                ),
            decreases (if self.n == 0 { 0int } else { 8 - self.n }),
        {
            let ghost before = self.bits();
            let ghost k = (self.n as int - start.len() % 8) as nat;
            self.write_bit(fill);
            proof {
                assert(before.push(fill) =~= start + filling(fill, k + 1));
                if self.n == 0 {
                    assert(k + 1 == pad_len(start.len()));
                }
            }
        }
        proof {
            assert(self.bits() =~= unpack(self.bytes()));
        }
    }
}

/// The number of binary digits of `number`, less one: its base 2
/// logarithm, rounded down.
pub fn floor_log2(number: usize) -> (log: u32)
    requires
        number > 0,
    ensures
        log + 1 == bit_length(number as nat),
        log < usize::BITS,
{
    let mut n = number;
    let mut log: u32 = 0;
    proof {
        lemma_bit_length(n as nat);
        lemma_length_bound(number as nat);
    }
    while n > 1
        invariant
            n > 0,
            bit_length(number as nat) == bit_length(n as nat) + log,
            bit_length(number as nat) <= usize::BITS,
        decreases n,
    {
        proof {
            lemma_bit_length(n as nat);
            lemma_bit_length((n / 2) as nat);
        }
        n = n / 2;
        log = log + 1;
    }
    proof {
        lemma_bit_length(1);
        lemma_bit_length(0);
    }
    log
}

/// A number that fits a machine word has no more binary digits than the
/// word has bits.
pub proof fn lemma_length_bound(n: nat)
    requires
        n <= usize::MAX,
    ensures
        bit_length(n) <= usize::BITS,
{
    lemma_bit_length(n);
    lemma2_to64();
    if n > 0 && bit_length(n) > usize::BITS {
        vstd::arithmetic::power2::lemma_pow2_strictly_increases(
            usize::BITS as nat,
            (bit_length(n) - 1) as nat,
        );
        if bit_length(n) - 1 > usize::BITS {
        }
        assert(usize::BITS == 32 || usize::BITS == 64);
        assert(pow2(usize::BITS as nat) > usize::MAX);
    }
}

/// Writes `count` zero bits.
fn write_zeros(output_stream: &mut BitOutputStream, count: u32)
    requires
        old(output_stream).wf(),
    ensures
        final(output_stream).wf(),
        final(output_stream).bits() == old(output_stream).bits() + zeros(count as nat),
{
    let ghost start = output_stream.bits();
    let mut i: u32 = 0;
    proof {
        assert(start + zeros(0) =~= start);
    }
    while i < count
        invariant
            i <= count,
            output_stream.wf(),
            output_stream.bits() == start + zeros(i as nat),
        decreases count - i,
    {
        output_stream.write_bit(false);
        proof {
            assert((start + zeros(i as nat)).push(false) =~= start + zeros((i + 1) as nat));
        }
        i = i + 1;
    }
}

/// The `count` low binary digits of `number`, least significant first.
fn low_digits(number: usize, count: u32) -> (digits: Vec<bool>)
    ensures
        digits@.reverse() == binary(number as nat, count as nat),
        digits@.len() == count,
{
    let mut digits: Vec<bool> = Vec::new();
    let mut n = number;
    let mut i: u32 = 0;
    proof {
        lemma2_to64();
    }
    while i < count
        invariant
            i <= count,
            digits@.len() == i,
            n == number as nat / pow2(i as nat),
            forall|k: int| 0 <= k < i ==> #[trigger] digits@[k] == digit(number as nat, k as nat),
        decreases count - i,
    {
        proof {
            lemma_pow2_pos(i as nat);
            lemma_pow2_unfold((i + 1) as nat);
            lemma_div_denominator(number as int, pow2(i as nat) as int, 2);
        }
        digits.push(n % 2 == 1);
        n = n / 2;
        i = i + 1;
    }
    proof {
        assert(digits@.reverse() =~= binary(number as nat, count as nat));
    }
    digits
}

/// Writes `bits` from the last to the first.
fn write_reversed(output_stream: &mut BitOutputStream, bits: &Vec<bool>)
    requires
        old(output_stream).wf(),
    ensures
        final(output_stream).wf(),
        final(output_stream).bits() == old(output_stream).bits() + bits@.reverse(),
{
    let ghost start = output_stream.bits();
    let mut i: usize = bits.len();
    proof {
        assert(start + bits@.reverse().take(0) =~= start);
    }
    while i > 0
        invariant
            i <= bits@.len(),
            output_stream.wf(),
            output_stream.bits() == start + bits@.reverse().take(bits@.len() - i),
        decreases i,
    {
        i = i - 1;
        output_stream.write_bit(bits[i]);
        proof {
            let written = bits@.len() - i;
            assert(bits@.reverse().take(written - 1).push(bits@[i as int]) =~= bits@.reverse().take(
                written,
            ));
            assert((start + bits@.reverse().take(written - 1)).push(bits@[i as int]) =~= start
                + bits@.reverse().take(written));
        }
    }
    proof {
        assert(bits@.reverse().take(bits@.len() as int) =~= bits@.reverse());
    }
}

/// A code that gives every number that it encodes a word of bits.
pub trait UniversalCoder {
    /// What the coder keeps between calls is in order.
    spec fn wf(&self) -> bool;

    /// Whether the code has a word for `number` that this machine can
    /// compute.
    spec fn encodes(number: usize) -> bool;

    /// The word of `number`.
    spec fn word(number: nat) -> Seq<bool>;

    /// The bit that fills the last byte of a stream of words.
    spec fn fill() -> bool;

    /// Writes the word of `number`.
    fn code_number(&mut self, output_stream: &mut BitOutputStream, number: usize)
        requires
            old(self).wf(),
            old(output_stream).wf(),
            Self::encodes(number),
        ensures
            final(self).wf(),
            final(output_stream).wf(),
            final(output_stream).bits() == old(output_stream).bits() + Self::word(number as nat),
    ;

    /// Fills the last byte of the stream.
    fn pad(&mut self, output_stream: &mut BitOutputStream)
        requires
            old(self).wf(),
            old(output_stream).wf(),
        ensures
            final(self).wf(),
            final(output_stream).wf(),
            final(output_stream).bits() == padded(old(output_stream).bits(), Self::fill()),
            unpack(final(output_stream).bytes()) == final(output_stream).bits(),
    ;
}

/// The Elias gamma code.
pub struct GammaCoder;

impl UniversalCoder for GammaCoder {
    open spec fn wf(&self) -> bool {
        true
    }

    open spec fn encodes(number: usize) -> bool {
        number >= 1
    }

    open spec fn word(number: nat) -> Seq<bool> {
        gamma_word(number)
    }

    open spec fn fill() -> bool {
        false
    }

    fn code_number(&mut self, output_stream: &mut BitOutputStream, number: usize) {
        let ghost start = output_stream.bits();
        let num_size = floor_log2(number) + 1;
        write_zeros(output_stream, num_size - 1);
        let digits = low_digits(number, num_size);
        write_reversed(output_stream, &digits);
        proof {
            assert(start + zeros((num_size - 1) as nat) + binary(number as nat, num_size as nat)
                =~= start + gamma_word(number as nat));
        }
    }

    fn pad(&mut self, output_stream: &mut BitOutputStream) {
        output_stream.pad_with_zeros();
    }
}

/// The Elias delta code.
pub struct DeltaCoder;

impl UniversalCoder for DeltaCoder {
    open spec fn wf(&self) -> bool {
        true
    }

    open spec fn encodes(number: usize) -> bool {
        number >= 1
    }

    open spec fn word(number: nat) -> Seq<bool> {
        delta_word(number)
    }

    open spec fn fill() -> bool {
        false
    }

    fn code_number(&mut self, output_stream: &mut BitOutputStream, number: usize) {
        let ghost start = output_stream.bits();
        let n = floor_log2(number) + 1;
        let mut gamma = GammaCoder;
        gamma.code_number(output_stream, n as usize);
        let digits = low_digits(number, n - 1);
        write_reversed(output_stream, &digits);
        proof {
            assert(start + gamma_word(n as nat) + binary(number as nat, (n - 1) as nat) =~= start
                + delta_word(number as nat));
        }
    }

    fn pad(&mut self, output_stream: &mut BitOutputStream) {
        output_stream.pad_with_zeros();
    }
}

/// The Elias omega code.
pub struct OmegaCoder;

impl UniversalCoder for OmegaCoder {
    open spec fn wf(&self) -> bool {
        true
    }

    open spec fn encodes(number: usize) -> bool {
        number >= 1
    }

    open spec fn word(number: nat) -> Seq<bool> {
        omega_word(number)
    }

    open spec fn fill() -> bool {
        true
    }

    fn code_number(&mut self, output_stream: &mut BitOutputStream, number: usize) {
        let mut bits: Vec<bool> = Vec::new();
        bits.push(false);
        let mut rec_number = number;
        proof {
            assert(omega_groups(number as nat) + bits@.reverse() =~= omega_word(number as nat));
        }
        while rec_number != 1
            invariant
                rec_number >= 1,
                omega_word(number as nat) == omega_groups(rec_number as nat) + bits@.reverse(),
            decreases rec_number,
        {
            let n_size = floor_log2(rec_number);
            let mut digits = low_digits(rec_number, n_size + 1);
            proof {
                lemma_bit_length(rec_number as nat);
                assert((bits@ + digits@).reverse() =~= digits@.reverse() + bits@.reverse());
                assert(omega_groups(n_size as nat) + binary(
                    rec_number as nat,
                    (n_size + 1) as nat,
                ) + bits@.reverse() =~= omega_groups(n_size as nat) + (digits@.reverse()
                    + bits@.reverse()));
            }
            bits.append(&mut digits);
            rec_number = n_size as usize;
        }
        proof {
            assert(omega_groups(1) + bits@.reverse() =~= bits@.reverse());
        }
        write_reversed(output_stream, &bits);
    }

    fn pad(&mut self, output_stream: &mut BitOutputStream) {
        output_stream.pad_with_ones()
    }
}

/// The Fibonacci numbers are positive from the first on and do not
/// decrease.
pub proof fn lemma_fib_monotonic(i: nat, j: nat)
    requires
        i <= j,
    ensures
        fib(i) <= fib(j),
        j >= 1 ==> fib(j) >= 1,
    decreases j,
{
    if j >= 2 {
        lemma_fib_monotonic(0, (j - 2) as nat);
        lemma_fib_monotonic(0, (j - 1) as nat);
        if i < j {
            lemma_fib_monotonic(i, (j - 1) as nat);
        }
    }
}

/// What `fibonacci_top` finds: every Fibonacci number from `from` up to
/// it is at most `n`, and the next one is above `n` unless the search
/// reached its limit.
pub proof fn lemma_fibonacci_top(n: nat, from: nat, limit: nat)
    requires
        from <= limit,
        fib(from) <= n || from <= 1,
    ensures
        from <= fibonacci_top(n, from, limit) <= limit,
        fibonacci_top(n, from, limit) < limit ==> n < fib(fibonacci_top(n, from, limit) + 1),
        fibonacci_top(n, from, limit) > from ==> fib(fibonacci_top(n, from, limit)) <= n,
    decreases limit - from,
{
    if !(from >= limit || n < fib(from + 1)) {
        lemma_fibonacci_top(n, from + 1, limit);
    }
}

/// The Fibonacci code, with the Fibonacci numbers that it has used so far.
pub struct FibonacciCoder {
    fib_numbers: Vec<usize>,
}

impl FibonacciCoder {
    /// The numbers kept are the first Fibonacci numbers, at least two of
    /// them.
    pub closed spec fn holds_fibonacci_numbers(&self) -> bool {
        &&& self.fib_numbers@.len() >= 2
        &&& forall|i: int|
            0 <= i < self.fib_numbers@.len() ==> #[trigger] self.fib_numbers@[i] == fib(i as nat)
    }

    /// How many Fibonacci numbers the coder has computed.
    pub closed spec fn known(&self) -> nat {
        self.fib_numbers@.len()
    }

    /// A coder that knows the Fibonacci numbers 0 and 1.
    pub fn new() -> (coder: Self)
        ensures
            coder.wf(),
    {
        let mut fib_numbers: Vec<usize> = Vec::new();
        fib_numbers.push(0);
        fib_numbers.push(1);
        Self { fib_numbers }
    }

    /// The index of the last Fibonacci number that is not above `to`, or 1
    /// if `to` is zero. Computes the Fibonacci numbers up to the one that
    /// follows.
    pub fn find_or_resize(&mut self, to: usize) -> (index: usize)
        requires
            old(self).wf(),
            Self::encodes(to),
        ensures
            final(self).wf(),
            index == fibonacci_top(to as nat, 1, fibonacci_limit()),
            index + 1 < final(self).known(),
            index >= 1,
    {
        let mut i: usize = 2;
        let ghost top = fibonacci_top(to as nat, 1, fibonacci_limit());
        proof {
            lemma_fibonacci_top(to as nat, 1, fibonacci_limit());
        }
        loop
            invariant
                self.wf(),
                2 <= i <= self.fib_numbers@.len(),
                i <= top + 1,
                top + 1 <= fibonacci_limit(),
                to < fib(top + 1) <= usize::MAX,
                fibonacci_top(to as nat, (i - 1) as nat, fibonacci_limit()) == top,
            ensures
                self.wf(),
                i == top + 1,
                i < self.fib_numbers@.len(),
            decreases top + 1 - i,
        {
            if i == self.fib_numbers.len() {
                proof {
                    lemma_fib_monotonic(i as nat, top + 1);
                }
                let next = self.fib_numbers[i - 1] + self.fib_numbers[i - 2];
                self.fib_numbers.push(next);
            }
            if to < self.fib_numbers[i] {
                break ;
            }
            proof {
                lemma_fibonacci_top(to as nat, i as nat, fibonacci_limit());
            }
            i = i + 1;
        }
        i - 1
    }
}

impl UniversalCoder for FibonacciCoder {
    open spec fn wf(&self) -> bool {
        self.holds_fibonacci_numbers()
    }

    open spec fn encodes(number: usize) -> bool {
        let top = fibonacci_top(number as nat, 1, fibonacci_limit());
        top < fibonacci_limit() && fib(top + 1) <= usize::MAX
    }

    open spec fn word(number: nat) -> Seq<bool> {
        fibonacci_word(number)
    }

    open spec fn fill() -> bool {
        false
    }

    fn code_number(&mut self, output_stream: &mut BitOutputStream, number: usize) {
        let mut bits: Vec<bool> = Vec::new();
        bits.push(true);
        let mut i = self.find_or_resize(number);
        let mut n = number;
        proof {
            assert(fibonacci_digits(n as nat, i as nat) + bits@.reverse() =~= fibonacci_word(
                number as nat,
            ));
        }
        while i >= 2
            invariant
                self.wf(),
                1 <= i < self.fib_numbers@.len(),
                fibonacci_word(number as nat) == fibonacci_digits(n as nat, i as nat)
                    + bits@.reverse(),
            decreases i,
        {
            let ghost before = bits@;
            let taken = n >= self.fib_numbers[i];
            bits.push(taken);
            proof {
                assert(bits@.reverse() =~= seq![taken] + before.reverse());
                let rest = if taken {
                    (n - fib(i as nat)) as nat
                } else {
                    n as nat
                };
                assert(fibonacci_digits(rest, (i - 1) as nat).push(taken) + before.reverse()
                    =~= fibonacci_digits(rest, (i - 1) as nat) + (seq![taken] + before.reverse()));
            }
            if taken {
                n = n - self.fib_numbers[i];
            }
            i = i - 1;
        }
        proof {
            assert(fibonacci_digits(n as nat, i as nat) + bits@.reverse() =~= bits@.reverse());
        }
        write_reversed(output_stream, &bits);
    }

    fn pad(&mut self, output_stream: &mut BitOutputStream) {
        output_stream.pad_with_zeros();
    }
}

impl Default for FibonacciCoder {
    fn default() -> (coder: Self)
        ensures
            coder.wf(),
    {
        Self::new()
    }
}

} // verus!
