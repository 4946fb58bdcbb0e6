//! The encoder: what it writes, as mathematics, and the bit writer and the
//! register machine that write it.
//!
//! Coding a symbol narrows the interval to the symbol's share and
//! renormalizes it. Each renormalization step that finds the interval in
//! one half of the register range settles a bit of the output; a step
//! that finds it astride the midpoint leaves a bit pending, to be written
//! as the inverse of the next bit that settles.
use vstd::prelude::*;
use vstd::arithmetic::power2::{pow2, lemma_pow2_unfold, lemma_pow2_strictly_increases, lemma2_to64};
use crate::bits::{
    unpack,
    pack,
    tail_bits,
    place,
    pad_with_zeros,
    pad_len,
    zeros,
    lemma_tail_bits_push,
    lemma_unpack_push,
    lemma_pack_unique,
};
use crate::arithmetic::model::{
    Model,
    ModelView,
    PRange,
    MAX_CHARACTER_COUNT,
    end_of_stream,
    lemma_observe_wf,
};
use crate::arithmetic::interval::{
    Interval,
    HALF_U32,
    ONE_FOURTH_U32,
    THREE_FOURTHS_U32,
    register_range,
    narrow_registers,
    lemma_expand,
    lemma_narrow,
    lemma_model_share,
};

verus! {

/// A settled bit followed by the pending bits that it resolves, which are
/// its inverse.
pub open spec fn emit(bit: bool, pending: nat) -> Seq<bool> {
    seq![bit] + Seq::new(pending, |i: int| !bit)
}

/// The outcome of renormalizing an interval.
pub struct Renorm {
    /// The settled interval.
    pub interval: Interval,
    /// The number of bits still pending.
    pub pending: nat,
    /// The bits written on the way.
    pub bits: Seq<bool>,
}

/// Renormalizes `interval`, with `pending` bits pending at the start.
pub open spec fn renorm(interval: Interval, pending: nat) -> Renorm
    decreases register_range() - interval.width(),
    when interval.valid()
{
    if interval.in_lower_half() {
        let rest = renorm(interval.expand(0), 0);
        Renorm { bits: emit(false, pending) + rest.bits, ..rest }
    } else if interval.in_upper_half() {
        let rest = renorm(interval.expand(HALF_U32 as int), 0);
        Renorm { bits: emit(true, pending) + rest.bits, ..rest }
    } else if interval.in_middle() {
        renorm(interval.expand(ONE_FOURTH_U32 as int), pending + 1)
    } else {
        Renorm { interval, pending, bits: Seq::empty() }
    }
}

/// The bits that end the stream: one that tells the quarter in which the
/// interval starts, and the pending bits, one more than were pending.
pub open spec fn closing_bits(interval: Interval, pending: nat) -> Seq<bool> {
    emit(interval.low >= ONE_FOURTH_U32, pending + 1)
}

/// The state of an encoder between two symbols.
pub struct EncoderState {
    /// The coding interval.
    pub interval: Interval,
    /// The number of bits whose value is not settled yet.
    pub pending: nat,
    /// The model of the bytes coded so far.
    pub model: ModelView,
}

impl EncoderState {
    /// The state of an encoder that has not coded anything: the whole
    /// register range, no bit pending, the uniform prior.
    pub open spec fn initial() -> EncoderState {
        EncoderState { interval: Interval::full(), pending: 0, model: ModelView::initial() }
    }

    /// The interval is settled and the model is well-formed.
    pub open spec fn wf(self) -> bool {
        &&& self.interval.settled()
        &&& self.model.wf()
    }

    /// The interval narrowed to the share of `symbol`.
    pub open spec fn narrowed(self, symbol: int) -> Interval {
        self.interval.narrow(
            self.model.lower(symbol),
            self.model.upper(symbol),
            self.model.total(),
        )
    }

    /// What coding `symbol` does to the interval and the pending count,
    /// and the bits that it writes.
    pub open spec fn step(self, symbol: int) -> Renorm {
        renorm(self.narrowed(symbol), self.pending)
    }

    /// The state after `byte` has been coded and observed.
    pub open spec fn coded(self, byte: u8) -> EncoderState {
        let step = self.step(byte as int);
        EncoderState {
            interval: step.interval,
            pending: step.pending,
            model: self.model.observe(byte),
        }
    }

    /// The state after the bytes of `input` have been coded, one after
    /// the other.
    pub open spec fn coded_all(self, input: Seq<u8>) -> EncoderState
        decreases input.len(),
    {
        if input.len() == 0 {
            self
        } else {
            self.coded_all(input.drop_last()).coded(input.last())
        }
    }

    /// The state of an encoder that has coded `input`.
    pub open spec fn after(input: Seq<u8>) -> EncoderState {
        EncoderState::initial().coded_all(input)
    }

    /// The bits that an encoder in this state writes for `input` and the
    /// end of the stream.
    pub open spec fn writes(self, input: Seq<u8>) -> Seq<bool>
        decreases input.len(),
    {
        if input.len() == 0 {
            let last = self.step(end_of_stream());
            last.bits + closing_bits(last.interval, last.pending)
        } else {
            self.step(input[0] as int).bits + self.coded(input[0]).writes(input.skip(1))
        }
    }
}

/// The bits of the encoding of `input`.
pub open spec fn encode_bits(input: Seq<u8>) -> Seq<bool> {
    EncoderState::initial().writes(input)
}

/// The encoding of `input`: its bits packed into bytes, the last byte
/// filled with zero bits.
pub open spec fn encode(input: Seq<u8>) -> Seq<u8> {
    pack(encode_bits(input))
}

/// Renormalization ends in a settled interval, which is wider than the
/// largest total count that a model can have.
pub proof fn lemma_renorm_settles(interval: Interval, pending: nat)
    requires
        interval.valid(),
    ensures
        renorm(interval, pending).interval.settled(),
        renorm(interval, pending).interval.width() > MAX_CHARACTER_COUNT,
    decreases register_range() - interval.width(),
{
    lemma_expand(interval);
    if interval.in_lower_half() {
        lemma_renorm_settles(interval.expand(0), 0);
    } else if interval.in_upper_half() {
        lemma_renorm_settles(interval.expand(HALF_U32 as int), 0);
    } else if interval.in_middle() {
        lemma_renorm_settles(interval.expand(ONE_FOURTH_U32 as int), pending + 1);
    }
}

/// Coding any symbol keeps the bounds of the interval in order, and ends
/// in an interval that is settled again and at least as wide as the total
/// count of the model, before and after it observes the symbol.
pub proof fn lemma_step_settles(state: EncoderState, symbol: int)
    requires
        state.wf(),
        0 <= symbol <= 256,
    ensures
        state.narrowed(symbol).valid(),
        state.interval.low <= state.narrowed(symbol).low,
        state.narrowed(symbol).high <= state.interval.high,
        state.step(symbol).interval.settled(),
        state.step(symbol).interval.width() >= state.model.total(),
        forall|byte: u8|
            state.step(symbol).interval.width() >= #[trigger] state.model.observe(byte).total(),
{
    lemma_model_share(state.model, symbol);
    lemma_narrow(
        state.interval,
        state.model.lower(symbol),
        state.model.upper(symbol),
        state.model.total(),
    );
    lemma_renorm_settles(state.narrowed(symbol), state.pending);
    assert forall|byte: u8|
        state.step(symbol).interval.width() >= #[trigger] state.model.observe(byte).total() by {
        lemma_observe_wf(state.model, byte);
    }
}

/// Coding a byte leaves the state well-formed.
pub proof fn lemma_coded_wf(state: EncoderState, byte: u8)
    requires
        state.wf(),
    ensures
        state.coded(byte).wf(),
        state.coded(byte).interval.width() >= state.coded(byte).model.total(),
{
    lemma_step_settles(state, byte as int);
    lemma_observe_wf(state.model, byte);
}

/// Whatever bytes an encoder has coded, its interval is settled, with
/// `low <= high`, and at least as wide as the total count of its model.
pub proof fn lemma_coded_all_wf(state: EncoderState, input: Seq<u8>)
    requires
        state.wf(),
    ensures
        state.coded_all(input).wf(),
        state.coded_all(input).interval.low <= state.coded_all(input).interval.high,
        state.coded_all(input).interval.width() >= state.coded_all(input).model.total(),
        state.coded_all(input).model == state.model.observe_all(input),
    decreases input.len(),
{
    if input.len() > 0 {
        lemma_coded_all_wf(state, input.drop_last());
        lemma_coded_wf(state.coded_all(input.drop_last()), input.last());
    } else {
        lemma_model_share(state.model, 0);
    }
}

/// Collects bits, most significant first, into bytes.
pub struct BitOutputStream {
    buf: u8,
    n: u8,
    output_stream: Vec<u8>,
    written_bytes: usize,
}

impl BitOutputStream {
    /// Fewer than eight bits wait in the accumulator, and the counter tells
    /// the number of bytes written.
    pub closed spec fn wf(&self) -> bool {
        &&& self.n < 8
        &&& self.written_bytes == self.output_stream@.len()
    }

    /// The bytes written so far.
    pub closed spec fn bytes(&self) -> Seq<u8> {
        self.output_stream@
    }

    /// All bits written so far: those of the bytes written, then those that
    /// wait in the accumulator.
    pub closed spec fn bits(&self) -> Seq<bool> {
        unpack(self.output_stream@) + tail_bits(self.buf, self.n as nat)
    }

    /// Every eight bits make a byte: the bytes written hold all bits but
    /// the fewer than eight that wait in the accumulator.
    pub proof fn lemma_bits(&self)
        requires
            self.wf(),
        ensures
            self.bytes().len() == self.bits().len() / 8,
            self.bits().take(8 * self.bytes().len() as int) == unpack(self.bytes()),
            self.bits().len() % 8 == 0 ==> self.bits() == unpack(self.bytes()),
    {
        assert(self.bits().take(8 * self.bytes().len() as int) =~= unpack(self.bytes()));
        if self.bits().len() % 8 == 0 {
            assert(self.n == 0);
            assert(self.bits() =~= unpack(self.bytes()));
        }
    }

    /// A stream to which nothing has been written.
    pub fn new() -> (stream: Self)
        ensures
            stream.wf(),
            stream.bits() == Seq::<bool>::empty(),
            stream.bytes() == Seq::<u8>::empty(),
    {
        let stream = Self { buf: 0, n: 0, written_bytes: 0, output_stream: Vec::new() };
        assert(stream.bits() =~= Seq::<bool>::empty());
        assert(stream.bytes() =~= Seq::<u8>::empty());
        stream
    }

    /// Appends one bit. Every eighth bit completes a byte, which is written
    /// out.
    pub fn write_bit(&mut self, bit: bool)
        requires
            old(self).wf(),
        ensures
            final(self).wf(),
            final(self).bits() == old(self).bits().push(bit),
    {
        proof {
            lemma_tail_bits_push(self.buf, bit, self.n as nat);
            lemma_tail_bits_push(((self.buf << 1) | place(bit, 7)), bit, 0);
        }
        let ghost before = self.bits();
        self.buf = (self.buf << 1) | (if bit {
            1u8
        } else {
            0u8
        });
        self.n = self.n + 1;
        if self.n >= 8 {
            proof {
                lemma_unpack_push(self.output_stream@, self.buf);
            }
            self.output_stream.push(self.buf);
            self.buf = 0;
            self.n = 0;
            self.written_bytes = self.output_stream.len();
            assert(self.bits() =~= before.push(bit));
        } else {
            assert(self.bits() =~= before.push(bit));
        }
    }

    /// Fills the last byte with zero bits, if it is not complete, and
    /// writes it out.
    pub fn finish(&mut self)
        requires
            old(self).wf(),
        ensures
            final(self).wf(),
            final(self).bits() == pad_with_zeros(old(self).bits()),
            unpack(final(self).bytes()) == final(self).bits(),
    {
        let ghost start = self.bits();
        proof {
            assert(start.len() % 8 == self.n as int % 8);
            assert(start + zeros(0) =~= start);
        }
        while self.n != 0
            invariant
                self.wf(),
                self.bits().len() % 8 == self.n as int,
                self.n != 0 ==> self.n as int >= start.len() % 8 > 0,
                self.n == 0 ==> self.bits() == pad_with_zeros(start),
                self.n != 0 ==> self.bits() == start + zeros(
                    (self.n as int - start.len() % 8) as nat,
                ),
            decreases (if self.n == 0 { 0int } else { 8 - self.n }),
        {
            let ghost before = self.bits();
            let ghost k = (self.n as int - start.len() % 8) as nat;
            self.write_bit(false);
            proof {
                assert(before.push(false) =~= start + zeros(k + 1));
                if self.n == 0 {
                    assert(k + 1 == pad_len(start.len()));
                }
            }
        }
        proof {
            assert(self.bits() =~= unpack(self.bytes()));
        }
    }

    /// The number of bytes written so far.
    pub fn written_bytes(&self) -> (count: usize)
        requires
            self.wf(),
        ensures
            count == self.bytes().len(),
    {
        self.written_bytes
    }

    /// The bytes written so far.
    pub fn as_bytes(&self) -> (bytes: &Vec<u8>)
        ensures
            bytes@ == self.bytes(),
    {
        &self.output_stream
    }
}

/// Reads bytes and writes their arithmetic coding.
pub struct Coder {
    input_stream: Vec<u8>,
    output_stream: BitOutputStream,
    low: u32,
    high: u32,
    not_yet_written_bits: u128,
    model: Model,
    input_len: usize,
}

impl Coder {
    /// The bytes to encode.
    pub closed spec fn input(&self) -> Seq<u8> {
        self.input_stream@
    }

    /// The number of input bytes that have been encoded.
    pub closed spec fn consumed(&self) -> nat {
        self.input_len as nat
    }

    /// The input bytes that have not been encoded yet.
    pub open spec fn remaining(&self) -> Seq<u8> {
        self.input().skip(self.consumed() as int)
    }

    /// The bits written so far.
    pub closed spec fn output_bits(&self) -> Seq<bool> {
        self.output_stream.bits()
    }

    /// The bytes written so far.
    pub closed spec fn output(&self) -> Seq<u8> {
        self.output_stream.bytes()
    }

    /// The interval, the pending count and the model.
    pub closed spec fn state(&self) -> EncoderState {
        EncoderState { interval: self.interval(), pending: self.pending(), model: self.model@ }
    }

    /// The coding interval.
    closed spec fn interval(&self) -> Interval {
        Interval { low: self.low as int, high: self.high as int }
    }

    /// The number of bits whose value is not settled yet.
    closed spec fn pending(&self) -> nat {
        self.not_yet_written_bits as nat
    }

    /// The state is well-formed, and no more input has been consumed than
    /// there is.
    pub closed spec fn wf(&self) -> bool {
        &&& self.interval().settled()
        &&& self.model.wf()
        &&& self.output_stream.wf()
        &&& self.input_len <= self.input_stream@.len()
        &&& self.not_yet_written_bits <= 32 * self.input_len
    }

    /// The coder has not coded anything.
    pub open spec fn is_fresh(&self) -> bool {
        &&& self.consumed() == 0
        &&& self.output_bits() == Seq::<bool>::empty()
        &&& self.state() == EncoderState::initial()
    }

    /// What holds of every well-formed coder.
    pub proof fn lemma_wf(&self)
        requires
            self.wf(),
        ensures
            self.state().wf(),
            self.consumed() <= self.input().len(),
    {
        self.model.lemma_wf();
    }

    /// A coder that will encode `input_stream`.
    pub fn new(input_stream: Vec<u8>) -> (coder: Self)
        ensures
            coder.wf(),
            coder.is_fresh(),
            coder.input() == input_stream@,
            coder.output() == Seq::<u8>::empty(),
    {
        Self {
            input_stream,
            output_stream: BitOutputStream::new(),
            high: u32::MAX,
            low: 0,
            not_yet_written_bits: 0,
            model: Model::default(),
            input_len: 0,
        }
    }

    /// Encodes what is left of the input and the end of the stream, and
    /// fills the last byte of the output with zero bits.
    pub fn code_all(&mut self)
        requires
            old(self).wf(),
        ensures
            final(self).wf(),
            final(self).input() == old(self).input(),
            final(self).consumed() == old(self).input().len(),
            final(self).output_bits() == pad_with_zeros(
                old(self).output_bits() + old(self).state().writes(old(self).remaining()),
            ),
            unpack(final(self).output()) == final(self).output_bits(),
            final(self).state().model == old(self).state().model.observe_all(
                old(self).remaining(),
            ),
            final(self).state().pending == 0,
            old(self).is_fresh() ==> final(self).output() == encode(old(self).input()),
    {
        let ghost start_bits = self.output_bits();
        let ghost total = self.state().writes(self.remaining());
        let ghost start_model = self.state().model;
        let ghost start_consumed = self.consumed() as int;
        let ghost input = self.input();
        proof {
            assert(input.subrange(start_consumed, start_consumed) =~= Seq::<u8>::empty());
        }
        loop
            invariant
                self.wf(),
                self.input() == input,
                0 <= start_consumed <= self.consumed() <= input.len(),
                start_bits + total == self.output_bits() + self.state().writes(self.remaining()),
                self.state().model == start_model.observe_all(
                    input.subrange(start_consumed, self.consumed() as int),
                ),
            ensures
                self.wf(),
                self.input() == input,
                self.consumed() == input.len(),
                start_bits + total == self.output_bits() + self.state().writes(
                    Seq::<u8>::empty(),
                ),
                self.state().model == start_model.observe_all(input.skip(start_consumed)),
            decreases input.len() - self.consumed(),
        {
            let ghost rest = self.remaining();
            let ghost before_bits = self.output_bits();
            let ghost before = self.state();
            let ghost done = input.subrange(start_consumed, self.consumed() as int);
            match self.read_byte() {
                None => {
                    proof {
                        assert(rest =~= Seq::<u8>::empty());
                        assert(done =~= input.skip(start_consumed));
                    }
                    break ;
                },
                Some(byte) => {
                    proof {
                        self.model.lemma_wf();
                        lemma_model_share(self.model@, byte as int);
                        assert(rest.skip(1) =~= self.remaining());
                        assert(rest[0] == byte);
                        let c = self.consumed() as int;
                        assert(input.subrange(start_consumed, c).drop_last() =~= done);
                        assert(input.subrange(start_consumed, c).last() == byte);
                    }
                    let p_range = self.model.get_p_range(byte);
                    self.write_p_range(p_range);
                    self.model.save_symbol(byte);
                    proof {
                        let step = before.step(byte as int);
                        let tail = before.coded(byte).writes(rest.skip(1));
                        assert(self.state() == before.coded(byte));
                        assert(before_bits + (step.bits + tail) =~= before_bits + step.bits + tail);
                    }
                },
            }
        }
        let ghost before_bits = self.output_bits();
        let ghost before = self.state();
        proof {
            self.model.lemma_wf();
            lemma_model_share(self.model@, end_of_stream());
        }
        let p_range = self.model.get_eof_range();
        self.write_p_range(p_range);
        self.not_yet_written_bits = self.not_yet_written_bits + 1;
        if self.low < ONE_FOURTH_U32 {
            self.write_all_bits(false);
        } else {
            self.write_all_bits(true);
        }
        proof {
            let last = before.step(end_of_stream());
            let closing = closing_bits(last.interval, last.pending);
            assert(before_bits + (last.bits + closing) =~= before_bits + last.bits + closing);
        }
        self.output_stream.finish();
        proof {
            if old(self).is_fresh() {
                assert(old(self).remaining() =~= old(self).input());
                assert(start_bits + total =~= total);
                lemma_pack_unique(self.output(), total);
            }
        }
    }

    /// The number of input bytes encoded and the number of bytes written.
    pub fn get_stat(&self) -> (stat: (usize, usize))
        requires
            self.wf(),
        ensures
            stat.0 == self.consumed(),
            stat.1 == self.output().len(),
    {
        (self.input_len, self.output_stream.written_bytes())
    }

    /// The bytes written so far.
    pub fn output_bytes(&self) -> (bytes: &Vec<u8>)
        ensures
            bytes@ == self.output(),
    {
        self.output_stream.as_bytes()
    }

    /// Narrows the interval to the share `p_range` and renormalizes it,
    /// writing the bits that this settles.
    fn write_p_range(&mut self, p_range: PRange)
        requires
            old(self).wf(),
            p_range.wf(),
            p_range.denom <= MAX_CHARACTER_COUNT,
            old(self).not_yet_written_bits <= 32 * old(self).input_len,
        ensures
            final(self).interval().settled(),
            final(self).model == old(self).model,
            final(self).output_stream.wf(),
            final(self).input_stream == old(self).input_stream,
            final(self).input_len == old(self).input_len,
            final(self).not_yet_written_bits <= old(self).not_yet_written_bits + 32,
            ({
                let target = renorm(
                    old(self).interval().narrow(
                        p_range.lower as int,
                        p_range.upper as int,
                        p_range.denom as int,
                    ),
                    old(self).pending(),
                );
                &&& final(self).interval() == target.interval
                &&& final(self).pending() == target.pending
                &&& final(self).output_bits() == old(self).output_bits() + target.bits
            }),
    {
        let ghost narrowed = self.interval().narrow(
            p_range.lower as int,
            p_range.upper as int,
            p_range.denom as int,
        );
        let ghost target = renorm(narrowed, self.pending());
        let ghost start_bits = self.output_bits();
        let ghost start_pending = self.not_yet_written_bits;
        let (low, high) = narrow_registers(self.low, self.high, p_range);
        self.low = low;
        self.high = high;
        let ghost steps: nat = 0;
        proof {
            lemma2_to64();
            assert(start_bits + target.bits == self.output_bits() + renorm(
                self.interval(),
                self.pending(),
            ).bits);
        }
        loop
            invariant
                self.interval().valid(),
                self.model == old(self).model,
                self.output_stream.wf(),
                self.input_stream == old(self).input_stream,
                self.input_len == old(self).input_len,
                start_pending <= 32 * self.input_len,
                self.not_yet_written_bits <= start_pending + steps,
                pow2(steps) <= self.interval().width(),
                steps <= 32,
                renorm(self.interval(), self.pending()).interval == target.interval,
                renorm(self.interval(), self.pending()).pending == target.pending,
                start_bits + target.bits == self.output_bits() + renorm(
                    self.interval(),
                    self.pending(),
                ).bits,
            ensures
                self.interval().settled(),
                self.model == old(self).model,
                self.output_stream.wf(),
                self.input_stream == old(self).input_stream,
                self.input_len == old(self).input_len,
                self.not_yet_written_bits <= start_pending + 32,
                self.interval() == target.interval,
                self.pending() == target.pending,
                self.output_bits() == start_bits + target.bits,
            decreases register_range() - self.interval().width(),
        {
            let ghost before = self.interval();
            let ghost before_pending = self.pending();
            let ghost before_bits = self.output_bits();
            let ghost whole = renorm(before, before_pending);
            proof {
                lemma_expand(before);
                lemma2_to64();
                lemma_pow2_unfold(steps + 1);
                if steps >= 32 {
                    lemma_pow2_strictly_increases(31, steps);
                }
            }
            if self.high < HALF_U32 {
                self.write_all_bits(false);
                self.shift_range();
                proof {
                    let rest = renorm(before.expand(0), 0);
                    assert(self.interval() == before.expand(0));
                    assert(whole.bits == emit(false, before_pending) + rest.bits);
                    assert(before_bits + emit(false, before_pending) + rest.bits =~= before_bits
                        + whole.bits);
                }
            } else if self.low >= HALF_U32 {
                self.write_all_bits(true);
                self.low = self.low - HALF_U32;
                self.high = self.high - HALF_U32;
                self.shift_range();
                proof {
                    let rest = renorm(before.expand(HALF_U32 as int), 0);
                    assert(self.interval() == before.expand(HALF_U32 as int));
                    assert(whole.bits == emit(true, before_pending) + rest.bits);
                    assert(before_bits + emit(true, before_pending) + rest.bits =~= before_bits
                        + whole.bits);
                }
            } else if self.low >= ONE_FOURTH_U32 && self.high < THREE_FOURTHS_U32 {
                self.not_yet_written_bits = self.not_yet_written_bits + 1;
                self.low = self.low - ONE_FOURTH_U32;
                self.high = self.high - ONE_FOURTH_U32;
                self.shift_range();
                proof {
                    assert(self.interval() == before.expand(ONE_FOURTH_U32 as int));
                    assert(whole == renorm(
                        before.expand(ONE_FOURTH_U32 as int),
                        before_pending + 1,
                    ));
                }
            } else {
                proof {
                    assert(whole.bits =~= Seq::<bool>::empty());
                    assert(self.output_bits() + whole.bits =~= self.output_bits());
                }
                break ;
            }
            proof {
                steps = steps + 1;
            }
        }
    }

    /// The next input byte, if there is one.
    fn read_byte(&mut self) -> (byte: Option<u8>)
        requires
            old(self).input_len <= old(self).input_stream@.len(),
        ensures
            final(self).input_stream == old(self).input_stream,
            final(self).output_stream == old(self).output_stream,
            final(self).low == old(self).low,
            final(self).high == old(self).high,
            final(self).not_yet_written_bits == old(self).not_yet_written_bits,
            final(self).model == old(self).model,
            match byte {
                Some(b) => {
                    &&& old(self).input_len < old(self).input_stream@.len()
                    &&& b == old(self).input_stream@[old(self).input_len as int]
                    &&& final(self).input_len == old(self).input_len + 1
                },
                None => {
                    &&& old(self).input_len == old(self).input_stream@.len()
                    &&& final(self).input_len == old(self).input_len
                },
            },
    {
        if self.input_len < self.input_stream.len() {
            let byte = self.input_stream[self.input_len];
            self.input_len = self.input_len + 1;
            Some(byte)
        } else {
            None
        }
    }

    /// Writes `bit`, then the pending bits as its inverse, and resets the
    /// pending count.
    fn write_all_bits(&mut self, bit: bool)
        requires
            old(self).output_stream.wf(),
        ensures
            final(self).output_stream.wf(),
            final(self).output_bits() == old(self).output_bits() + emit(bit, old(self).pending()),
            final(self).not_yet_written_bits == 0,
            final(self).input_stream == old(self).input_stream,
            final(self).input_len == old(self).input_len,
            final(self).low == old(self).low,
            final(self).high == old(self).high,
            final(self).model == old(self).model,
    {
        let ghost start = self.output_bits();
        self.output_stream.write_bit(bit);
        let mut i: u128 = 0;
        while i < self.not_yet_written_bits
            invariant
                self.output_stream.wf(),
                i <= self.not_yet_written_bits,
                self.not_yet_written_bits == old(self).not_yet_written_bits,
                self.output_bits() == start + emit(bit, i as nat),
                self.input_stream == old(self).input_stream,
                self.input_len == old(self).input_len,
                self.low == old(self).low,
                self.high == old(self).high,
                self.model == old(self).model,
            decreases self.not_yet_written_bits - i,
        {
            self.output_stream.write_bit(!bit);
            proof {
                assert((start + emit(bit, i as nat)).push(!bit) =~= start + emit(
                    bit,
                    (i + 1) as nat,
                ));
            }
            i = i + 1;
        }
        self.not_yet_written_bits = 0;
    }

    /// Doubles both bounds and sets the lowest bit of the upper bound.
    fn shift_range(&mut self)
        requires
            old(self).high < 0x8000_0000,
            old(self).low < 0x8000_0000,
        ensures
            final(self).low == 2 * old(self).low,
            final(self).high == 2 * old(self).high + 1,
            final(self).input_stream == old(self).input_stream,
            final(self).input_len == old(self).input_len,
            final(self).output_stream == old(self).output_stream,
            final(self).not_yet_written_bits == old(self).not_yet_written_bits,
            final(self).model == old(self).model,
    {
        let high = self.high;
        let low = self.low;
        let new_high: u32 = (high << 1) | 1;
        let new_low: u32 = low << 1;
        assert(new_low == 2 * low) by (bit_vector)
            requires
                new_low == low << 1,
                low < 0x8000_0000u32,
        ;
        assert(new_high == 2 * high + 1) by (bit_vector)
            requires
                new_high == (high << 1) | 1,
                high < 0x8000_0000u32,
        ;
        self.high = new_high;
        self.low = new_low;
    }
}

} // verus!
