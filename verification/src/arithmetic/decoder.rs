//! The decoder: a bit reader and the register machine that mirrors the
//! encoder.
//!
//! Past the end of its input the decoder reads zero bits. A stream that an
//! encoder wrote never makes it read more than 32 of them before the
//! end-of-stream symbol turns up; on other input the decoder gives up once
//! it would need one more.
use vstd::prelude::*;
use crate::bits::{unpack, bit_at, lemma_mask_is_shift};
use crate::arithmetic::model::{Model, ModelView, end_of_stream, lemma_symbol_for, lemma_observe_wf};
use crate::arithmetic::interval::{
    Interval,
    HALF_U32,
    ONE_FOURTH_U32,
    THREE_FOURTHS_U32,
    register_range,
    narrow_registers,
    lemma_expand,
    lemma_model_share,
    lemma_narrow,
};

verus! {

/// The bits that a decoder has still to read.
pub struct BitSource {
    /// The bits of the input that have not been read.
    pub rest: Seq<bool>,
    /// The number of zero bits that were read past the end of the input.
    pub padding: nat,
}

/// The largest number of zero bits that a decoder reads past the end of
/// its input.
pub open spec fn max_padding() -> nat {
    32
}

impl BitSource {
    /// The bits of `bytes`, none of them read.
    pub open spec fn of_bytes(bytes: Seq<u8>) -> BitSource {
        BitSource { rest: unpack(bytes), padding: 0 }
    }

    /// Nothing is left to read, and no more zero bits may be read.
    pub open spec fn exhausted(self) -> bool {
        self.rest.len() == 0 && self.padding >= max_padding()
    }

    /// The next bit: that of the input, or zero past its end.
    pub open spec fn next_bit(self) -> int {
        if self.rest.len() > 0 && self.rest[0] {
            1
        } else {
            0
        }
    }

    /// The source after the next bit has been read.
    pub open spec fn advance(self) -> BitSource {
        if self.rest.len() > 0 {
            BitSource { rest: self.rest.skip(1), padding: self.padding }
        } else {
            BitSource { rest: self.rest, padding: self.padding + 1 }
        }
    }

    /// The number of bits that can still be read.
    pub open spec fn budget(self) -> int {
        self.rest.len() + max_padding() - self.padding
    }
}

/// The register and the source after `count` bits have been shifted into
/// the register.
pub open spec fn preload(code: int, source: BitSource, count: nat) -> (int, BitSource)
    decreases count,
{
    if count == 0 {
        (code, source)
    } else {
        preload(2 * code + source.next_bit(), source.advance(), (count - 1) as nat)
    }
}

/// The amount by which a renormalization step moves the interval down
/// before it doubles it.
pub open spec fn renorm_offset(interval: Interval) -> int {
    if interval.in_lower_half() {
        0
    } else if interval.in_upper_half() {
        HALF_U32 as int
    } else {
        ONE_FOURTH_U32 as int
    }
}

/// The decoder's registers and source after renormalization.
pub struct Synced {
    pub interval: Interval,
    pub code: int,
    pub source: BitSource,
}

/// Renormalizes the decoder's interval, shifting one bit into the code
/// register at every step. `None` if the source is exhausted before the
/// interval is settled.
pub open spec fn decode_renorm(interval: Interval, code: int, source: BitSource) -> Option<Synced>
    decreases register_range() - interval.width(),
    when interval.valid()
{
    if interval.settled() {
        Some(Synced { interval, code, source })
    } else if source.exhausted() {
        None
    } else {
        let offset = renorm_offset(interval);
        decode_renorm(
            interval.expand(offset),
            2 * (code - offset) + source.next_bit(),
            source.advance(),
        )
    }
}

/// The value, scaled to the total count, at which `code` lies in
/// `interval`.
pub open spec fn scaled_value(interval: Interval, code: int, total: int) -> int {
    ((code - interval.low + 1) * total - 1) / interval.width()
}

/// What a decoder produces.
pub struct Decoded {
    /// The bytes decoded.
    pub bytes: Seq<u8>,
    /// Whether the end-of-stream symbol was reached.
    pub complete: bool,
}

/// The state of a decoder between two symbols.
pub struct DecoderState {
    pub interval: Interval,
    pub code: int,
    pub model: ModelView,
    pub source: BitSource,
}

impl DecoderState {
    /// The interval is settled and holds the code register, the model is
    /// well-formed, and no more zero bits were read than are allowed.
    pub open spec fn wf(self) -> bool {
        &&& self.interval.settled()
        &&& self.interval.contains(self.code)
        &&& self.model.wf()
        &&& self.source.padding <= max_padding()
    }

    /// The state of a decoder that is about to decode `bytes`.
    pub open spec fn initial(bytes: Seq<u8>) -> DecoderState {
        let loaded = preload(0, BitSource::of_bytes(bytes), 32);
        DecoderState {
            interval: Interval::full(),
            code: loaded.0,
            model: ModelView::initial(),
            source: loaded.1,
        }
    }

    /// The symbol that the code register points at.
    pub open spec fn symbol(self) -> int {
        self.model.symbol_for(scaled_value(self.interval, self.code, self.model.total()))
    }

    /// The interval narrowed to the share of the symbol that the code
    /// register points at.
    pub open spec fn narrowed(self) -> Interval {
        self.interval.narrow(
            self.model.lower(self.symbol()),
            self.model.upper(self.symbol()),
            self.model.total(),
        )
    }

    /// The state after the symbol that the code register points at, a
    /// byte, has been decoded; `None` if the source is exhausted on the way.
    pub open spec fn step(self) -> Option<DecoderState> {
        match decode_renorm(self.narrowed(), self.code, self.source) {
            Some(synced) => Some(
                DecoderState {
                    interval: synced.interval,
                    code: synced.code,
                    model: self.model.observe(self.symbol() as u8),
                    source: synced.source,
                },
            ),
            None => None,
        }
    }

    /// The state after `count` bytes have been decoded; `None` if the
    /// end-of-stream symbol turns up or the source is exhausted before.
    pub open spec fn after(self, count: nat) -> Option<DecoderState>
        decreases count,
    {
        if count == 0 {
            Some(self)
        } else {
            match self.after((count - 1) as nat) {
                Some(state) => if state.symbol() == end_of_stream() {
                    None
                } else {
                    state.step()
                },
                None => None,
            }
        }
    }

    /// What a decoder in this state produces.
    pub open spec fn run(self) -> Decoded
        decreases self.source.budget(), self.interval.width(),
        when self.wf()
    {
        if self.symbol() == end_of_stream() {
            Decoded { bytes: Seq::empty(), complete: true }
        } else {
            match self.step() {
                Some(next) => {
                    proof {
                        lemma_step(self);
                    }
                    let rest = next.run();
                    Decoded { bytes: seq![self.symbol() as u8] + rest.bytes, complete: rest.complete }
                },
                None => Decoded { bytes: seq![self.symbol() as u8], complete: false },
            }
        }
    }
}

/// What decoding `bytes` produces.
pub open spec fn decode(bytes: Seq<u8>) -> Decoded {
    DecoderState::initial(bytes).run()
}

/// The code register always points at a symbol, and the interval narrowed
/// to that symbol's share still holds the register.
pub proof fn lemma_symbol(state: DecoderState)
    requires
        state.wf(),
    ensures
        0 <= scaled_value(state.interval, state.code, state.model.total()) < state.model.total(),
        0 <= state.symbol() <= 256,
        state.narrowed().valid(),
        state.narrowed().contains(state.code),
        state.interval.low <= state.narrowed().low,
        state.narrowed().high <= state.interval.high,
        state.narrowed().width() < state.interval.width(),
{
    let iv = state.interval;
    let w = iv.width();
    let d = state.model.total();
    let k = state.code - iv.low + 1;
    lemma_model_share(state.model, 0);
    let v = scaled_value(iv, state.code, d);
    assert(0 <= k * d - 1 < w * d) by (nonlinear_arith)
        requires
            1 <= k <= w,
            d >= 1,
    ;
    assert(0 <= v < d) by (nonlinear_arith)
        requires
            v == (k * d - 1) / w,
            0 <= k * d - 1 < w * d,
            w > 0,
    ;
    lemma_symbol_for(state.model, v);
    let s = state.symbol();
    let lower = state.model.lower(s);
    let upper = state.model.upper(s);
    lemma_model_share(state.model, s);
    lemma_narrow(iv, lower, upper, d);
    // lower <= v < upper, so the register lies in the symbol's share.
    assert(w * lower / d < k <= w * upper / d) by (nonlinear_arith)
        requires
            v == (k * d - 1) / w,
            lower <= v < upper,
            w > 0,
            d > 0,
            k >= 1,
            lower >= 0,
    ;
    assert(w * upper / d - w * lower / d < w) by (nonlinear_arith)
        requires
            0 <= lower < upper,
            upper - lower < d,
            d <= w,
    ;
}

/// Renormalization never gives bits back to the source; it keeps the code
/// register inside the interval; and if it reads no bit it changes
/// nothing.
pub proof fn lemma_decode_renorm(interval: Interval, code: int, source: BitSource)
    requires
        interval.valid(),
        interval.contains(code),
        source.padding <= max_padding(),
    ensures
        match decode_renorm(interval, code, source) {
            Some(synced) => {
                &&& synced.interval.settled()
                &&& synced.interval.contains(synced.code)
                &&& synced.source.padding <= max_padding()
                &&& synced.source.budget() <= source.budget()
                &&& synced.source.budget() == source.budget() ==> synced.interval == interval
                &&& synced.interval.width() >= interval.width()
            },
            None => true,
        },
    decreases register_range() - interval.width(),
{
    if !interval.settled() && !source.exhausted() {
        let offset = renorm_offset(interval);
        lemma_expand(interval);
        lemma_decode_renorm(
            interval.expand(offset),
            2 * (code - offset) + source.next_bit(),
            source.advance(),
        );
    }
}

/// A decoding step leaves the state well-formed, with an interval whose
/// bounds are in order and which is at least as wide as the total count
/// of the model, and either reads a bit or makes the interval smaller.
pub proof fn lemma_step(state: DecoderState)
    requires
        state.wf(),
        state.symbol() != end_of_stream(),
    ensures
        match state.step() {
            Some(next) => {
                &&& next.wf()
                &&& next.interval.low <= next.interval.high
                &&& next.interval.width() >= next.model.total()
                &&& next.source.budget() <= state.source.budget()
                &&& next.source.budget() == state.source.budget() ==> next.interval.width()
                    < state.interval.width()
                &&& 0 <= next.source.budget()
                &&& 0 <= next.interval.width()
            },
            None => true,
        },
{
    lemma_symbol(state);
    lemma_decode_renorm(state.narrowed(), state.code, state.source);
    lemma_observe_wf(state.model, state.symbol() as u8);
    lemma_model_share(state.model.observe(state.symbol() as u8), 0);
}

/// Why decoding stopped before the end of the stream.
#[derive(Debug, Clone, Copy, PartialEq, Eq)]
pub enum DecodeError {
    /// The input ran out, and so did the zero bits that may follow it,
    /// before the end-of-stream symbol was decoded: no encoder wrote this
    /// input.
    UnexpectedEnd,
}

/// Hands out the bits of a byte sequence, most significant bit first.
pub struct BitInputStream {
    buf: u8,
    n: u8,
    input_stream: Vec<u8>,
    position: usize,
}

impl BitInputStream {
    /// The buffered byte is the last one fetched, and `n` of its bits have
    /// been handed out.
    pub closed spec fn wf(&self) -> bool {
        &&& self.n < 8
        &&& self.position <= self.input_stream@.len()
        &&& self.n > 0 ==> self.position > 0 && self.buf == self.input_stream@[self.position - 1]
    }

    /// The bytes that the stream reads from.
    pub closed spec fn bytes(&self) -> Seq<u8> {
        self.input_stream@
    }

    /// The number of bits handed out so far.
    pub closed spec fn consumed(&self) -> nat {
        if self.n == 0 {
            8 * self.position as nat
        } else {
            (8 * (self.position - 1) + self.n) as nat
        }
    }

    /// The bits that have not been handed out yet.
    pub open spec fn rest(&self) -> Seq<bool> {
        unpack(self.bytes()).skip(self.consumed() as int)
    }

    /// No more bits have been handed out than there are.
    pub proof fn lemma_consumed(&self)
        requires
            self.wf(),
        ensures
            self.consumed() <= unpack(self.bytes()).len(),
    {
    }

    /// A stream that will hand out the bits of `input_stream`.
    pub fn new(input_stream: Vec<u8>) -> (stream: Self)
        ensures
            stream.wf(),
            stream.bytes() == input_stream@,
            stream.consumed() == 0,
            stream.rest() == unpack(input_stream@),
    {
        let stream = Self { buf: 0, n: 0, input_stream, position: 0 };
        assert(stream.rest() =~= unpack(input_stream@));
        stream
    }

    /// The next bit, or `None` when every bit has been handed out.
    pub fn read_bit(&mut self) -> (bit: Option<bool>)
        requires
            old(self).wf(),
        ensures
            final(self).wf(),
            final(self).bytes() == old(self).bytes(),
            match bit {
                Some(b) => {
                    &&& old(self).rest().len() > 0
                    &&& b == old(self).rest()[0]
                    &&& final(self).rest() == old(self).rest().skip(1)
                    &&& final(self).consumed() == old(self).consumed() + 1
                },
                None => {
                    &&& old(self).rest().len() == 0
                    &&& final(self).rest() == old(self).rest()
                    &&& final(self).consumed() == old(self).consumed()
                },
            },
    {
        if self.n == 0 {
            if self.position >= self.input_stream.len() {
                return None;
            }
            self.buf = self.input_stream[self.position];
            self.position = self.position + 1;
        }
        proof {
            lemma_mask_is_shift(self.n);
            let at = old(self).consumed() as int;
            assert(at == 8 * (self.position - 1) + self.n);
            assert(at / 8 == self.position - 1 && at % 8 == self.n as int);
            assert(unpack(self.bytes())[at] == bit_at(self.buf, self.n as int));
        }
        let bit = (self.buf & (0x80u8 >> self.n)) != 0;
        self.n = (self.n + 1) % 8;
        proof {
            assert(self.rest() =~= old(self).rest().skip(1));
        }
        Some(bit)
    }
}

/// Reads the arithmetic coding of a byte sequence and writes the bytes.
pub struct Decoder {
    input_stream: BitInputStream,
    output_stream: Vec<u8>,
    low: u32,
    high: u32,
    read_bits: u32,
    model: Model,
    padding: u8,
}

impl Decoder {
    /// The bytes that the decoder reads from.
    pub closed spec fn input(&self) -> Seq<u8> {
        self.input_stream.bytes()
    }

    /// The bytes decoded so far.
    pub closed spec fn output(&self) -> Seq<u8> {
        self.output_stream@
    }

    /// The registers, the model and the bits still to read.
    pub closed spec fn state(&self) -> DecoderState {
        DecoderState {
            interval: Interval { low: self.low as int, high: self.high as int },
            code: self.read_bits as int,
            model: self.model@,
            source: self.source(),
        }
    }

    /// The bits still to read.
    pub closed spec fn source(&self) -> BitSource {
        BitSource { rest: self.input_stream.rest(), padding: self.padding as nat }
    }

    /// The state is well-formed, and zero bits were read only past the end
    /// of the input.
    pub closed spec fn wf(&self) -> bool {
        &&& self.state().wf()
        &&& self.model.wf()
        &&& self.input_stream.wf()
        &&& self.padding > 0 ==> self.input_stream.rest().len() == 0
    }

    /// What holds of every well-formed decoder.
    pub proof fn lemma_wf(&self)
        requires
            self.wf(),
        ensures
            self.state().wf(),
    {
    }

    /// A decoder that will decode `input_stream`. It reads the first 32
    /// bits at once, and zero bits past the end of a shorter input.
    pub fn new(input_stream: Vec<u8>) -> (decoder: Self)
        ensures
            decoder.wf(),
            decoder.input() == input_stream@,
            decoder.output() == Seq::<u8>::empty(),
            decoder.state() == DecoderState::initial(input_stream@),
    {
        let mut decoder = Self {
            input_stream: BitInputStream::new(input_stream),
            output_stream: Vec::new(),
            high: u32::MAX,
            low: 0,
            read_bits: 0,
            model: Model::default(),
            padding: 0,
        };
        let ghost target = preload(0, BitSource::of_bytes(input_stream@), 32);
        let mut i: u8 = 0;
        while i < 32
            invariant
                i <= 32,
                decoder.input_stream.wf(),
                decoder.input_stream.bytes() == input_stream@,
                decoder.model.wf(),
                decoder.model@ == ModelView::initial(),
                decoder.low == 0,
                decoder.high == u32::MAX,
                decoder.output_stream@ == Seq::<u8>::empty(),
                decoder.padding <= i,
                decoder.padding > 0 ==> decoder.input_stream.rest().len() == 0,
                decoder.read_bits as int <= code_limit(i as nat) - 1,
                preload(decoder.read_bits as int, decoder.source(), (32 - i) as nat) == target,
            decreases 32 - i,
        {
            proof {
                lemma_code_limit(i as nat);
            }
            let fed = decoder.read_bit(0);
            i = i + 1;
        }
        proof {
            lemma_code_limit(32);
            decoder.model.lemma_wf();
        }
        decoder
    }

    /// Decodes bytes until the end-of-stream symbol turns up, or until the
    /// input and the zero bits that may follow it are used up.
    pub fn decode_all(&mut self) -> (result: Result<(), DecodeError>)
        requires
            old(self).wf(),
        ensures
            final(self).input() == old(self).input(),
            final(self).output() == old(self).output() + old(self).state().run().bytes,
            result.is_ok() == old(self).state().run().complete,
            result.is_ok() ==> final(self).wf(),
            result.is_ok() ==> final(self).state().model == old(self).state().model.observe_all(
                old(self).state().run().bytes,
            ),
            old(self).state() == DecoderState::initial(old(self).input()) ==> old(
                self,
            ).state().run() == decode(old(self).input()),
    {
        let ghost start = self.state();
        let ghost start_output = self.output();
        let ghost decoded = Seq::<u8>::empty();
        proof {
            assert(start_output + decoded =~= start_output);
            assert(decoded + start.run().bytes =~= start.run().bytes);
        }
        loop
            invariant
                self.wf(),
                start == old(self).state(),
                start.wf(),
                start_output == old(self).output(),
                self.input() == old(self).input(),
                self.output() == start_output + decoded,
                start.run().bytes == decoded + self.state().run().bytes,
                start.run().complete == self.state().run().complete,
                self.state().model == start.model.observe_all(decoded),
            decreases self.state().source.budget(), self.state().interval.width(),
        {
            let ghost before = self.state();
            let ghost before_output = self.output();
            proof {
                lemma_symbol(before);
                self.model.lemma_wf();
            }
            let total = self.model.total_symbols();
            let range: u64 = self.high as u64 - self.low as u64 + 1;
            let offset: u64 = self.read_bits as u64 - self.low as u64 + 1;
            proof {
                assert(1 <= offset * total <= 0x1_0000_0000 * 0x4000_0000) by (nonlinear_arith)
                    requires
                        1 <= offset <= 0x1_0000_0000,
                        1 <= total <= 0x4000_0000,
                ;
            }
            let scaled_bits: u64 = (offset * total as u64 - 1) / range;
            let symbol = match self.model.get_symbol(scaled_bits as u32) {
                Some(s) => s,
                None => {
                    proof {
                        assert(decoded + Seq::<u8>::empty() =~= decoded);
                    }
                    return Ok(());
                },
            };
            self.write_byte(symbol);
            let p_range = self.model.get_p_range(symbol);
            self.model.save_symbol(symbol);
            let (low, high) = narrow_registers(self.low, self.high, p_range);
            self.low = low;
            self.high = high;
            proof {
                lemma_step(before);
                self.model.lemma_wf();
                assert(start_output + (decoded + seq![symbol]) =~= (start_output + decoded).push(
                    symbol,
                ));
                assert((decoded + seq![symbol]).drop_last() =~= decoded);
            }
            loop
                invariant
                    self.input_stream.wf(),
                    self.input() == old(self).input(),
                    self.model.wf(),
                    self.model@ == before.model.observe(symbol),
                    self.model@.wf(),
                    self.output() == before_output.push(symbol),
                    self.padding <= 32,
                    self.padding > 0 ==> self.input_stream.rest().len() == 0,
                    self.state().interval.valid(),
                    self.state().interval.contains(self.state().code),
                    decode_renorm(self.state().interval, self.state().code, self.state().source)
                        == decode_renorm(before.narrowed(), before.code, before.source),
                    before.wf(),
                    start == old(self).state(),
                    start.wf(),
                    start_output == old(self).output(),
                    before.symbol() == symbol,
                    before_output == start_output + decoded,
                    start.run().bytes == decoded + before.run().bytes,
                    start.run().complete == before.run().complete,
                ensures
                    self.wf(),
                    self.input() == old(self).input(),
                    self.output() == before_output.push(symbol),
                    Some(self.state()) == before.step(),
                decreases register_range() - self.state().interval.width(),
            {
                proof {
                    lemma_expand(self.state().interval);
                    assert(start_output + (decoded + seq![symbol]) =~= (start_output
                        + decoded).push(symbol));
                }
                if self.high < HALF_U32 {
                    if !self.read_bit(0) {
                        return Err(DecodeError::UnexpectedEnd);
                    }
                    self.shift_range();
                } else if self.low >= HALF_U32 {
                    if !self.read_bit(HALF_U32) {
                        return Err(DecodeError::UnexpectedEnd);
                    }
                    self.low = self.low - HALF_U32;
                    self.high = self.high - HALF_U32;
                    self.shift_range();
                } else if self.low >= ONE_FOURTH_U32 && self.high < THREE_FOURTHS_U32 {
                    if !self.read_bit(ONE_FOURTH_U32) {
                        return Err(DecodeError::UnexpectedEnd);
                    }
                    self.low = self.low - ONE_FOURTH_U32;
                    self.high = self.high - ONE_FOURTH_U32;
                    self.shift_range();
                } else {
                    break ;
                }
            }
            proof {
                assert(decoded + (seq![symbol] + self.state().run().bytes) =~= (decoded
                    + seq![symbol]) + self.state().run().bytes);
                decoded = decoded + seq![symbol];
            }
        }
    }

    /// The number of bytes decoded so far.
    pub fn get_stat(&self) -> (len: usize)
        ensures
            len == self.output().len(),
    {
        self.output_stream.len()
    }

    /// The bytes decoded so far.
    pub fn output_bytes(&self) -> (bytes: &Vec<u8>)
        ensures
            bytes@ == self.output(),
    {
        &self.output_stream
    }

    /// Moves the code register down by `offset`, doubles it and shifts the
    /// next bit of the source into it. Does nothing and returns `false` if
    /// the source is exhausted.
    fn read_bit(&mut self, offset: u32) -> (fed: bool)
        requires
            old(self).input_stream.wf(),
            old(self).padding <= 32,
            old(self).padding > 0 ==> old(self).input_stream.rest().len() == 0,
            offset <= old(self).read_bits,
            old(self).read_bits - offset < 0x8000_0000,
        ensures
            fed == !old(self).source().exhausted(),
            final(self).input_stream.wf(),
            final(self).input() == old(self).input(),
            final(self).padding <= 32,
            final(self).padding > 0 ==> final(self).input_stream.rest().len() == 0,
            final(self).low == old(self).low,
            final(self).high == old(self).high,
            final(self).model == old(self).model,
            final(self).output_stream == old(self).output_stream,
            fed ==> final(self).source() == old(self).source().advance(),
            fed ==> final(self).read_bits == 2 * (old(self).read_bits - offset) + old(
                self,
            ).source().next_bit(),
            !fed ==> final(self).read_bits == old(self).read_bits && final(self).source() == old(
                self,
            ).source(),
    {
        let moved: u32 = self.read_bits - offset;
        let doubled: u32 = moved << 1;
        assert(doubled == 2 * moved) by (bit_vector)
            requires
                doubled == moved << 1,
                moved < 0x8000_0000u32,
        ;
        match self.input_stream.read_bit() {
            Some(input_bit) => {
                self.read_bits = doubled + if input_bit {
                    1
                } else {
                    0
                };
                true
            },
            None => {
                if self.padding >= 32 {
                    false
                } else {
                    self.padding = self.padding + 1;
                    self.read_bits = doubled;
                    true
                }
            },
        }
    }

    /// Appends a decoded byte to the output.
    fn write_byte(&mut self, byte: u8)
        ensures
            final(self).output_stream@ == old(self).output_stream@.push(byte),
            final(self).input_stream == old(self).input_stream,
            final(self).low == old(self).low,
            final(self).high == old(self).high,
            final(self).read_bits == old(self).read_bits,
            final(self).model == old(self).model,
            final(self).padding == old(self).padding,
    {
        self.output_stream.push(byte);
    }

    /// Doubles both bounds and sets the lowest bit of the upper bound.
    fn shift_range(&mut self)
        requires
            old(self).high < 0x8000_0000,
            old(self).low < 0x8000_0000,
        ensures
            final(self).low == 2 * old(self).low,
            final(self).high == 2 * old(self).high + 1,
            final(self).input_stream == old(self).input_stream,
            final(self).output_stream == old(self).output_stream,
            final(self).read_bits == old(self).read_bits,
            final(self).model == old(self).model,
            final(self).padding == old(self).padding,
    {
        let high = self.high;
        let low = self.low;
        let new_high: u32 = (high << 1) | 1;
        let new_low: u32 = low << 1;
        assert(new_low == 2 * low) by (bit_vector)
            requires
                new_low == low << 1,
                low < 0x8000_0000u32,
        ;
        assert(new_high == 2 * high + 1) by (bit_vector)
            requires
                new_high == (high << 1) | 1,
                high < 0x8000_0000u32,
        ;
        self.high = new_high;
        self.low = new_low;
    }
}

/// Two to the power `bits`, for up to 32 bits.
spec fn code_limit(bits: nat) -> int
    decreases bits,
{
    if bits == 0 {
        1
    } else {
        2 * code_limit((bits - 1) as nat)
    }
}

proof fn lemma_code_limit(bits: nat)
    ensures
        code_limit(bits) >= 1,
        bits < 32 ==> 2 * code_limit(bits) <= 0x1_0000_0000,
        bits == 32 ==> code_limit(bits) == 0x1_0000_0000,
        code_limit(bits + 1) == 2 * code_limit(bits),
    decreases bits,
{
    reveal_with_fuel(code_limit, 33);
    if bits > 0 {
        lemma_code_limit((bits - 1) as nat);
    }
}

} // verus!
