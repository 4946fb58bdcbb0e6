//! Decoding an encoding gives the input back.
//!
//! The proof follows the encoder. At every point of its run, the bits that
//! it has still to write determine the decoder's code register: the first
//! of them, which is the bit that will settle the pending ones, followed by
//! the 31 bits that come after the pending ones. That register lies in the
//! encoder's interval, so the decoder finds the symbol that the encoder
//! coded, and both renormalize in step.
use vstd::prelude::*;
use vstd::arithmetic::power2::{pow2, lemma_pow2_unfold, lemma2_to64};
use crate::bits::{zeros, unpack, pad_len, lemma_unpack_pack};
use crate::arithmetic::model::{ModelView, end_of_stream, lemma_symbol_unique};
use crate::arithmetic::interval::{
    Interval,
    ONE_FOURTH_U32,
    register_range,
    lemma_expand,
    lemma_model_share,
    lemma_narrow,
};
use crate::arithmetic::coder::{
    EncoderState,
    closing_bits,
    emit,
    encode,
    encode_bits,
    renorm,
    lemma_coded_all_wf,
    lemma_coded_wf,
    lemma_renorm_settles,
};
use crate::arithmetic::decoder::{
    BitSource,
    Decoded,
    DecoderState,
    Synced,
    decode,
    decode_renorm,
    preload,
    renorm_offset,
    scaled_value,
    lemma_step,
};

verus! {

/// Bit `i` of `bits` as a number; zero outside of `bits`.
pub open spec fn bit(bits: Seq<bool>, i: int) -> int {
    if 0 <= i < bits.len() && bits[i] {
        1
    } else {
        0
    }
}

/// The number whose binary digits are the `len` bits of `bits` from
/// `start` on, with zero bits past the end of `bits`.
pub open spec fn window(bits: Seq<bool>, start: int, len: nat) -> int
    decreases len,
{
    if len == 0 {
        0
    } else {
        2 * window(bits, start, (len - 1) as nat) + bit(bits, start + len - 1)
    }
}

/// The code register of a decoder that is in step with an encoder which
/// has `pending` bits pending and will still write `future`.
pub open spec fn register(future: Seq<bool>, pending: nat) -> int {
    bit(future, 0) * 0x8000_0000 + window(future, pending as int + 1, 31)
}

/// The source of a decoder that has read the first `read` bits of `bits`
/// and the zero bits that follow them.
pub open spec fn source_after(bits: Seq<bool>, read: nat) -> BitSource {
    if read <= bits.len() {
        BitSource { rest: bits.skip(read as int), padding: 0 }
    } else {
        BitSource { rest: Seq::empty(), padding: (read - bits.len()) as nat }
    }
}

/// What holds of the bits `future` that an encoder will still write when
/// its interval is `interval` and `pending` bits are pending: there are at
/// least two more than are pending, the pending ones are the inverse of
/// the first, and the register that goes with them lies in the interval.
pub open spec fn in_step(future: Seq<bool>, interval: Interval, pending: nat) -> bool {
    &&& future.len() >= pending + 2
    &&& forall|i: int| 1 <= i <= pending ==> #[trigger] future[i] != future[0]
    &&& interval.contains(register(future, pending))
}

/// A window is a number of `len` binary digits, and its first digit can
/// be split off.
pub proof fn lemma_window_front(bits: Seq<bool>, start: int, len: nat)
    ensures
        window(bits, start, len + 1) == bit(bits, start) * pow2(len) + window(bits, start + 1, len),
        0 <= window(bits, start, len) < pow2(len),
    decreases len,
{
    lemma2_to64();
    if len > 0 {
        let shorter = (len - 1) as nat;
        lemma_window_front(bits, start, shorter);
        lemma_pow2_unfold(len);
        let b = bit(bits, start);
        assert(b * pow2(len) == 2 * (b * pow2(shorter))) by (nonlinear_arith)
            requires
                pow2(len) == 2 * pow2(shorter),
        ;
        assert(window(bits, start + 1, len) == 2 * window(bits, start + 1, shorter) + bit(
            bits,
            start + 1 + len - 1,
        ));
    } else {
        assert(window(bits, start, 1) == 2 * window(bits, start, 0) + bit(bits, start));
        assert(bit(bits, start) * pow2(0) == bit(bits, start));
    }
}

/// A window depends only on the bits that it covers.
pub proof fn lemma_window_same(a: Seq<bool>, from_a: int, b: Seq<bool>, from_b: int, len: nat)
    requires
        forall|i: int|
            from_a <= i < from_a + len ==> #[trigger] bit(a, i) == bit(b, i + (from_b - from_a)),
    ensures
        window(a, from_a, len) == window(b, from_b, len),
    decreases len,
{
    if len > 0 {
        lemma_window_same(a, from_a, b, from_b, (len - 1) as nat);
        let last = from_a + len - 1;
        assert(bit(a, last) == bit(b, last + (from_b - from_a)));
    }
}

/// The register depends only on the first bit and on the 31 bits after
/// the pending ones.
pub proof fn lemma_register_same(a: Seq<bool>, pending_a: nat, b: Seq<bool>, pending_b: nat)
    requires
        bit(a, 0) == bit(b, 0),
        forall|i: int|
            pending_a + 1 <= i < pending_a + 32 ==> #[trigger] bit(a, i) == bit(
                b,
                i + (pending_b - pending_a),
            ),
    ensures
        register(a, pending_a) == register(b, pending_b),
{
    lemma_window_same(a, pending_a as int + 1, b, pending_b as int + 1, 31);
}

/// Reading one more bit.
pub proof fn lemma_source_advance(bits: Seq<bool>, read: nat)
    ensures
        source_after(bits, read).advance() == source_after(bits, read + 1),
        source_after(bits, read).next_bit() == bit(bits, read as int),
{
    if read < bits.len() {
        assert(bits.skip(read as int).skip(1) =~= bits.skip(read as int + 1));
    } else if read == bits.len() {
        assert(bits.skip(read as int) =~= Seq::<bool>::empty());
    }
}

/// Bits that were read do not matter to the source.
pub proof fn lemma_source_drop(head: Seq<bool>, bits: Seq<bool>, read: nat)
    ensures
        source_after(head + bits, head.len() + read) == source_after(bits, read),
{
    if read <= bits.len() {
        assert((head + bits).skip(head.len() as int + read as int) =~= bits.skip(read as int));
    }
}

/// Loading `count` bits into the register shifts their window in.
pub proof fn lemma_preload(code: int, bits: Seq<bool>, read: nat, count: nat)
    ensures
        preload(code, source_after(bits, read), count) == (
            code * pow2(count) + window(bits, read as int, count),
            source_after(bits, read + count),
        ),
    decreases count,
{
    lemma2_to64();
    if count > 0 {
        let fewer = (count - 1) as nat;
        lemma_source_advance(bits, read);
        lemma_preload(2 * code + bit(bits, read as int), bits, read + 1, fewer);
        lemma_window_front(bits, read as int, fewer);
        lemma_pow2_unfold(count);
        let b = bit(bits, read as int);
        assert((2 * code + b) * pow2(fewer) == code * pow2(count) + b * pow2(fewer))
            by (nonlinear_arith)
            requires
                pow2(count) == 2 * pow2(fewer),
        ;
    } else {
        assert(code * pow2(0) == code);
    }
}

/// If the register lies in the share of a symbol, the decoder finds that
/// symbol.
pub proof fn lemma_decoder_finds(state: DecoderState, symbol: int)
    requires
        state.wf(),
        0 <= symbol <= 256,
        state.interval.narrow(
            state.model.lower(symbol),
            state.model.upper(symbol),
            state.model.total(),
        ).contains(state.code),
    ensures
        state.symbol() == symbol,
{
    let iv = state.interval;
    let w = iv.width();
    let d = state.model.total();
    let k = state.code - iv.low + 1;
    let lower = state.model.lower(symbol);
    let upper = state.model.upper(symbol);
    lemma_model_share(state.model, symbol);
    let v = scaled_value(iv, state.code, d);
    assert(w * lower / d <= k - 1);
    assert(k <= w * upper / d);
    assert(w * lower < k * d) by (nonlinear_arith)
        requires
            w * lower / d <= k - 1,
            d > 0,
    ;
    assert(k * d <= w * upper) by (nonlinear_arith)
        requires
            k <= w * upper / d,
            d > 0,
    ;
    assert(lower <= (k * d - 1) / w < upper) by (nonlinear_arith)
        requires
            w * lower < k * d,
            k * d <= w * upper,
            w > 0,
    ;
    lemma_symbol_unique(state.model, v, symbol);
}

/// Zero bits at the end change no bit.
pub proof fn lemma_bit_padded(bits: Seq<bool>, k: nat, i: int)
    ensures
        bit(bits + zeros(k), i) == bit(bits, i),
{
}

/// Bits after a head are the bits of the whole, further on.
pub proof fn lemma_bit_after(head: Seq<bool>, bits: Seq<bool>, i: int)
    requires
        0 <= i,
    ensures
        bit(head + bits, head.len() + i) == bit(bits, i),
{
}

/// A window that covers only zero bits is zero.
pub proof fn lemma_window_zero(bits: Seq<bool>, start: int, len: nat)
    requires
        forall|i: int| start <= i < start + len ==> #[trigger] bit(bits, i) == 0,
    ensures
        window(bits, start, len) == 0,
    decreases len,
{
    if len > 0 {
        lemma_window_zero(bits, start, (len - 1) as nat);
        assert(bit(bits, start + len - 1) == 0);
    }
}

/// The value of a settled bit in the register.
pub open spec fn top_bit(settled: bool) -> int {
    if settled {
        0x8000_0000
    } else {
        0
    }
}

/// When the encoder writes a settled bit and the pending ones, the
/// decoder's register loses its first bit and gains the bit that is 31
/// places into what follows.
pub proof fn lemma_register_after_emit(settled: bool, pending: nat, rest: Seq<bool>)
    ensures
        register(rest, 0) == 2 * (register(emit(settled, pending) + rest, pending) - top_bit(
            settled,
        )) + bit(rest, 31),
        bit(emit(settled, pending) + rest, pending as int + 32) == bit(rest, 31),
        0 <= register(emit(settled, pending) + rest, pending) - top_bit(settled) < 0x8000_0000,
{
    let head = emit(settled, pending);
    let all = head + rest;
    lemma2_to64();
    assert(head.len() == pending + 1);
    assert(all[0] == settled);
    assert forall|i: int| pending + 1 <= i < pending + 1 + 31 implies #[trigger] bit(all, i) == bit(
        rest,
        i + (0 - (pending + 1)),
    ) by {
        lemma_bit_after(head, rest, i - (pending + 1));
    }
    lemma_window_same(all, pending as int + 1, rest, 0, 31);
    lemma_window_front(rest, 0, 31);
    lemma_bit_after(head, rest, 31);
    assert(window(rest, 0, 32) == 2 * window(rest, 0, 31) + bit(rest, 31));
}

/// When the encoder leaves one more bit pending, the decoder's register
/// loses its second bit, which is the inverse of the first, and gains the
/// bit that follows it.
pub proof fn lemma_register_after_pending(future: Seq<bool>, pending: nat)
    requires
        future.len() >= pending + 2,
        future[pending as int + 1] != future[0],
    ensures
        register(future, pending + 1) == 2 * (register(future, pending) - 0x4000_0000) + bit(
            future,
            pending as int + 32,
        ),
        0x4000_0000 <= register(future, pending) < 0xC000_0000,
{
    lemma2_to64();
    lemma_window_front(future, pending as int + 1, 30);
    lemma_window_front(future, pending as int + 2, 30);
    assert(window(future, pending as int + 2, 31) == 2 * window(future, pending as int + 2, 30)
        + bit(future, pending as int + 2 + 31 - 1));
}

/// The bits that end the stream go with the interval that they close.
pub proof fn lemma_closing_in_step(interval: Interval, pending: nat)
    requires
        interval.settled(),
    ensures
        in_step(closing_bits(interval, pending), interval, pending),
{
    let settled = interval.low >= ONE_FOURTH_U32;
    let future = closing_bits(interval, pending);
    lemma2_to64();
    assert(future.len() == pending + 2);
    assert(future[0] == settled);
    assert(future[pending as int + 1] == !settled);
    lemma_window_front(future, pending as int + 1, 30);
    lemma_window_zero(future, pending as int + 2, 30);
}

/// If what follows a renormalization goes with its outcome, the bits of
/// the renormalization followed by it go with the interval at the start.
pub proof fn lemma_renorm_in_step(interval: Interval, pending: nat, tail: Seq<bool>)
    requires
        interval.valid(),
        in_step(tail, renorm(interval, pending).interval, renorm(interval, pending).pending),
    ensures
        in_step(renorm(interval, pending).bits + tail, interval, pending),
    decreases register_range() - interval.width(),
{
    let r = renorm(interval, pending);
    let future = r.bits + tail;
    lemma_expand(interval);
    if interval.in_lower_half() || interval.in_upper_half() {
        let settled = interval.in_upper_half();
        let next = interval.expand(top_bit(settled));
        let rest = renorm(next, 0);
        lemma_renorm_in_step(next, 0, tail);
        let after = rest.bits + tail;
        assert(future =~= emit(settled, pending) + after);
        lemma_register_after_emit(settled, pending, after);
        assert forall|i: int| 1 <= i <= pending implies #[trigger] future[i] != future[0] by {}
    } else if interval.in_middle() {
        let next = interval.expand(ONE_FOURTH_U32 as int);
        lemma_renorm_in_step(next, pending + 1, tail);
        assert(future[pending as int + 1] != future[0]);
        lemma_register_after_pending(future, pending);
    } else {
        assert(future =~= tail);
    }
}

/// The first symbol that an encoder codes for `input`: its first byte, or
/// the end-of-stream marker.
pub open spec fn first_symbol(input: Seq<u8>) -> int {
    if input.len() == 0 {
        end_of_stream()
    } else {
        input[0] as int
    }
}

/// The bits that an encoder will write go with its interval, and even
/// with the share of the first symbol.
pub proof fn lemma_future_in_step(state: EncoderState, input: Seq<u8>)
    requires
        state.wf(),
    ensures
        in_step(state.writes(input), state.interval, state.pending),
        in_step(state.writes(input), state.narrowed(first_symbol(input)), state.pending),
    decreases input.len(),
{
    let symbol = first_symbol(input);
    lemma_model_share(state.model, symbol);
    let narrowed = state.narrowed(symbol);
    lemma_narrow(
        state.interval,
        state.model.lower(symbol),
        state.model.upper(symbol),
        state.model.total(),
    );
    lemma_renorm_settles(narrowed, state.pending);
    let step = renorm(narrowed, state.pending);
    if input.len() == 0 {
        lemma_closing_in_step(step.interval, step.pending);
        lemma_renorm_in_step(narrowed, state.pending, closing_bits(step.interval, step.pending));
    } else {
        let next = state.coded(input[0]);
        lemma_coded_wf(state, input[0]);
        lemma_future_in_step(next, input.skip(1));
        lemma_renorm_in_step(narrowed, state.pending, next.writes(input.skip(1)));
    }
}

/// The decoder renormalizes in step with the encoder: from the register
/// and the source that go with the bits of the encoder's renormalization
/// and what follows, it arrives at the register and the source that go
/// with what follows.
pub proof fn lemma_renorm_in_sync(interval: Interval, pending: nat, tail: Seq<bool>, k: nat)
    requires
        interval.valid(),
        in_step(tail, renorm(interval, pending).interval, renorm(interval, pending).pending),
    ensures
        decode_renorm(
            interval,
            register(renorm(interval, pending).bits + tail, pending),
            source_after(renorm(interval, pending).bits + tail + zeros(k), pending + 32),
        ) == Some(
            Synced {
                interval: renorm(interval, pending).interval,
                code: register(tail, renorm(interval, pending).pending),
                source: source_after(tail + zeros(k), renorm(interval, pending).pending + 32),
            },
        ),
    decreases register_range() - interval.width(),
{
    let r = renorm(interval, pending);
    let future = r.bits + tail;
    let code = register(future, pending);
    let source = source_after(future + zeros(k), pending + 32);
    lemma_expand(interval);
    lemma_renorm_in_step(interval, pending, tail);
    lemma_source_advance(future + zeros(k), pending + 32);
    lemma_bit_padded(future, k, pending as int + 32);
    if interval.in_lower_half() || interval.in_upper_half() {
        let settled = interval.in_upper_half();
        let next = interval.expand(top_bit(settled));
        let rest = renorm(next, 0);
        let after = rest.bits + tail;
        assert(future =~= emit(settled, pending) + after);
        assert(future + zeros(k) =~= emit(settled, pending) + (after + zeros(k)));
        lemma_register_after_emit(settled, pending, after);
        lemma_source_drop(emit(settled, pending), after + zeros(k), 32);
        lemma_renorm_in_sync(next, 0, tail, k);
        assert(!source.exhausted());
        assert(renorm_offset(interval) == top_bit(settled));
    } else if interval.in_middle() {
        let next = interval.expand(ONE_FOURTH_U32 as int);
        lemma_renorm_in_step(next, pending + 1, tail);
        assert(future[pending as int + 1] != future[0]);
        lemma_register_after_pending(future, pending);
        lemma_renorm_in_sync(next, pending + 1, tail, k);
        assert(!source.exhausted());
    } else {
        assert(future =~= tail);
    }
}

/// The decoder that is in step with an encoder in the state `state` that
/// has `rest` still to code, when `k` zero bits fill the last byte of the
/// output: it has the encoder's interval and model, and the register and
/// the source that go with the bits that the encoder will still write.
pub open spec fn in_sync(state: EncoderState, rest: Seq<u8>, k: nat) -> DecoderState {
    DecoderState {
        interval: state.interval,
        code: register(state.writes(rest), state.pending),
        model: state.model,
        source: source_after(state.writes(rest) + zeros(k), state.pending + 32),
    }
}

/// A decoder in step with an encoder is well-formed and finds the symbol
/// that the encoder codes next; if that is a byte, it is in step with the
/// encoder again once both have done their step.
pub proof fn lemma_step_in_sync(state: EncoderState, rest: Seq<u8>, k: nat)
    requires
        state.wf(),
    ensures
        in_sync(state, rest, k).wf(),
        in_sync(state, rest, k).symbol() == first_symbol(rest),
        rest.len() > 0 ==> in_sync(state, rest, k).step() == Some(
            in_sync(state.coded(rest[0]), rest.skip(1), k),
        ),
{
    let decoder = in_sync(state, rest, k);
    let symbol = first_symbol(rest);
    lemma_model_share(state.model, symbol);
    let narrowed = state.narrowed(symbol);
    lemma_narrow(
        state.interval,
        state.model.lower(symbol),
        state.model.upper(symbol),
        state.model.total(),
    );
    lemma_future_in_step(state, rest);
    assert(decoder.wf());
    lemma_decoder_finds(decoder, symbol);
    lemma_renorm_settles(narrowed, state.pending);
    if rest.len() > 0 {
        let next = state.coded(rest[0]);
        lemma_coded_wf(state, rest[0]);
        lemma_future_in_step(next, rest.skip(1));
        lemma_renorm_in_sync(narrowed, state.pending, next.writes(rest.skip(1)), k);
        assert(decoder.narrowed() == narrowed);
    }
}

/// A decoder in step with an encoder decodes what the encoder has still
/// to code, and reaches the end of the stream.
pub proof fn lemma_run_in_sync(state: EncoderState, rest: Seq<u8>, k: nat)
    requires
        state.wf(),
    ensures
        in_sync(state, rest, k).run() == (Decoded { bytes: rest, complete: true }),
    decreases rest.len(),
{
    let decoder = in_sync(state, rest, k);
    lemma_step_in_sync(state, rest, k);
    if rest.len() == 0 {
        assert(decoder.run().bytes =~= rest);
    } else {
        lemma_coded_wf(state, rest[0]);
        lemma_run_in_sync(state.coded(rest[0]), rest.skip(1), k);
        assert(seq![rest[0]] + rest.skip(1) =~= rest);
        lemma_step(decoder);
    }
}

/// The number of zero bits that fill the last byte of the encoding of
/// `input`.
pub open spec fn filling(input: Seq<u8>) -> nat {
    pad_len(encode_bits(input).len())
}

/// A decoder starts on an encoding in step with the encoder that wrote
/// it.
pub proof fn lemma_starts_in_sync(input: Seq<u8>)
    ensures
        DecoderState::initial(encode(input)) == in_sync(
            EncoderState::initial(),
            input,
            filling(input),
        ),
{
    let future = encode_bits(input);
    let k = filling(input);
    let padded = future + zeros(k);
    let bytes = encode(input);
    lemma_unpack_pack(future);
    assert(unpack(bytes) == padded);
    lemma2_to64();
    assert(padded.skip(0) =~= padded);
    assert(BitSource::of_bytes(bytes) == source_after(padded, 0));
    lemma_preload(0, padded, 0, 32);
    lemma_window_front(padded, 0, 31);
    assert forall|i: int| 1 <= i < 32 implies #[trigger] bit(padded, i) == bit(future, i + (0 - 0)) by {
        lemma_bit_padded(future, k, i);
    }
    lemma_bit_padded(future, k, 0);
    lemma_register_same(padded, 0, future, 0);
}

/// Decoding the encoding of any byte sequence gives the sequence back and
/// reaches the end of the stream.
pub proof fn lemma_round_trip(input: Seq<u8>)
    ensures
        decode(encode(input)) == (Decoded { bytes: input, complete: true }),
{
    lemma_starts_in_sync(input);
    let state = EncoderState::initial();
    assert(state.model.wf());
    lemma_run_in_sync(state, input, filling(input));
}

/// While a decoder decodes an encoding, it stays in step with the encoder
/// that wrote it: after any number of bytes, the decoder has the interval
/// and the model that the encoder had after the same bytes.
pub proof fn lemma_decoder_follows_encoder(input: Seq<u8>, count: nat)
    requires
        count <= input.len(),
    ensures
        DecoderState::initial(encode(input)).after(count) == Some(
            in_sync(
                EncoderState::after(input.take(count as int)),
                input.skip(count as int),
                filling(input),
            ),
        ),
        DecoderState::initial(encode(input)).after(count).unwrap().model == ModelView::after(
            input.take(count as int),
        ),
        DecoderState::initial(encode(input)).after(count).unwrap().interval == EncoderState::after(
            input.take(count as int),
        ).interval,
    decreases count,
{
    let k = filling(input);
    let start = EncoderState::initial();
    assert(start.model.wf());
    lemma_coded_all_wf(start, input.take(count as int));
    if count == 0 {
        lemma_starts_in_sync(input);
        assert(input.take(0) =~= Seq::<u8>::empty());
        assert(input.skip(0) =~= input);
    } else {
        let before = (count - 1) as nat;
        lemma_decoder_follows_encoder(input, before);
        let state = EncoderState::after(input.take(before as int));
        let rest = input.skip(before as int);
        lemma_coded_all_wf(start, input.take(before as int));
        lemma_step_in_sync(state, rest, k);
        assert(input.take(count as int).drop_last() =~= input.take(before as int));
        assert(input.take(count as int).last() == rest[0]);
        assert(rest.skip(1) =~= input.skip(count as int));
    }
}

} // verus!
