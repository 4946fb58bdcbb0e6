use codecs::arithmetic::coder::{BitOutputStream, Coder};
use codecs::arithmetic::decoder::{BitInputStream, DecodeError, Decoder};
use codecs::arithmetic::interval::{HALF_U32, ONE_FOURTH_U32, THREE_FOURTHS_U32};
use codecs::arithmetic::model::Model;

fn encode(input: &[u8]) -> Vec<u8> {
    let mut coder = Coder::new(input.to_vec());
    coder.code_all();
    coder.output_bytes().clone()
}

fn decode(coded: &[u8]) -> (Vec<u8>, Result<(), DecodeError>) {
    let mut decoder = Decoder::new(coded.to_vec());
    let result = decoder.decode_all();
    (decoder.output_bytes().clone(), result)
}

fn pseudo_random_bytes(len: usize, mut seed: u64) -> Vec<u8> {
    let mut bytes = Vec::with_capacity(len);
    for _ in 0..len {
        seed ^= seed << 13;
        seed ^= seed >> 7;
        seed ^= seed << 17;
        bytes.push((seed >> 24) as u8);
    }
    bytes
}

const INVOCATION: &str = "Litwo! Ojczyzno moja! ty jestes jak zdrowie: \
Ile cie trzeba cenic, ten tylko sie dowie, Kto cie stracil. \
Dzis pieknosc twa w calej ozdobie Widze i opisuje, bo tesknie po tobie. \
Panno swieta, co Jasnej bronisz Czestochowy I w Ostrej swiecisz Bramie! \
Ty, co grod zamkowy Nowogrodzki ochraniasz z jego wiernym ludem!";

#[test]
fn const_check() {
    println!("{:b}", HALF_U32);
    println!("{:b}", THREE_FOURTHS_U32);
    println!("{:b}", ONE_FOURTH_U32);
    assert_eq!(HALF_U32, u32::MAX - (u32::MAX >> 1));
    assert_eq!(THREE_FOURTHS_U32, u32::MAX - (u32::MAX >> 2));
    assert_eq!(ONE_FOURTH_U32, THREE_FOURTHS_U32 - HALF_U32);
}

#[test]
fn decoder() {
    let input_stream = INVOCATION.as_bytes();
    let input_len = input_stream.len();

    let mut coder = Coder::new(input_stream.to_vec());
    coder.code_all();
    let output_stream = coder.output_bytes().clone();
    let comp_len = output_stream.len();
    assert_eq!(coder.get_stat(), (input_len, comp_len));

    let mut decoder = Decoder::new(output_stream);
    assert_eq!(decoder.decode_all(), Ok(()));
    let decode_output_stream = decoder.output_bytes().clone();

    println!("{}", String::from_utf8_lossy(&decode_output_stream));
    println!("{} {}", input_len, comp_len);
    assert_eq!(decode_output_stream, input_stream.to_vec());
    assert_eq!(decoder.get_stat(), input_len);
    assert!(comp_len < input_len);
}

#[test]
fn ababab_round_trips() {
    let input = [0x41u8, 0x42, 0x41, 0x42, 0x41, 0x42];
    let coded = encode(&input);
    let (decoded, result) = decode(&coded);
    assert_eq!(result, Ok(()));
    assert_eq!(decoded, input.to_vec());
}

#[test]
fn short_input_is_coded_with_the_uniform_prior() {
    // The model folds nothing in before 256 bytes: each of the six bytes
    // and the end marker has probability 1/257 and costs a little more
    // than eight bits, so that seven bytes cannot hold them.
    let coded = encode(&[0x41u8, 0x42, 0x41, 0x42, 0x41, 0x42]);
    assert_eq!(coded.len(), 8);
    assert_eq!(coded[0], 0x41);
}

#[test]
fn alternating_input_costs_little_once_the_model_has_adapted() {
    let mut input = vec![];
    for _ in 0..3000 {
        input.extend_from_slice(&[0x41, 0x42]);
    }
    let coded = encode(&input);
    // Well under seven bytes for six symbols.
    assert!(coded.len() * 6 < input.len() * 2);
    let (decoded, result) = decode(&coded);
    assert_eq!(result, Ok(()));
    assert_eq!(decoded, input);
}

#[test]
fn empty_input_round_trips() {
    let coded = encode(&[]);
    assert!(!coded.is_empty());
    // The end marker owns the top 1/257 of the interval: eight one bits
    // settle, then the closing bits 0 1 follow.
    assert_eq!(coded, vec![0xFF, 0x40]);
    let (decoded, result) = decode(&coded);
    assert_eq!(result, Ok(()));
    assert_eq!(decoded, Vec::<u8>::new());
}

#[test]
fn single_byte_round_trips() {
    let coded = encode(&[0xFF]);
    let (decoded, result) = decode(&coded);
    assert_eq!(result, Ok(()));
    assert_eq!(decoded, vec![0xFFu8]);
}

#[test]
fn every_single_byte_round_trips() {
    for byte in 0..=255u8 {
        let coded = encode(&[byte]);
        let (decoded, result) = decode(&coded);
        assert_eq!(result, Ok(()));
        assert_eq!(decoded, vec![byte]);
    }
}

#[test]
fn encoding_is_deterministic() {
    let input = pseudo_random_bytes(5000, 0x1234_5678_9abc_def1);
    assert_eq!(encode(&input), encode(&input));
}

#[test]
fn skewed_input_compresses_well() {
    let input = vec![0x41u8; 100_000];
    let coded = encode(&input);
    assert!(coded.len() * 20 < input.len());
    let (decoded, result) = decode(&coded);
    assert_eq!(result, Ok(()));
    assert_eq!(decoded, input);
}

#[test]
fn random_input_barely_expands() {
    let input = pseudo_random_bytes(50_000, 0x0dd_ba11_5eed);
    let coded = encode(&input);
    assert!(coded.len() <= input.len() + input.len() / 20);
    assert!(coded.len() >= input.len() - input.len() / 20);
    let (decoded, result) = decode(&coded);
    assert_eq!(result, Ok(()));
    assert_eq!(decoded, input);
}

#[test]
fn long_mixed_input_round_trips_across_model_rebuilds() {
    let mut input = pseudo_random_bytes(3000, 42);
    input.extend(std::iter::repeat(7u8).take(3000));
    input.extend(INVOCATION.as_bytes());
    let coded = encode(&input);
    let (decoded, result) = decode(&coded);
    assert_eq!(result, Ok(()));
    assert_eq!(decoded, input);
}

#[test]
fn decoding_nothing_reports_an_unexpected_end() {
    // With no input the register is zero: byte 0 is decoded, and the
    // first renormalization finds neither input nor zero bits left.
    let (decoded, result) = decode(&[]);
    assert_eq!(result, Err(DecodeError::UnexpectedEnd));
    assert_eq!(decoded, vec![0u8]);
}

#[test]
fn decoding_a_truncated_stream_reports_an_unexpected_end() {
    let input = pseudo_random_bytes(1000, 99);
    let coded = encode(&input);
    let (decoded, result) = decode(&coded[..coded.len() / 2]);
    assert_eq!(result, Err(DecodeError::UnexpectedEnd));
    assert_ne!(decoded, input);
}

#[test]
fn decoder_stops_at_the_end_marker() {
    let mut coded = encode(b"stop here");
    coded.extend_from_slice(&[0xAA; 16]);
    let (decoded, result) = decode(&coded);
    assert_eq!(result, Ok(()));
    assert_eq!(decoded, b"stop here".to_vec());
}

#[test]
fn coder_reports_input_and_output_sizes() {
    let mut coder = Coder::new(vec![1, 2, 3]);
    assert_eq!(coder.get_stat(), (0, 0));
    coder.code_all();
    let (read, written) = coder.get_stat();
    assert_eq!(read, 3);
    assert_eq!(written, coder.output_bytes().len());
}

#[test]
fn model_starts_uniform() {
    let model = Model::new();
    assert_eq!(model.total_symbols(), 257);
    for symbol in 0..=255u8 {
        let range = model.get_p_range(symbol);
        assert_eq!(range.lower, symbol as u32);
        assert_eq!(range.upper, symbol as u32 + 1);
        assert_eq!(range.denom, 257);
        assert_eq!(model.get_symbol(symbol as u32), Some(symbol));
    }
    let eof = model.get_eof_range();
    assert_eq!((eof.lower, eof.upper, eof.denom), (256, 257, 257));
    assert_eq!(model.get_symbol(256), None);
}

#[test]
fn model_folds_a_full_buffer() {
    let mut model = Model::new();
    for _ in 0..255 {
        model.save_symbol(10);
    }
    assert_eq!(model.total_symbols(), 257);
    model.save_symbol(10);
    assert_eq!(model.total_symbols(), 257 + 256);
    let range = model.get_p_range(10);
    assert_eq!((range.lower, range.upper, range.denom), (10, 11 + 256, 513));
    let below = model.get_p_range(9);
    assert_eq!((below.lower, below.upper), (9, 10));
    let above = model.get_p_range(11);
    assert_eq!((above.lower, above.upper), (267, 268));
    assert_eq!(model.get_symbol(266), Some(10));
    assert_eq!(model.get_symbol(267), Some(11));
}

#[test]
fn model_folds_a_partial_buffer_on_request() {
    let mut model = Model::new();
    model.save_symbol(0);
    model.save_symbol(255);
    model.save_symbol(255);
    model.update_model();
    assert_eq!(model.total_symbols(), 260);
    let first = model.get_p_range(0);
    assert_eq!((first.lower, first.upper), (0, 2));
    let last = model.get_p_range(255);
    assert_eq!((last.lower, last.upper), (256, 259));
    let eof = model.get_eof_range();
    assert_eq!((eof.lower, eof.upper, eof.denom), (259, 260, 260));
}

#[test]
fn models_that_observe_the_same_bytes_agree() {
    let history = pseudo_random_bytes(1500, 0x5eed);
    let mut encoder_side = Model::new();
    let mut decoder_side = Model::default();
    for (i, &byte) in history.iter().enumerate() {
        encoder_side.save_symbol(byte);
        decoder_side.save_symbol(byte);
        if i % 97 == 0 || i % 256 == 255 {
            assert_eq!(encoder_side.total_symbols(), decoder_side.total_symbols());
            for symbol in 0..=255u8 {
                let a = encoder_side.get_p_range(symbol);
                let b = decoder_side.get_p_range(symbol);
                assert_eq!((a.lower, a.upper, a.denom), (b.lower, b.upper, b.denom));
            }
            let a = encoder_side.get_eof_range();
            let b = decoder_side.get_eof_range();
            assert_eq!((a.lower, a.upper, a.denom), (b.lower, b.upper, b.denom));
        }
    }
    // Five full buffers have been folded in; the rest waits.
    assert_eq!(encoder_side.total_symbols(), 257 + 5 * 256);
}

#[test]
fn ranges_of_the_model_tile_the_total() {
    let mut model = Model::new();
    for byte in pseudo_random_bytes(600, 7) {
        model.save_symbol(byte);
    }
    let total = model.total_symbols();
    let mut expected_lower = 0;
    for symbol in 0..=255u8 {
        let range = model.get_p_range(symbol);
        assert_eq!(range.lower, expected_lower);
        assert!(range.lower < range.upper);
        assert_eq!(range.denom, total);
        assert_eq!(model.get_symbol(range.lower), Some(symbol));
        assert_eq!(model.get_symbol(range.upper - 1), Some(symbol));
        expected_lower = range.upper;
    }
    let eof = model.get_eof_range();
    assert_eq!(eof.lower, expected_lower);
    assert_eq!(eof.upper, total);
    assert_eq!(model.get_symbol(total - 1), None);
}

#[test]
fn bit_streams_pack_from_the_top() {
    let mut output = BitOutputStream::new();
    for bit in [true, false, true, true, false, false, false, true, true, true] {
        output.write_bit(bit);
    }
    assert_eq!(output.written_bytes(), 1);
    assert_eq!(output.as_bytes(), &vec![0b1011_0001]);
    output.finish();
    assert_eq!(output.written_bytes(), 2);
    assert_eq!(output.as_bytes(), &vec![0b1011_0001, 0b1100_0000]);
    output.finish();
    assert_eq!(output.written_bytes(), 2);

    let mut input = BitInputStream::new(output.as_bytes().clone());
    let mut bits = vec![];
    while let Some(bit) = input.read_bit() {
        bits.push(bit);
    }
    let expected: Vec<bool> = "1011000111000000".chars().map(|c| c == '1').collect();
    assert_eq!(bits, expected);
    assert_eq!(input.read_bit(), None);
}
