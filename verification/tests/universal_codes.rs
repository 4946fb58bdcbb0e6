use codecs::lzw::universal_coder::{
    floor_log2, BitOutputStream, DeltaCoder, FibonacciCoder, GammaCoder, OmegaCoder,
    UniversalCoder,
};
use codecs::lzw::universal_decoder::{
    BitInputStream, DeltaDecoder, FibonacciDecoder, GammaDecoder, OmegaDecoder, UniversalDecoder,
};

fn coded<C: UniversalCoder>(coder: &mut C, numbers: &[usize]) -> Vec<u8> {
    let mut bitoutput = BitOutputStream::new();
    for &number in numbers {
        coder.code_number(&mut bitoutput, number);
    }
    coder.pad(&mut bitoutput);
    assert_eq!(bitoutput.written_bytes(), bitoutput.as_bytes().len());
    bitoutput.as_bytes().clone()
}

fn decoded<D: UniversalDecoder>(decoder: &mut D, stream: Vec<u8>) -> Vec<usize> {
    let mut bitinput = BitInputStream::new(stream);
    let mut numbers = vec![];
    while let Some(num) = decoder.decode_number(&mut bitinput) {
        println!("{}", num);
        numbers.push(num);
    }
    numbers
}

fn one_to(limit: usize) -> Vec<usize> {
    (1..=limit).collect()
}

fn print_bytes(stream: &[u8]) {
    for num in stream {
        println!("{:#010b}", num)
    }
}

#[test]
fn universal_coder_gamma() {
    let stream = coded(&mut GammaCoder, &one_to(9));
    print_bytes(&stream);
    assert_eq!(stream, vec![0xa6, 0x42, 0x98, 0xe2, 0x04, 0x80]);
}

#[test]
fn universal_coder_delta() {
    let stream = coded(&mut DeltaCoder, &one_to(9));
    print_bytes(&stream);
    assert_eq!(stream, vec![0xa2, 0xb1, 0xae, 0x79, 0x01, 0x08]);
}

#[test]
fn universal_coder_omega() {
    let stream = coded(&mut OmegaCoder, &one_to(9));
    print_bytes(&stream);
    assert_eq!(stream, vec![0x4d, 0x45, 0x56, 0x5d, 0xc3, 0x97]);
}

#[test]
fn universal_coder_fib() {
    let stream = coded(&mut FibonacciCoder::new(), &one_to(9));
    print_bytes(&stream);
    assert_eq!(stream, vec![0xd9, 0xd8, 0xe6, 0xb0, 0xe3]);
}

#[test]
fn universal_decoder_gamma() {
    let stream = coded(&mut GammaCoder, &one_to(15));
    print_bytes(&stream);
    assert_eq!(
        stream,
        vec![0xa6, 0x42, 0x98, 0xe2, 0x04, 0x8a, 0x16, 0x30, 0x68, 0xe1, 0xe0]
    );
    assert_eq!(decoded(&mut GammaDecoder, stream), one_to(15));
}

#[test]
fn universal_decoder_delta() {
    let stream = coded(&mut DeltaCoder, &one_to(20));
    print_bytes(&stream);
    assert_eq!(
        stream,
        vec![
            0xa2, 0xb1, 0xae, 0x79, 0x01, 0x09, 0x11, 0x19, 0x21, 0x29, 0x31, 0x39, 0x40, 0xa2,
            0x52, 0x29, 0x95, 0x00
        ]
    );
    assert_eq!(decoded(&mut DeltaDecoder, stream), one_to(20));
}

#[test]
fn universal_decoder_omega() {
    let stream = coded(&mut OmegaCoder, &one_to(9));
    print_bytes(&stream);
    assert_eq!(decoded(&mut OmegaDecoder, stream), one_to(9));
}

#[test]
fn universal_decoder_fib() {
    let stream = coded(&mut FibonacciCoder::new(), &one_to(10));
    print_bytes(&stream);
    assert_eq!(stream, vec![0xd9, 0xd8, 0xe6, 0xb0, 0xe3, 0x4c]);
    assert_eq!(decoded(&mut FibonacciDecoder::new(), stream), one_to(10));
}

#[test]
fn large_numbers_round_trip_in_every_code() {
    let numbers = [1usize, 2, 255, 256, 65_535, 65_536, 999_999, 1_000_000, 3, 1];
    assert_eq!(decoded(&mut GammaDecoder, coded(&mut GammaCoder, &numbers)), numbers.to_vec());
    assert_eq!(decoded(&mut DeltaDecoder, coded(&mut DeltaCoder, &numbers)), numbers.to_vec());
    assert_eq!(decoded(&mut OmegaDecoder, coded(&mut OmegaCoder, &numbers)), numbers.to_vec());
    assert_eq!(
        decoded(&mut FibonacciDecoder::new(), coded(&mut FibonacciCoder::new(), &numbers)),
        numbers.to_vec()
    );
}

#[test]
fn one_million_has_the_expected_words() {
    // gamma: 19 zeros, then the 20 binary digits
    assert_eq!(coded(&mut GammaCoder, &[1_000_000]), vec![0x00, 0x00, 0x1e, 0x84, 0x80]);
    // delta: gamma(20) = 0000 10100, then the 19 low digits
    assert_eq!(coded(&mut DeltaCoder, &[1_000_000]), vec![0x0a, 0x74, 0x24, 0x00]);
    // omega: 10 100 10011 and the 20 digits, a closing zero, filled with a one
    assert_eq!(coded(&mut OmegaCoder, &[1_000_000]), vec![0xa4, 0xfd, 0x09, 0x01]);
    assert_eq!(coded(&mut FibonacciCoder::new(), &[1_000_000]), vec![0x00, 0xa0, 0x02, 0x8c]);
}

#[test]
fn readers_give_up_on_an_unfinished_word() {
    // Three zeros and a one announce three more digits; only two follow
    // within this byte... and then six more zeros: the digits are read
    // across, so cut the stream to one byte with too few bits.
    assert_eq!(decoded(&mut GammaDecoder, vec![0b0000_0001]), Vec::<usize>::new());
    assert_eq!(decoded(&mut DeltaDecoder, vec![0b0000_0000]), Vec::<usize>::new());
    assert_eq!(decoded(&mut OmegaDecoder, vec![0b1111_1111]), Vec::<usize>::new());
    assert_eq!(decoded(&mut FibonacciDecoder::new(), vec![0b1010_1010]), Vec::<usize>::new());
    assert_eq!(decoded(&mut GammaDecoder, vec![]), Vec::<usize>::new());
}

#[test]
fn gamma_reader_gives_up_on_numbers_that_do_not_fit() {
    // Seventy zeros would announce a number of seventy-one binary digits.
    let mut stream = vec![0u8; 9];
    stream.extend_from_slice(&[0xff; 10]);
    assert_eq!(decoded(&mut GammaDecoder, stream), Vec::<usize>::new());
}

#[test]
fn fibonacci_finds_the_last_number_not_above() {
    let mut coder = FibonacciCoder::new();
    // 0 1 1 2 3 5 8 13 21
    assert_eq!(coder.find_or_resize(1), 2);
    assert_eq!(coder.find_or_resize(2), 3);
    assert_eq!(coder.find_or_resize(4), 4);
    assert_eq!(coder.find_or_resize(20), 7);
    assert_eq!(coder.find_or_resize(21), 8);
    assert_eq!(coder.find_or_resize(0), 1);
    let mut decoder = FibonacciDecoder::new();
    assert_eq!(decoder.fib(0), 0);
    assert_eq!(decoder.fib(10), 55);
    assert_eq!(decoder.fib(3), 2);
    assert_eq!(decoder.fib(31), 1_346_269);
}

#[test]
fn floor_log2_counts_binary_digits() {
    assert_eq!(floor_log2(1), 0);
    assert_eq!(floor_log2(2), 1);
    assert_eq!(floor_log2(3), 1);
    assert_eq!(floor_log2(1024), 10);
    assert_eq!(floor_log2(usize::MAX), usize::BITS - 1);
}

#[test]
fn bit_writer_pads_with_either_bit() {
    let mut zeros = BitOutputStream::new();
    zeros.write_bit(true);
    zeros.write_bit(false);
    zeros.write_bit(true);
    zeros.pad_with_zeros();
    assert_eq!(zeros.as_bytes(), &vec![0b1010_0000]);
    zeros.pad_with_zeros();
    assert_eq!(zeros.as_bytes(), &vec![0b1010_0000]);

    let mut ones = BitOutputStream::new();
    ones.write_bit(true);
    ones.write_bit(false);
    ones.write_bit(true);
    ones.pad_with_ones();
    assert_eq!(ones.as_bytes(), &vec![0b1011_1111]);
    assert_eq!(ones.written_bytes(), 1);
}

#[test]
fn bit_reader_hands_out_bits_from_the_top() {
    let mut input = BitInputStream::new(vec![0b1000_0001, 0b0100_0000]);
    let mut bits = vec![];
    while let Some(bit) = input.read_bit() {
        bits.push(bit);
    }
    let expected: Vec<bool> = "1000000101000000".chars().map(|c| c == '1').collect();
    assert_eq!(bits, expected);
    assert_eq!(input.read_bit(), None);
}
