use codecs::lzw::coder::LZWCoder;
use codecs::lzw::decoder::{DecodeError, LZWDecoder};
use codecs::lzw::prefix_tree::{PrefixNode, PrefixTree};
use codecs::lzw::universal_coder::{
    DeltaCoder, FibonacciCoder, GammaCoder, OmegaCoder, UniversalCoder,
};
use codecs::lzw::universal_decoder::{
    DeltaDecoder, FibonacciDecoder, GammaDecoder, OmegaDecoder, UniversalDecoder,
};
use codecs::lzw::MAX_DICT_SIZE;

fn pseudo_random_bytes(len: usize, mut seed: u64, alphabet: u64) -> Vec<u8> {
    let mut bytes = Vec::with_capacity(len);
    for _ in 0..len {
        seed ^= seed << 13;
        seed ^= seed >> 7;
        seed ^= seed << 17;
        bytes.push(((seed >> 24) % alphabet) as u8);
    }
    bytes
}

fn prose(times: usize) -> Vec<u8> {
    let text = "It is a truth universally acknowledged, that a single man in possession \
of a good fortune, must be in want of a wife. However little known the feelings or views \
of such a man may be on his first entering a neighbourhood, this truth is so well fixed \
in the minds of the surrounding families, that he is considered the rightful property of \
some one or other of their daughters. ";
    text.repeat(times).into_bytes()
}

fn round_trip<C: UniversalCoder, D: UniversalDecoder>(buf: &[u8], coder: C, decoder: D) -> Vec<u8> {
    let mut coder = LZWCoder::new(buf.to_vec(), coder);
    coder.code_to_end();
    let coded_buf = coder.output_bytes().clone();
    assert_eq!(coder.get_stat(), (buf.len(), coded_buf.len()));

    println!("original len: {}", buf.len());
    println!("coded len: {}", coded_buf.len());

    let mut decoder = LZWDecoder::new(coded_buf, decoder);
    assert_eq!(decoder.decode_to_end(), Ok(()));
    assert_eq!(decoder.get_stat(), decoder.output_bytes().len());
    decoder.output_bytes().clone()
}

#[test]
fn lzw_gamma() {
    let buf = pseudo_random_bytes(20_000, 0x1234_5678, 256);
    let output_buf = round_trip(&buf, GammaCoder, GammaDecoder);
    assert_eq!(buf.as_slice(), output_buf);
}

#[test]
fn lzw_delta() {
    let buf = prose(60);
    let output_buf = round_trip(&buf, DeltaCoder, DeltaDecoder);
    assert_eq!(buf, output_buf);
}

#[test]
fn lzw_omega() {
    let buf = prose(60);
    let output_buf = round_trip(&buf, OmegaCoder, OmegaDecoder);
    assert_eq!(buf, output_buf);
}

#[test]
fn lzw_fib() {
    let buf = pseudo_random_bytes(20_000, 0xfeed_beef, 7);
    let output_buf = round_trip(&buf, FibonacciCoder::new(), FibonacciDecoder::new());
    assert_eq!(buf.as_slice(), output_buf);
}

#[test]
fn lzw_compresses_repetitive_input() {
    let buf = prose(60);
    let mut coder = LZWCoder::new(buf.clone(), DeltaCoder);
    coder.code_to_end();
    println!("{} {}", coder.output_bytes().len(), buf.len());
    assert!(coder.output_bytes().len() * 2 < buf.len());
}

#[test]
fn lzw_of_nothing_is_nothing() {
    let mut coder = LZWCoder::new(vec![], GammaCoder);
    coder.code_to_end();
    assert!(coder.output_bytes().is_empty());
    assert_eq!(round_trip(&[], GammaCoder, GammaDecoder), Vec::<u8>::new());
}

#[test]
fn lzw_writes_the_expected_indices() {
    // "abababa": a, b, then the new phrases ab (256) and aba (258).
    let mut coder = LZWCoder::new(b"abababa".to_vec(), GammaCoder);
    coder.code_to_end();
    let mut expected = codecs::lzw::universal_coder::BitOutputStream::new();
    let mut gamma = GammaCoder;
    for index in [97usize, 98, 256, 258] {
        gamma.code_number(&mut expected, index + 1);
    }
    gamma.pad(&mut expected);
    assert_eq!(coder.output_bytes(), expected.as_bytes());
    assert_eq!(round_trip(b"abababa", GammaCoder, GammaDecoder), b"abababa".to_vec());
}

#[test]
fn lzw_handles_a_run_of_one_byte() {
    // Every index but the first names the phrase that its own step adds.
    let buf = vec![b'x'; 5000];
    assert_eq!(round_trip(&buf, OmegaCoder, OmegaDecoder), buf);
}

#[test]
fn lzw_keeps_coding_when_the_dictionary_is_full() {
    let buf = pseudo_random_bytes(MAX_DICT_SIZE + 300_000, 77, 256);
    assert_eq!(round_trip(&buf, DeltaCoder, DeltaDecoder), buf);
}

#[test]
fn decoder_rejects_an_index_that_was_never_written() {
    let mut stream = codecs::lzw::universal_coder::BitOutputStream::new();
    let mut gamma = GammaCoder;
    gamma.code_number(&mut stream, 66);
    gamma.code_number(&mut stream, 300);
    gamma.pad(&mut stream);
    let mut decoder = LZWDecoder::new(stream.as_bytes().clone(), GammaDecoder);
    assert_eq!(decoder.decode_to_end(), Err(DecodeError::InvalidIndex));
    assert_eq!(decoder.output_bytes(), &vec![65u8]);

    let mut first = codecs::lzw::universal_coder::BitOutputStream::new();
    gamma.code_number(&mut first, 257);
    gamma.pad(&mut first);
    let mut decoder = LZWDecoder::new(first.as_bytes().clone(), GammaDecoder);
    assert_eq!(decoder.decode_to_end(), Err(DecodeError::InvalidIndex));
    assert!(decoder.output_bytes().is_empty());
}

#[test]
fn prefix_tree_grows_by_edges() {
    let _node = PrefixNode::new();
    let mut tree = PrefixTree::new();
    assert_eq!(tree.travel(7, 9), None);
    assert_eq!(tree.append(7, 9), 256);
    assert_eq!(tree.travel(7, 9), Some(256));
    assert_eq!(tree.travel(7, 10), None);
    assert_eq!(tree.append(256, 1), 257);
    assert_eq!(tree.travel(256, 1), Some(257));
    assert_eq!(tree.travel(255, 1), None);
}

#[test]
fn full_prefix_tree_stays_as_it_is() {
    let mut tree = PrefixTree::new();
    for i in 256..MAX_DICT_SIZE {
        assert_eq!(tree.append(0, (i % 256) as u8), i);
    }
    assert_eq!(tree.append(3, 3), 3);
    assert_eq!(tree.travel(3, 3), None);
}
