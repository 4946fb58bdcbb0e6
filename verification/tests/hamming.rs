use codecs::correction::blocks::{code_bytes, count_differing_halves, decode_bytes};
use codecs::correction::hamming::{check, code, correction, decode, BitGetSet};

#[test]
fn bit_test() {
    let mut code: u8 = 0;

    code.set(1, true);
    code.set(4, true);
    code.set(7, true);

    println!("{:08b}", code);
    assert_eq!(code, 0b0100_1001);

    code.set(7, false);
    code.set(1, false);
    println!("{:08b}", code);
    assert_eq!(code, 0b0000_1000);
    assert!(code.get(4));
    assert!(!code.get(1));
}

#[test]
fn single_err_test() {
    for e in 0..8 {
        let err = 1 << e;
        for i in 0..16 {
            let data = i << 4;
            let code = code(data);
            let err_code = code ^ err;
            let (decoded, _) = decode(err_code);
            assert_eq!(data, decoded);
        }
    }
}

#[test]
fn double_err_test() {
    for e1 in 0..8 {
        for e2 in (e1 + 1)..8 {
            let err1 = 1 << e1;
            let err2 = 1 << e2;
            for i in 0..16 {
                let data = i << 4;
                let code = code(data);
                let err_code = (code ^ err1) ^ err2;
                let (_, err) = decode(err_code);
                assert!(err);
            }
        }
    }
}

#[test]
fn code_test() {
    let data = 0b10000000;
    println!("{:08b}", code(data));
    assert_eq!(code(data), 0b1101_0001);

    let data = 0b01000000;
    println!("{:08b}", code(data));
    assert_eq!(code(data), 0b0110_1001);

    let data = 0b00100000;
    println!("{:08b}", code(data));
    assert_eq!(code(data), 0b0011_0101);

    let data = 0b00010000;
    println!("{:08b}", code(data));
    assert_eq!(code(data), 0b0001_1011);
}

#[test]
fn clean_words_decode_without_error() {
    for i in 0..16u8 {
        let data = i << 4;
        assert_eq!(decode(code(data)), (data, false));
        assert_eq!(check(code(data)), 0);
    }
}

#[test]
fn code_ignores_the_low_bits_of_the_data() {
    for data in 0..=255u8 {
        assert_eq!(code(data), code(data & 0xF0));
    }
}

#[test]
fn syndromes() {
    for i in 0..8u8 {
        let error = (1u8 << 7) >> i;

        let syndrome = check(error);

        println!("{} {}", syndrome, i);
        assert_eq!(correction(syndrome), Some(i));
    }
    assert_eq!(correction(0), None);
    assert_eq!(correction(0b1000_0000), None);
}

#[test]
fn bytes_travel_as_two_words() {
    let data = [0xA5u8, 0x00, 0xFF, 0x3C];
    let coded = code_bytes(&data);
    assert_eq!(coded.len(), 8);
    assert_eq!(coded[0], code(0xA0));
    assert_eq!(coded[1], code(0x50));
    assert_eq!(coded[6], code(0x30));
    assert_eq!(coded[7], code(0xC0));
    assert_eq!(decode_bytes(&coded), (data.to_vec(), 0));
}

#[test]
fn single_errors_in_a_block_are_corrected() {
    let data = [0x12u8, 0x34, 0x56];
    let mut coded = code_bytes(&data);
    coded[0] ^= 0b0000_0100;
    coded[3] ^= 0b1000_0000;
    coded[4] ^= 0b0000_0001;
    assert_eq!(decode_bytes(&coded), (data.to_vec(), 0));
}

#[test]
fn double_errors_in_a_block_are_counted() {
    let data = [0x12u8, 0x34, 0x56];
    let mut coded = code_bytes(&data);
    coded[1] ^= 0b0001_1000;
    coded[5] ^= 0b1000_0001;
    let (_, count) = decode_bytes(&coded);
    assert_eq!(count, 2);
    assert_eq!(decode_bytes(&[]), (vec![], 0));
}

#[test]
fn differing_halves_are_counted() {
    let a = [0x12u8, 0x34, 0x56];
    let b = [0x12u8, 0x35, 0x65];
    assert_eq!(count_differing_halves(&a, &b), (3, 6));
    assert_eq!(count_differing_halves(&a, &a), (0, 6));
    assert_eq!(count_differing_halves(&[], &[]), (0, 0));
}
