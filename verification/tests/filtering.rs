use codecs::filtering::coder::{
    differences, first_level, next_level, split_bands, step_to, CodedChannel, CodedImage,
};
use codecs::jpegls::tga::Channel;
use codecs::filtering::decoder::{decode, decode_channel};

fn channel(width: u32, height: u32, y_diff: &[i16], z: &[i16]) -> CodedChannel {
    CodedChannel { width, height, y_diff: y_diff.to_vec(), z: z.to_vec() }
}

#[test]
fn pairs_are_average_less_and_plus_the_half_difference() {
    // Averages 100, 110, 90; half-differences 5, -10, 0.
    let decoded = decode_channel(channel(3, 2, &[100, 10, -20], &[5, -10, 0]));
    assert_eq!(decoded.width, 3);
    assert_eq!(decoded.height, 2);
    assert_eq!(decoded.data, vec![95, 105, 120, 100, 90, 90]);
}

#[test]
fn averages_and_pixels_stay_within_the_range_of_a_byte() {
    // 250 + 100 stops at 255; then 255 - 300 stops at 0.
    let decoded = decode_channel(channel(6, 1, &[250, 100, -300], &[10, -10, 7]));
    assert_eq!(decoded.data, vec![240, 255, 255, 245, 0, 7]);
    // A first value out of range is brought into it.
    let low = decode_channel(channel(2, 1, &[-5], &[0]));
    assert_eq!(low.data, vec![0, 0]);
    let high = decode_channel(channel(2, 1, &[700], &[0]));
    assert_eq!(high.data, vec![255, 255]);
}

#[test]
fn an_odd_number_of_pixels_leaves_the_last_pair_half_used() {
    let decoded = decode_channel(channel(3, 1, &[50, 10], &[1, 2]));
    assert_eq!(decoded.data, vec![49, 51, 58]);
}

#[test]
fn large_steps_do_not_overflow() {
    let decoded = decode_channel(channel(4, 1, &[255, i16::MAX], &[i16::MIN, i16::MAX]));
    assert_eq!(decoded.data, vec![255, 0, 0, 255]);
}

#[test]
fn the_three_planes_are_decoded_alike() {
    let image = CodedImage {
        red: channel(2, 1, &[10], &[1]),
        green: channel(2, 1, &[20], &[2]),
        blue: channel(2, 1, &[30], &[3]),
    };
    let bitmap = decode(image);
    assert_eq!(bitmap.red.data, vec![9, 11]);
    assert_eq!(bitmap.green.data, vec![18, 22]);
    assert_eq!(bitmap.blue.data, vec![27, 33]);
    assert_eq!(bitmap.blue.get(1, 0), 33);
}

#[test]
fn bands_are_averages_and_half_differences() {
    let plane = Channel { width: 5, height: 1, data: vec![10, 20, 31, 30, 7] };
    let (y, z) = split_bands(&plane);
    // The last pixel is paired with zero.
    assert_eq!(y, vec![15, 30, 3]);
    assert_eq!(z, vec![5, 0, -3]);
    let empty = Channel { width: 0, height: 4, data: vec![] };
    assert_eq!(split_bands(&empty), (vec![], vec![]));
}

#[test]
fn half_differences_round_towards_zero() {
    let plane = Channel { width: 2, height: 2, data: vec![1, 4, 4, 1] };
    let (y, z) = split_bands(&plane);
    assert_eq!(y, vec![2, 2]);
    assert_eq!(z, vec![1, -1]);
}

#[test]
fn steps_are_differences_of_neighbours() {
    assert_eq!(differences(&vec![15, 30, 3, 3]), vec![15, 15, -27, 0]);
    assert_eq!(differences(&vec![]), Vec::<i16>::new());
}

#[test]
fn levels_follow_the_decoder() {
    assert_eq!(first_level(-3), 0);
    assert_eq!(first_level(300), 255);
    assert_eq!(first_level(42), 42);
    assert_eq!(step_to(200, 50), 150);
    assert_eq!(step_to(0, 255), -255);
    assert_eq!(next_level(250, 10), 255);
    assert_eq!(next_level(5, -10), 0);
    assert_eq!(next_level(100, 27), 127);
    assert_eq!(next_level(255, i16::MAX), 255);
    assert_eq!(next_level(0, i16::MIN), 0);
}

#[test]
fn exact_steps_bring_the_averages_back() {
    // With a quantizer that changes nothing, the decoder reaches every
    // average, and the pixels differ from the plane by rounding alone.
    let plane = Channel { width: 4, height: 2, data: vec![10, 20, 200, 100, 0, 255, 7, 7] };
    let (y, z) = split_bands(&plane);
    let mut steps = vec![first_level(y[0])];
    let mut level = steps[0];
    for i in 1..y.len() {
        let step = step_to(y[i], level);
        steps.push(step);
        level = next_level(level, step);
        assert_eq!(level, y[i]);
    }
    let decoded = decode_channel(CodedChannel { width: 4, height: 2, y_diff: steps, z });
    assert_eq!(decoded.data, vec![10, 20, 200, 100, 0, 254, 7, 7]);
}
