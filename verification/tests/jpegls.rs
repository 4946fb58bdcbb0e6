use codecs::jpegls::coder::{code_with_prediction, predict};
use codecs::jpegls::tga::{read_tga_to_bitmap, Bitmap, Channel};

fn tga_file(width: u16, height: u16, pixels: &[[u8; 3]]) -> Vec<u8> {
    let mut file = vec![0u8; 18];
    file[2] = 2;
    file[12] = (width & 0xFF) as u8;
    file[13] = (width >> 8) as u8;
    file[14] = (height & 0xFF) as u8;
    file[15] = (height >> 8) as u8;
    file[16] = 24;
    for pixel in pixels {
        file.extend_from_slice(pixel);
    }
    file
}

fn plane(width: isize, height: isize, data: &[u8]) -> Channel {
    Channel { width, height, data: data.to_vec() }
}

#[test]
fn test_read() {
    let pixels = [[10u8, 20, 30], [40, 50, 60], [70, 80, 90], [100, 110, 120]];
    let bytes = tga_file(2, 2, &pixels);

    let bitmap = read_tga_to_bitmap(&bytes);
    let width = bitmap.red.width;
    let height = bitmap.red.height;

    let mut img_red = image::RgbImage::new(width as u32, height as u32);
    let mut img_green = image::RgbImage::new(width as u32, height as u32);
    let mut img_blue = image::RgbImage::new(width as u32, height as u32);

    for y in 0..height {
        for x in 0..width {
            let red = bitmap.red.get(x, y);
            let green = bitmap.green.get(x, y);
            let blue = bitmap.blue.get(x, y);
            img_red.put_pixel(x as u32, y as u32, image::Rgb([red, 0, 0]));
            img_green.put_pixel(x as u32, y as u32, image::Rgb([0, green, 0]));
            img_blue.put_pixel(x as u32, y as u32, image::Rgb([0, 0, blue]));
        }
    }

    assert_eq!(img_red.get_pixel(0, 0), &image::Rgb([90, 0, 0]));
    assert_eq!(img_red.get_pixel(1, 1), &image::Rgb([60, 0, 0]));
    assert_eq!(img_green.get_pixel(1, 0), &image::Rgb([0, 110, 0]));
    assert_eq!(img_blue.get_pixel(0, 1), &image::Rgb([0, 0, 10]));
}

#[test]
fn test() {
    let x: u8 = 254;
    println!("{}", x as i16);
    assert_eq!(x as i16, 254);
}

#[test]
fn tga_rows_are_stored_bottom_up() {
    // Two columns, three rows; each pixel is blue, green, red.
    let pixels = [
        [1, 2, 3],
        [4, 5, 6],
        [7, 8, 9],
        [10, 11, 12],
        [13, 14, 15],
        [16, 17, 18],
    ];
    let bitmap = read_tga_to_bitmap(&tga_file(2, 3, &pixels));
    assert_eq!(bitmap.red.width, 2);
    assert_eq!(bitmap.red.height, 3);
    assert_eq!(bitmap.blue.data, vec![13, 16, 7, 10, 1, 4]);
    assert_eq!(bitmap.green.data, vec![14, 17, 8, 11, 2, 5]);
    assert_eq!(bitmap.red.data, vec![15, 18, 9, 12, 3, 6]);
    assert_eq!(bitmap.red.get(1, 0), 18);
    assert_eq!(bitmap.red.get(0, 2), 3);
    assert_eq!(bitmap.red.get(2, 0), 0);
    assert_eq!(bitmap.red.get(0, 3), 0);
    assert_eq!(bitmap.red.get(-1, 0), 0);
}

#[test]
fn tga_width_uses_both_header_bytes() {
    let pixels = vec![[9u8, 8, 7]; 300];
    let bitmap = read_tga_to_bitmap(&tga_file(300, 1, &pixels));
    assert_eq!(bitmap.green.width, 300);
    assert_eq!(bitmap.green.height, 1);
    assert_eq!(bitmap.green.data.len(), 300);
    assert_eq!(bitmap.blue.get(299, 0), 9);
}

#[test]
fn empty_image_has_empty_planes() {
    let bitmap = read_tga_to_bitmap(&tga_file(0, 0, &[]));
    assert!(bitmap.red.data.is_empty());
    assert!(bitmap.iter().is_empty());
}

#[test]
fn bitmap_iterates_red_green_blue() {
    let bitmap = Bitmap {
        red: plane(1, 2, &[1, 2]),
        green: plane(1, 2, &[3, 4]),
        blue: plane(1, 2, &[5, 6]),
    };
    assert_eq!(bitmap.iter(), vec![1, 2, 3, 4, 5, 6]);
    assert_eq!(bitmap.green.iter(), vec![3, 4]);
}

#[test]
fn new_channel_holds_no_values() {
    let channel = Channel::new(4, 5);
    assert_eq!(channel.width, 4);
    assert_eq!(channel.height, 5);
    assert!(channel.data.is_empty());
}

#[test]
fn predictors_follow_their_formulas() {
    // nw = 200, n = 100
    // w  = 250, x
    let channel = plane(2, 2, &[200, 100, 250, 0]);
    assert_eq!(predict(&channel, 1, 1, 0), 250);
    assert_eq!(predict(&channel, 1, 1, 1), 100);
    assert_eq!(predict(&channel, 1, 1, 2), 200);
    // 100 + 250 wraps to 94; 94 - 200 wraps to 150.
    assert_eq!(predict(&channel, 1, 1, 3), 150);
    // 100 + (250 - 200) / 2
    assert_eq!(predict(&channel, 1, 1, 4), 125);
    // 250 + ((100 - 200) wrapped = 156) / 2 = 250 + 78, wrapped
    assert_eq!(predict(&channel, 1, 1, 5), 72);
    // (100 + 250) wrapped = 94, halved
    assert_eq!(predict(&channel, 1, 1, 6), 47);
    // nw lies between n and w
    assert_eq!(predict(&channel, 1, 1, 7), 150);
}

#[test]
fn median_predictor_picks_an_edge() {
    let above = plane(2, 2, &[250, 100, 200, 0]);
    assert_eq!(predict(&above, 1, 1, 7), 100);
    let below = plane(2, 2, &[10, 100, 200, 0]);
    assert_eq!(predict(&below, 1, 1, 7), 200);
}

#[test]
fn neighbours_outside_the_plane_are_zero() {
    let channel = plane(2, 2, &[9, 8, 7, 6]);
    for id in 0..8 {
        assert_eq!(predict(&channel, 0, 0, id), 0);
    }
    assert_eq!(predict(&channel, 1, 0, 0), 9);
    assert_eq!(predict(&channel, 0, 1, 1), 9);
    assert_eq!(predict(&channel, 0, 1, 0), 0);
}

#[test]
fn residuals_are_values_less_predictions() {
    let channel = plane(3, 2, &[10, 20, 15, 12, 30, 5]);
    // West predictor.
    assert_eq!(code_with_prediction(&channel, 0), vec![10, 10, 251, 12, 18, 231]);
    // North predictor.
    assert_eq!(code_with_prediction(&channel, 1), vec![10, 20, 15, 2, 10, 246]);
}
