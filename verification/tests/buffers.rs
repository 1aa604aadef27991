use rustmatch::buffer::{downsample, GrayBuffer};
use rustmatch::error::ImageFault;
use rustmatch::integral::IntegralImage;

fn gradient(width: usize, height: usize) -> Vec<u8> {
    let mut pixels = Vec::with_capacity(width * height);
    for y in 0..height {
        for x in 0..width {
            pixels.push(((x * 3 + y * 5) % 256) as u8);
        }
    }
    pixels
}

#[test]
fn from_raw_keeps_shape_and_samples() {
    let img = GrayBuffer::from_raw(vec![1, 2, 3, 4, 5, 6], 3, 2).unwrap();
    assert_eq!(img.width(), 3);
    assert_eq!(img.height(), 2);
    assert_eq!(img.unit(), 1);
    assert_eq!(img.sample(0, 0), 1);
    assert_eq!(img.sample(2, 0), 3);
    assert_eq!(img.sample(0, 1), 4);
    assert_eq!(img.sample(2, 1), 6);
}

#[test]
fn from_raw_refuses_wrong_pixel_count() {
    match GrayBuffer::from_raw(vec![0; 5], 3, 2) {
        Err(ImageFault::PixelCount { width, height, pixels }) => {
            assert_eq!((width, height, pixels), (3, 2, 5));
        }
        other => panic!("unexpected: {:?}", other),
    }
}

#[test]
fn from_raw_takes_empty_images_of_any_side() {
    let wide = GrayBuffer::from_raw(Vec::new(), usize::MAX, 0).unwrap();
    assert_eq!((wide.width(), wide.height(), wide.unit()), (usize::MAX, 0, 1));
    let none = GrayBuffer::from_raw(Vec::new(), 0, 0).unwrap();
    assert_eq!((none.width(), none.height()), (0, 0));
}

#[test]
fn downsample_by_a_large_scale() {
    let pixels = gradient(40, 33);
    let total: u64 = pixels.iter().take(32 * 40).enumerate()
        .filter(|(i, _)| i % 40 < 32).map(|(_, &v)| v as u64).sum();
    let img = GrayBuffer::from_raw(pixels, 40, 33).unwrap();
    let one = downsample(&img, 32);
    assert_eq!((one.width(), one.height(), one.unit()), (1, 1, 1024));
    assert_eq!(one.sample(0, 0), total);
    let gone = downsample(&img, 34);
    assert_eq!((gone.width(), gone.height(), gone.unit()), (1, 0, 1));
    let far = downsample(&img, usize::MAX);
    assert_eq!((far.width(), far.height(), far.unit()), (0, 0, 1));
}

#[test]
fn integral_of_whole_image_is_pixel_total() {
    let pixels = gradient(7, 5);
    let total: u64 = pixels.iter().map(|&v| v as u64).sum();
    let squares: u128 = pixels.iter().map(|&v| (v as u128) * (v as u128)).sum();
    let img = GrayBuffer::from_raw(pixels, 7, 5).unwrap();
    let table = IntegralImage::new(&img);
    assert_eq!(table.get_stats(0, 0, 7, 5), (total, squares));
}

#[test]
fn integral_window_matches_direct_sum() {
    let pixels = gradient(9, 6);
    let img = GrayBuffer::from_raw(pixels.clone(), 9, 6).unwrap();
    let table = IntegralImage::new(&img);
    let mut sum = 0u64;
    let mut sq = 0u128;
    for y in 2..5 {
        for x in 3..7 {
            let v = pixels[y * 9 + x] as u64;
            sum += v;
            sq += (v * v) as u128;
        }
    }
    assert_eq!(table.get_stats(3, 2, 4, 3), (sum, sq));
    assert_eq!(table.get_stats(4, 4, 0, 0), (0, 0));
}

#[test]
fn downsample_by_one_is_identity() {
    let pixels = gradient(6, 4);
    let img = GrayBuffer::from_raw(pixels.clone(), 6, 4).unwrap();
    let same = downsample(&img, 1);
    assert_eq!(same.width(), 6);
    assert_eq!(same.height(), 4);
    assert_eq!(same.unit(), 1);
    for y in 0..4 {
        for x in 0..6 {
            assert_eq!(same.sample(x, y), pixels[y * 6 + x] as u64);
        }
    }
}

#[test]
fn downsample_keeps_block_sums_and_drops_the_rest() {
    // 5 x 3, scale 2: two whole blocks in the one whole block row.
    let pixels = vec![
        10, 20, 30, 40, 99, //
        50, 60, 70, 80, 99, //
        99, 99, 99, 99, 99,
    ];
    let img = GrayBuffer::from_raw(pixels, 5, 3).unwrap();
    let small = downsample(&img, 2);
    assert_eq!((small.width(), small.height(), small.unit()), (2, 1, 4));
    assert_eq!(small.sample(0, 0), 10 + 20 + 50 + 60);
    assert_eq!(small.sample(1, 0), 30 + 40 + 70 + 80);
}

#[test]
fn integral_of_an_image_without_pixels() {
    let wide = GrayBuffer::from_raw(Vec::new(), usize::MAX, 0).unwrap();
    let table = IntegralImage::new(&wide);
    assert_eq!(table.get_stats(5, 0, 7, 0), (0, 0));
    assert_eq!(table.get_stats(0, 0, usize::MAX, 0), (0, 0));
    let flat = GrayBuffer::from_raw(Vec::new(), 5, 0).unwrap();
    assert_eq!(IntegralImage::new(&flat).get_stats(1, 0, 4, 0), (0, 0));
    let none = GrayBuffer::from_raw(Vec::new(), 0, 0).unwrap();
    assert_eq!(IntegralImage::new(&none).get_stats(0, 0, 0, 0), (0, 0));
}

#[test]
fn integral_of_an_empty_window_is_zero() {
    let img = GrayBuffer::from_raw(gradient(4, 3), 4, 3).unwrap();
    let table = IntegralImage::new(&img);
    assert_eq!(table.get_stats(4, 3, 0, 0), (0, 0));
    assert_eq!(table.get_stats(2, 1, 0, 2), (0, 0));
    assert_eq!(table.get_stats(0, 3, 4, 0), (0, 0));
}
