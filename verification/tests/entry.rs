use rustmatch::decode::{from_dynamic, get_image_size_bytes, load_image_from_bytes};
use rustmatch::error::{ImageFault, MatchError};
use rustmatch::find::{
    find_all_templates_bytes, find_all_templates_in, find_all_templates_raw, find_template_bytes,
    find_template_in, find_template_raw, worker_count,
};
use rustmatch::score::Threshold;
use std::io::Cursor;

fn gradient_patch(w: usize, h: usize) -> Vec<u8> {
    let mut p = Vec::new();
    for y in 0..h {
        for x in 0..w {
            p.push((5 * x + 7 * y) as u8);
        }
    }
    p
}

fn scene() -> (Vec<u8>, Vec<u8>) {
    let mut canvas = vec![50u8; 100 * 100];
    let p = gradient_patch(10, 10);
    for y in 0..10 {
        for x in 0..10 {
            canvas[(30 + y) * 100 + 40 + x] = p[y * 10 + x];
        }
    }
    (canvas, p)
}

fn png_gray(pixels: Vec<u8>, w: u32, h: u32) -> Vec<u8> {
    let img = image::GrayImage::from_raw(w, h, pixels).unwrap();
    let mut bytes = Vec::new();
    image::DynamicImage::ImageLuma8(img)
        .write_to(&mut Cursor::new(&mut bytes), image::ImageOutputFormat::Png)
        .unwrap();
    bytes
}

fn png_rgb_of_gray(pixels: &[u8], w: u32, h: u32) -> Vec<u8> {
    let mut rgb = Vec::new();
    for &v in pixels {
        rgb.push(v);
        rgb.push(v);
        rgb.push(v);
    }
    let img = image::RgbImage::from_raw(w, h, rgb).unwrap();
    let mut bytes = Vec::new();
    image::DynamicImage::ImageRgb8(img)
        .write_to(&mut Cursor::new(&mut bytes), image::ImageOutputFormat::Png)
        .unwrap();
    bytes
}

fn t(billionths: i32) -> Threshold {
    Threshold::from_billionths(billionths)
}

#[test]
fn raw_entry_finds_embedded_template() {
    let (canvas, p) = scene();
    let m = find_template_raw(canvas, 100, 100, p, 10, 10, Threshold::default())
        .unwrap()
        .expect("a match");
    assert_eq!((m.x, m.y), (40, 30));
    assert_eq!(
        m.confidence.den_sq,
        rustmatch::wide::Wide::product(m.confidence.num as u128, m.confidence.num as u128)
    );
}

#[test]
fn raw_entry_refuses_source_shape() {
    let (canvas, p) = scene();
    match find_template_raw(canvas, 100, 99, p, 10, 10, t(800_000_000)) {
        Err(MatchError::Source(ImageFault::PixelCount { width, height, pixels })) => {
            assert_eq!((width, height, pixels), (100, 99, 10_000));
        }
        other => panic!("unexpected: {:?}", other),
    }
}

#[test]
fn raw_entry_refuses_template_shape() {
    let (canvas, p) = scene();
    match find_all_templates_raw(canvas, 100, 100, p, 10, 11, t(800_000_000), 10) {
        Err(MatchError::Template(ImageFault::PixelCount { width, height, pixels })) => {
            assert_eq!((width, height, pixels), (10, 11, 100));
        }
        other => panic!("unexpected: {:?}", other),
    }
}

#[test]
fn source_fault_comes_before_template_fault() {
    match find_template_raw(vec![0; 3], 2, 2, vec![0; 3], 2, 2, t(800_000_000)) {
        Err(MatchError::Source(ImageFault::PixelCount { .. })) => {}
        other => panic!("unexpected: {:?}", other),
    }
}

#[test]
fn empty_images_of_any_side_are_searched() {
    let found =
        find_all_templates_raw(Vec::new(), 0, usize::MAX, Vec::new(), 0, 0, t(0), 1).unwrap();
    assert!(found.is_empty());
    let single = find_template_raw(Vec::new(), usize::MAX, 0, Vec::new(), 0, 7, t(0)).unwrap();
    assert!(single.is_none());
}

#[test]
fn template_above_sixteen_million_pixels_is_searched() {
    let n = 4200usize;
    let src = rustmatch::buffer::GrayBuffer::from_raw(vec![0u8; n * n], n, n);
    let tpl = rustmatch::buffer::GrayBuffer::from_raw(vec![0u8; n * n], n, n);
    // both without contrast: the one alignment scores 0
    assert!(find_template_in(src, tpl, t(800_000_000)).unwrap().is_none());
}

#[test]
fn raw_entry_finds_all() {
    let (canvas, p) = scene();
    let all = find_all_templates_raw(canvas, 100, 100, p, 10, 10, t(900_000_000), 10).unwrap();
    assert_eq!(all.len(), 1);
    assert_eq!((all[0].x, all[0].y), (40, 30));
}

#[test]
fn loaded_entry_passes_faults_on() {
    let fault = ImageFault::Undecodable { message: String::from("broken") };
    let tpl = rustmatch::buffer::GrayBuffer::from_raw(vec![1, 2, 3, 4], 2, 2);
    match find_all_templates_in(Err(fault), tpl, t(0), 3) {
        Err(MatchError::Source(ImageFault::Undecodable { message })) => {
            assert_eq!(message, "broken");
        }
        other => panic!("unexpected: {:?}", other),
    }
}

#[test]
fn decoding_keeps_pixels_and_shape() {
    let pixels: Vec<u8> = (0..35u32).map(|v| (v * 7 % 256) as u8).collect();
    let img = load_image_from_bytes(&png_gray(pixels.clone(), 7, 5)).unwrap();
    assert_eq!((img.width(), img.height(), img.unit()), (7, 5, 1));
    for y in 0..5 {
        for x in 0..7 {
            assert_eq!(img.sample(x, y), pixels[y * 7 + x] as u64);
        }
    }
}

#[test]
fn decoding_turns_colour_into_luminance() {
    let pixels: Vec<u8> = (0..24u32).map(|v| (v * 10) as u8).collect();
    let img = load_image_from_bytes(&png_rgb_of_gray(&pixels, 6, 4)).unwrap();
    assert_eq!((img.width(), img.height()), (6, 4));
    for y in 0..4 {
        for x in 0..6 {
            assert_eq!(img.sample(x, y), pixels[y * 6 + x] as u64);
        }
    }
}

#[test]
fn undecodable_bytes_are_refused() {
    match load_image_from_bytes(b"certainly not an image") {
        Err(ImageFault::Undecodable { message }) => assert!(!message.is_empty()),
        other => panic!("unexpected: {:?}", other),
    }
    match get_image_size_bytes(&[]) {
        Err(ImageFault::Undecodable { .. }) => {}
        other => panic!("unexpected: {:?}", other),
    }
}

#[test]
fn size_of_encoded_image() {
    let bytes = png_gray(vec![9u8; 12 * 5], 12, 5);
    assert_eq!(get_image_size_bytes(&bytes).unwrap(), (12, 5));
}

#[test]
fn bytes_entry_finds_embedded_template() {
    let (canvas, p) = scene();
    let src = png_gray(canvas, 100, 100);
    let tpl = png_gray(p, 10, 10);
    let m = find_template_bytes(&src, &tpl, t(800_000_000)).unwrap().expect("a match");
    assert_eq!((m.x, m.y), (40, 30));
    let all = find_all_templates_bytes(&src, &tpl, t(900_000_000), 10).unwrap();
    assert_eq!(all.len(), 1);
    assert_eq!((all[0].x, all[0].y), (40, 30));
}

#[test]
fn bytes_entry_names_the_broken_image() {
    let (canvas, _) = scene();
    let src = png_gray(canvas, 100, 100);
    match find_template_bytes(&src, b"junk", t(800_000_000)) {
        Err(MatchError::Template(ImageFault::Undecodable { .. })) => {}
        other => panic!("unexpected: {:?}", other),
    }
    match find_all_templates_bytes(b"junk", &src, t(800_000_000), 10) {
        Err(MatchError::Source(ImageFault::Undecodable { .. })) => {}
        other => panic!("unexpected: {:?}", other),
    }
}

#[test]
fn worker_count_defaults_to_processors() {
    assert_eq!(worker_count(0, 8), 8);
    assert_eq!(worker_count(3, 8), 3);
    assert_eq!(worker_count(0, 0), 0);
}

#[test]
fn default_threshold_is_four_fifths() {
    assert_eq!(Threshold::default(), Threshold::from_billionths(800_000_000));
    assert_eq!(rustmatch::multi::DEFAULT_MAX_COUNT, 10);
}

#[test]
fn images_of_fractional_samples_are_refused() {
    let img = image::DynamicImage::ImageRgb32F(
        image::Rgb32FImage::from_raw(2, 2, vec![0.5f32; 12]).unwrap(),
    );
    match from_dynamic(&img) {
        Err(ImageFault::FractionalSamples) => {}
        other => panic!("unexpected: {:?}", other),
    }
    let with_alpha = image::DynamicImage::ImageRgba32F(
        image::Rgba32FImage::from_raw(1, 1, vec![f32::NAN; 4]).unwrap(),
    );
    match from_dynamic(&with_alpha) {
        Err(ImageFault::FractionalSamples) => {}
        other => panic!("unexpected: {:?}", other),
    }
}

#[test]
fn encoded_images_of_fractional_samples_are_refused() {
    let img = image::DynamicImage::ImageRgb32F(
        image::Rgb32FImage::from_raw(4, 3, vec![0.25f32; 36]).unwrap(),
    );
    let mut bytes = Vec::new();
    img.write_to(&mut Cursor::new(&mut bytes), image::ImageOutputFormat::OpenExr).unwrap();
    match load_image_from_bytes(&bytes) {
        Err(ImageFault::FractionalSamples) => {}
        other => panic!("unexpected: {:?}", other),
    }
    assert_eq!(get_image_size_bytes(&bytes).unwrap(), (4, 3));
    let (canvas, _) = scene();
    match find_template_bytes(&png_gray(canvas, 100, 100), &bytes, t(800_000_000)) {
        Err(MatchError::Template(ImageFault::FractionalSamples)) => {}
        other => panic!("unexpected: {:?}", other),
    }
}

#[test]
fn images_of_sixteen_bit_samples_are_converted() {
    let img = image::DynamicImage::ImageLuma16(
        image::ImageBuffer::from_raw(3, 2, vec![0u16, 257, 514, 65535, 32896, 771]).unwrap(),
    );
    let buffer = from_dynamic(&img).unwrap();
    assert_eq!((buffer.width(), buffer.height(), buffer.unit()), (3, 2, 1));
    assert_eq!(buffer.sample(0, 0), 0);
    assert_eq!(buffer.sample(0, 1), 255);
    let colour = image::DynamicImage::ImageRgba8(
        image::RgbaImage::from_raw(1, 2, vec![9, 9, 9, 255, 200, 200, 200, 0]).unwrap(),
    );
    let grey = from_dynamic(&colour).unwrap();
    assert_eq!((grey.sample(0, 0), grey.sample(0, 1)), (9, 200));
}
