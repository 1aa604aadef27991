use rustmatch::buffer::GrayBuffer;
use rustmatch::multi::match_multi;
use rustmatch::pyramid::{choose_scale, pyramid_match};
use rustmatch::score::{Score, Threshold};
use rustmatch::search::{search_best, search_region, MatchResult};
use rustmatch::template::Template;
use rustmatch::wide::Wide;

fn value(score: &Score) -> f64 {
    let den = score.den_sq.hi as f64 * 2f64.powi(128) + score.den_sq.lo as f64;
    score.num as f64 / den.sqrt()
}

fn is_one(score: &Score) -> bool {
    score.num > 0
        && score.den_sq == Wide::product(score.num.unsigned_abs(), score.num.unsigned_abs())
}

fn buffer_of(pixels: Vec<u8>, width: usize, height: usize) -> GrayBuffer {
    GrayBuffer::from_raw(pixels, width, height).unwrap()
}

fn patch(w: usize, h: usize) -> Vec<u8> {
    let mut p = Vec::new();
    for y in 0..h {
        for x in 0..w {
            p.push((5 * x + 7 * y) as u8);
        }
    }
    p
}

fn paste(canvas: &mut Vec<u8>, cw: usize, p: &[u8], pw: usize, ph: usize, x0: usize, y0: usize) {
    for y in 0..ph {
        for x in 0..pw {
            canvas[(y0 + y) * cw + x0 + x] = p[y * pw + x];
        }
    }
}

fn noise(n: usize, mut seed: u32) -> Vec<u8> {
    let mut v = Vec::with_capacity(n);
    for _ in 0..n {
        seed = seed.wrapping_mul(1664525).wrapping_add(1013904223);
        v.push((seed >> 24) as u8);
    }
    v
}

fn t(billionths: i32) -> Threshold {
    Threshold::from_billionths(billionths)
}

#[test]
fn exact_self_match() {
    let mut pixels = Vec::new();
    for y in 0..32usize {
        for x in 0..32usize {
            pixels.push(((x + y) % 256) as u8);
        }
    }
    let src = buffer_of(pixels.clone(), 32, 32);
    let tpl = buffer_of(pixels, 32, 32);
    let m = pyramid_match(&src, &tpl, t(500_000_000)).expect("a match");
    assert_eq!((m.x, m.y), (0, 0));
    assert!(value(&m.confidence) >= 0.999);
    assert!(is_one(&m.confidence));
}

#[test]
fn embedded_template() {
    let mut canvas = vec![50u8; 100 * 100];
    let p = patch(10, 10);
    paste(&mut canvas, 100, &p, 10, 10, 40, 30);
    let src = buffer_of(canvas, 100, 100);
    let tpl = buffer_of(p, 10, 10);
    let m = pyramid_match(&src, &tpl, t(800_000_000)).expect("a match");
    assert_eq!((m.x, m.y), (40, 30));
    assert!(value(&m.confidence) >= 0.99);
}

#[test]
fn multiple_occurrences() {
    let mut canvas = vec![50u8; 200 * 200];
    let p = patch(10, 10);
    for &(x, y) in &[(10usize, 10usize), (60, 60), (120, 140)] {
        paste(&mut canvas, 200, &p, 10, 10, x, y);
    }
    let src = buffer_of(canvas, 200, 200);
    let tpl = buffer_of(p, 10, 10);
    let found = match_multi(&src, &tpl, t(900_000_000), 5);
    assert_eq!(found.len(), 3);
    let mut spots: Vec<(u32, u32)> = found.iter().map(|m| (m.x, m.y)).collect();
    spots.sort();
    assert_eq!(spots, vec![(10, 10), (60, 60), (120, 140)]);
    for pair in found.windows(2) {
        assert!(pair[0].confidence.ge(&pair[1].confidence));
    }
    for a in 0..found.len() {
        for b in (a + 1)..found.len() {
            let dx = found[a].x.abs_diff(found[b].x);
            let dy = found[a].y.abs_diff(found[b].y);
            assert!(dx >= 5 || dy >= 5);
        }
    }
}

#[test]
fn refinement_finds_matches_off_the_grid() {
    let mut canvas = vec![50u8; 120 * 90];
    let p = patch(10, 10);
    for &(x, y) in &[(61usize, 40usize), (20, 70)] {
        paste(&mut canvas, 120, &p, 10, 10, x, y);
    }
    let src = buffer_of(canvas, 120, 90);
    let tpl = buffer_of(p, 10, 10);
    let found = match_multi(&src, &tpl, t(990_000_000), 10);
    let mut spots: Vec<(u32, u32)> = found.iter().map(|m| (m.x, m.y)).collect();
    spots.sort();
    assert_eq!(spots, vec![(20, 70), (61, 40)]);
}

#[test]
fn max_count_limits_the_matches() {
    let mut canvas = vec![50u8; 200 * 200];
    let p = patch(10, 10);
    for &(x, y) in &[(10usize, 10usize), (60, 60), (120, 140)] {
        paste(&mut canvas, 200, &p, 10, 10, x, y);
    }
    let src = buffer_of(canvas, 200, 200);
    let tpl = buffer_of(p, 10, 10);
    assert_eq!(match_multi(&src, &tpl, t(900_000_000), 2).len(), 2);
    assert_eq!(match_multi(&src, &tpl, t(900_000_000), 1).len(), 1);
    assert_eq!(match_multi(&src, &tpl, t(900_000_000), 0).len(), 0);
}

#[test]
fn no_match_for_constant_template() {
    let src = buffer_of(noise(64 * 64, 7), 64, 64);
    let tpl = buffer_of(vec![128u8; 64], 8, 8);
    assert!(pyramid_match(&src, &tpl, t(800_000_000)).is_none());
    assert!(match_multi(&src, &tpl, t(800_000_000), 10).is_empty());
}

#[test]
fn template_larger_than_source() {
    let src = buffer_of(noise(16 * 16, 1), 16, 16);
    let tpl = buffer_of(noise(32 * 32, 2), 32, 32);
    assert!(pyramid_match(&src, &tpl, t(800_000_000)).is_none());
    assert!(match_multi(&src, &tpl, t(800_000_000), 10).is_empty());
    let wide = buffer_of(noise(17 * 4, 3), 17, 4);
    assert!(pyramid_match(&src, &wide, t(0)).is_none());
    assert!(match_multi(&src, &wide, t(0), 10).is_empty());
}

#[test]
fn empty_template_is_not_found() {
    let src = buffer_of(noise(16 * 16, 1), 16, 16);
    let tpl = buffer_of(Vec::new(), 0, 0);
    assert!(pyramid_match(&src, &tpl, t(-2_000_000_000)).is_none());
    assert!(match_multi(&src, &tpl, t(-2_000_000_000), 10).is_empty());
}

#[test]
fn threshold_above_one_finds_nothing() {
    let pixels = noise(40 * 40, 11);
    let src = buffer_of(pixels.clone(), 40, 40);
    let tpl = buffer_of(pixels, 40, 40);
    assert!(pyramid_match(&src, &tpl, t(1_000_000_001)).is_none());
    assert!(pyramid_match(&src, &tpl, t(1_000_000_000)).is_some());
    assert!(match_multi(&src, &tpl, t(1_000_000_001), 10).is_empty());
}

#[test]
fn pyramid_agrees_with_full_search() {
    let mut canvas = noise(200 * 160, 99);
    let p = noise(64 * 64, 5);
    paste(&mut canvas, 200, &p, 64, 64, 83, 51);
    let src = buffer_of(canvas, 200, 160);
    let tpl = buffer_of(p, 64, 64);
    let coarse_to_fine = pyramid_match(&src, &tpl, t(500_000_000)).expect("a match");
    let profile = Template::new(&tpl);
    let full = search_best(&src, &profile, &t(500_000_000).score()).expect("a match");
    assert_eq!((coarse_to_fine.x, coarse_to_fine.y), (83, 51));
    assert_eq!(coarse_to_fine, full);
    assert!((value(&coarse_to_fine.confidence) - 1.0).abs() < 1e-6);
}

#[test]
fn scales_follow_the_shorter_side() {
    assert_eq!(choose_scale(0, 0), 1);
    assert_eq!(choose_scale(31, 500), 1);
    assert_eq!(choose_scale(32, 500), 2);
    assert_eq!(choose_scale(47, 47), 2);
    assert_eq!(choose_scale(48, 64), 4);
    assert_eq!(choose_scale(79, 200), 4);
    assert_eq!(choose_scale(80, 80), 8);
    assert_eq!(choose_scale(4000, 3000), 8);
}

#[test]
fn reported_score_is_the_direct_correlation() {
    let mut canvas = noise(30 * 20, 3);
    let p = noise(6 * 5, 17);
    paste(&mut canvas, 30, &p, 6, 5, 9, 4);
    // disturb one pixel of the pasted patch, so that the best score is below 1
    canvas[5 * 30 + 10] = canvas[5 * 30 + 10].wrapping_add(40);
    let src = buffer_of(canvas.clone(), 30, 20);
    let tpl = buffer_of(p.clone(), 6, 5);
    let profile = Template::new(&tpl);
    let m = search_best(&src, &profile, &t(0).score()).expect("a match");
    let n = 30.0;
    let mut s = 0.0;
    let mut q = 0.0;
    let mut tt = 0.0;
    let mut r = 0.0;
    let mut c = 0.0;
    for y in 0..5usize {
        for x in 0..6usize {
            let a = canvas[(m.y as usize + y) * 30 + m.x as usize + x] as f64;
            let b = p[y * 6 + x] as f64;
            s += a;
            q += a * a;
            tt += b;
            r += b * b;
            c += a * b;
        }
    }
    let direct = (n * c - s * tt) / ((n * q - s * s) * (n * r - tt * tt)).sqrt();
    assert!((direct - value(&m.confidence)).abs() < 1e-6);
    assert_eq!((m.x, m.y), (9, 4));
    assert!(value(&m.confidence) < 1.0);
}

#[test]
fn flat_window_scores_zero() {
    let src = buffer_of(vec![50u8; 12 * 12], 12, 12);
    let tpl = buffer_of(patch(4, 4), 4, 4);
    let profile = Template::new(&tpl);
    let m = search_best(&src, &profile, &t(0).score()).expect("score 0 reaches threshold 0");
    assert_eq!(m, MatchResult { x: 0, y: 0, confidence: Score::from_parts(0, 1) });
    assert!(search_best(&src, &profile, &t(1).score()).is_none());
}

#[test]
fn first_best_wins_ties() {
    // the same patch twice in one row and once in a later row
    let mut canvas = vec![50u8; 40 * 30];
    let p = patch(5, 5);
    paste(&mut canvas, 40, &p, 5, 5, 20, 8);
    paste(&mut canvas, 40, &p, 5, 5, 6, 8);
    paste(&mut canvas, 40, &p, 5, 5, 2, 20);
    let src = buffer_of(canvas, 40, 30);
    let tpl = buffer_of(p, 5, 5);
    let profile = Template::new(&tpl);
    let m = search_best(&src, &profile, &t(900_000_000).score()).unwrap();
    assert_eq!((m.x, m.y), (6, 8));
}

#[test]
fn region_search_is_bounded_by_its_rectangle() {
    let mut canvas = vec![50u8; 40 * 30];
    let p = patch(5, 5);
    paste(&mut canvas, 40, &p, 5, 5, 6, 8);
    paste(&mut canvas, 40, &p, 5, 5, 22, 20);
    let src = buffer_of(canvas, 40, 30);
    let tpl = buffer_of(p, 5, 5);
    let profile = Template::new(&tpl);
    let bar = t(900_000_000).score();
    let m = search_region(&src, &profile, 15, 10, 35, 25, &bar).unwrap();
    assert_eq!((m.x, m.y), (22, 20));
    assert!(search_region(&src, &profile, 10, 10, 20, 19, &bar).is_none());
    assert!(search_region(&src, &profile, 7, 8, 6, 8, &bar).is_none());
    let one = search_region(&src, &profile, 6, 8, 6, 8, &bar).unwrap();
    assert_eq!((one.x, one.y), (6, 8));
}

#[test]
fn match_result_projections() {
    let m = MatchResult { x: 3, y: 4, confidence: Score::from_parts(1, 4) };
    assert_eq!(m.to_tuple(), (3, 4, Score::from_parts(1, 4)));
    assert_eq!(m.bbox(10, 20), (3, 4, 10, 20));
}

#[test]
fn self_match_without_contrast_is_not_found() {
    // two luminances one step apart: the variance is a quarter
    let src = buffer_of(vec![0, 1], 2, 1);
    let tpl = buffer_of(vec![0, 1], 2, 1);
    assert!(pyramid_match(&src, &tpl, t(800_000_000)).is_none());
    let m = pyramid_match(&src, &tpl, t(0)).expect("score 0 reaches threshold 0");
    assert_eq!(m, MatchResult { x: 0, y: 0, confidence: Score::from_parts(0, 1) });
}

#[test]
fn self_match_is_lost_where_decimation_flattens() {
    let mut pixels = Vec::new();
    for y in 0..64usize {
        for x in 0..64usize {
            pixels.push(if (x + y) % 2 == 0 { 0u8 } else { 255u8 });
        }
    }
    let src = buffer_of(pixels.clone(), 64, 64);
    let tpl = buffer_of(pixels, 64, 64);
    // every block of 4 by 4 pixels has the same mean
    assert!(pyramid_match(&src, &tpl, t(800_000_000)).is_none());
    let m = pyramid_match(&src, &tpl, t(0)).expect("the coarse score 0 reaches threshold 0");
    assert_eq!((m.x, m.y), (0, 0));
    assert!(is_one(&m.confidence));
}

#[test]
fn single_pixel_template_is_reported_block_by_block() {
    let src = buffer_of(noise(16, 4), 4, 4);
    let tpl = buffer_of(vec![9], 1, 1);
    let found = match_multi(&src, &tpl, t(0), 10);
    let spots: Vec<(u32, u32)> = found.iter().map(|m| (m.x, m.y)).collect();
    assert_eq!(spots, vec![(0, 0), (2, 0), (0, 2), (2, 2)]);
    assert!(match_multi(&src, &tpl, t(1), 10).is_empty());
}

#[test]
fn coarse_match_is_refined_near_the_border() {
    let mut canvas = noise(150 * 130, 21);
    let p = noise(80 * 80, 8);
    paste(&mut canvas, 150, &p, 80, 80, 64, 48);
    let src = buffer_of(canvas, 150, 130);
    let tpl = buffer_of(p, 80, 80);
    assert_eq!(choose_scale(80, 80), 8);
    // the refinement rectangle is cut at the last alignments, (70, 50)
    let m = pyramid_match(&src, &tpl, t(900_000_000)).expect("a match");
    assert_eq!((m.x, m.y), (64, 48));
}
