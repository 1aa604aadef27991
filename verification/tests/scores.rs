use rustmatch::buffer::GrayBuffer;
use rustmatch::integral::IntegralImage;
use rustmatch::ncc::compute_ncc;
use rustmatch::rank::{sort_by_confidence, suppress_ranked};
use rustmatch::score::{Score, Threshold};
use rustmatch::search::MatchResult;
use rustmatch::template::Template;
use rustmatch::wide::{Quad, Wide};

fn s(num: i128, den_sq: u128) -> Score {
    Score::from_parts(num, den_sq)
}

fn is_unit_square(score: &Score) -> bool {
    score.den_sq == Wide::product(score.num.unsigned_abs(), score.num.unsigned_abs())
}

fn at(x: u32, y: u32, num: i128, den_sq: u128) -> MatchResult {
    MatchResult { x, y, confidence: s(num, den_sq) }
}

#[test]
fn wide_product_of_small_numbers() {
    let p = Wide::product(6, 7);
    assert_eq!((p.hi, p.lo), (0, 42));
    let q = Wide::product(0, u128::MAX);
    assert_eq!((q.hi, q.lo), (0, 0));
}

#[test]
fn wide_product_carries_into_the_high_half() {
    let p = Wide::product(u128::MAX, u128::MAX);
    assert_eq!((p.hi, p.lo), (u128::MAX - 1, 1));
    let q = Wide::product(1u128 << 64, 1u128 << 64);
    assert_eq!((q.hi, q.lo), (1, 0));
    let r = Wide::product((1u128 << 64) + 3, (1u128 << 64) + 5);
    assert_eq!((r.hi, r.lo), (1, (8u128 << 64) + 15));
    let t = Wide::product(u128::MAX, 2);
    assert_eq!((t.hi, t.lo), (1, u128::MAX - 1));
}

#[test]
fn wide_order() {
    let small = Wide { hi: 1, lo: u128::MAX };
    let large = Wide { hi: 2, lo: 0 };
    assert!(large.ge(&small));
    assert!(!small.ge(&large));
    assert!(small.ge(&small));
}

#[test]
fn scores_are_ordered_by_value() {
    // 1/2 against 1/3
    assert!(s(1, 4).ge(&s(1, 9)));
    assert!(!s(1, 9).ge(&s(1, 4)));
    assert!(s(1, 4).gt(&s(1, 9)));
    // equal values in different forms
    assert!(s(1, 4).ge(&s(2, 16)));
    assert!(s(2, 16).ge(&s(1, 4)));
    assert!(!s(2, 16).gt(&s(1, 4)));
    // signs
    assert!(s(0, 1).ge(&s(-1, 4)));
    assert!(!s(-1, 4).ge(&s(0, 1)));
    assert!(s(-1, 9).ge(&s(-1, 4)));
    assert!(!s(-1, 4).ge(&s(-1, 9)));
    assert!(s(1, 100).ge(&s(-3, 1)));
    assert!(s(0, 5).ge(&s(0, 7)));
}

#[test]
fn scores_with_large_parts_are_compared_exactly() {
    let top = u64::MAX as i128;
    let den = u128::MAX;
    // top / sqrt(den) is just below 1
    assert!(s(1, 1).gt(&s(top, den)));
    assert!(s(top, den).gt(&s(top - 1, den)));
    assert!(s(top, den - 1).gt(&s(top, den)));
    assert!(s(-top, den).ge(&s(-1, 1)));
    assert!(!s(-top, den - 1).ge(&s(-top, den)));
}

#[test]
fn threshold_levels() {
    let t = Threshold::from_billionths(800_000_000);
    assert_eq!(t.score(), s(800_000_000, 1_000_000_000_000_000_000));
    assert_eq!(t.half(), s(800_000_000, 4_000_000_000_000_000_000));
    assert_eq!(t.nine_tenths(), s(7_200_000_000, 100_000_000_000_000_000_000));
    // 0.8: half is 0.4, nine tenths is 0.72
    assert!(t.half().ge(&s(4, 100)) && s(4, 100).ge(&t.half()));
    assert!(t.nine_tenths().ge(&s(72, 10_000)) && s(72, 10_000).ge(&t.nine_tenths()));
    let low = Threshold::from_billionths(i32::MIN);
    assert_eq!(low.nine_tenths().num, 9 * (i32::MIN as i128));
}

#[test]
fn correlation_is_exact() {
    // window 0 10 20 30 against template 0 10 20 40
    let src = GrayBuffer::from_raw(vec![7, 7, 7, 7, 0, 10, 20, 30], 4, 2).unwrap();
    let tpl = GrayBuffer::from_raw(vec![0, 10, 20, 40], 4, 1).unwrap();
    let table = IntegralImage::new(&src);
    let profile = Template::new(&tpl);
    assert_eq!(compute_ncc(&src, &table, &profile, 0, 1), s(2600, 2000 * 3500));
    // the first row has no contrast
    assert_eq!(compute_ncc(&src, &table, &profile, 0, 0), s(0, 1));
}

#[test]
fn correlation_can_be_negative() {
    let src = GrayBuffer::from_raw(vec![40, 20, 10, 0], 2, 2).unwrap();
    let tpl = GrayBuffer::from_raw(vec![0, 20, 30, 40], 2, 2).unwrap();
    let table = IntegralImage::new(&src);
    let profile = Template::new(&tpl);
    let score = compute_ncc(&src, &table, &profile, 0, 0);
    // the template is 40 minus the window: the correlation is -1
    assert!(score.num < 0);
    assert!(is_unit_square(&score));
}

#[test]
fn window_below_unit_variance_scores_zero() {
    // variance 3/4 and variance 1
    let dull = GrayBuffer::from_raw(vec![10, 10, 10, 12], 2, 2).unwrap();
    let fair = GrayBuffer::from_raw(vec![10, 10, 12, 12], 2, 2).unwrap();
    let tpl = GrayBuffer::from_raw(vec![0, 0, 9, 9], 2, 2).unwrap();
    let profile = Template::new(&tpl);
    assert_eq!(compute_ncc(&dull, &IntegralImage::new(&dull), &profile, 0, 0), s(0, 1));
    let score = compute_ncc(&fair, &IntegralImage::new(&fair), &profile, 0, 0);
    assert!(is_unit_square(&score));
    assert!(score.num > 0);
}

#[test]
fn rounding_to_ten_thousandths() {
    assert_eq!(s(1, 1).ten_thousandths(), 10_000);
    assert_eq!(s(-1, 1).ten_thousandths(), -10_000);
    assert_eq!(s(0, 1).ten_thousandths(), 0);
    assert_eq!(s(1, 4).ten_thousandths(), 5_000);
    assert_eq!(s(1, 9).ten_thousandths(), 3_333);
    assert_eq!(s(2, 9).ten_thousandths(), 6_667);
    assert_eq!(s(-1, 9).ten_thousandths(), -3_333);
    // 1 / sqrt(2) = 0.70710678...
    assert_eq!(s(1, 2).ten_thousandths(), 7_071);
    // half-way cases go up
    assert_eq!(s(1, 400_000_000).ten_thousandths(), 1);
    assert_eq!(s(-1, 400_000_000).ten_thousandths(), 0);
    assert_eq!(s(-3, 400_000_000).ten_thousandths(), -1);
}

#[test]
fn printable_form() {
    assert_eq!(at(40, 30, 1, 1).to_text(), "MatchResult(x=40, y=30, confidence=1.0000)");
    assert_eq!(at(0, 4_294_967_295, 1, 9).to_text(), "MatchResult(x=0, y=4294967295, confidence=0.3333)");
    assert_eq!(at(7, 105, -1, 2).to_text(), "MatchResult(x=7, y=105, confidence=-0.7071)");
    assert_eq!(at(10, 9, 0, 1).to_text(), "MatchResult(x=10, y=9, confidence=0.0000)");
    assert_eq!(at(1, 2, 2600, 7_000_000).to_text(), "MatchResult(x=1, y=2, confidence=0.9827)");
}

#[test]
fn sorting_puts_the_most_confident_first() {
    let input = vec![
        at(0, 0, 1, 9),
        at(1, 0, 1, 1),
        at(2, 0, -1, 4),
        at(3, 0, 1, 4),
        at(4, 0, 2, 4),
        at(5, 0, 0, 1),
        at(6, 0, 1, 9),
    ];
    let ranked = sort_by_confidence(&input);
    let order: Vec<u32> = ranked.iter().map(|m| m.x).collect();
    assert_eq!(order, vec![1, 4, 3, 0, 6, 5, 2]);
    assert!(sort_by_confidence(&Vec::new()).is_empty());
}

#[test]
fn suppression_keeps_separated_matches() {
    let ranked = vec![
        at(10, 10, 1, 1),
        at(12, 11, 9, 100),
        at(15, 10, 8, 100),
        at(10, 14, 7, 100),
        at(12, 16, 6, 100),
        at(40, 40, 5, 100),
    ];
    // half a template: 5 columns, 4 rows
    let kept = suppress_ranked(&ranked, 5, 4, 10);
    let spots: Vec<(u32, u32)> = kept.iter().map(|m| (m.x, m.y)).collect();
    assert_eq!(spots, vec![(10, 10), (15, 10), (10, 14), (40, 40)]);
    let two = suppress_ranked(&ranked, 5, 4, 2);
    assert_eq!(two.len(), 2);
    assert_eq!((two[1].x, two[1].y), (15, 10));
    assert!(suppress_ranked(&ranked, 5, 4, 0).is_empty());
}

#[test]
fn single_pixel_template_is_not_thinned_out() {
    // half of 1 is 0, so every two matches count as separated
    let ranked = vec![at(3, 3, 1, 1), at(3, 3, 1, 1), at(4, 3, 1, 1)];
    assert_eq!(suppress_ranked(&ranked, 0, 0, 10).len(), 3);
}

#[test]
fn quad_product_spans_four_limbs() {
    let one = Wide { hi: 0, lo: 1 };
    let top = Wide { hi: u128::MAX, lo: u128::MAX };
    assert_eq!(Quad::product(&one, &top).limbs, [u128::MAX, u128::MAX, 0, 0]);
    // (2^256 - 1)^2 = 2^512 - 2^257 + 1
    assert_eq!(Quad::product(&top, &top).limbs, [1, 0, u128::MAX - 1, u128::MAX]);
    let a = Wide { hi: 3, lo: 5 };
    let b = Wide { hi: 7, lo: 11 };
    // (3 B + 5)(7 B + 11) = 21 B^2 + 68 B + 55
    assert_eq!(Quad::product(&a, &b).limbs, [55, 68, 21, 0]);
    let c = Wide { hi: 0, lo: u128::MAX };
    let d = Wide { hi: 1, lo: u128::MAX };
    // (B - 1)(2 B - 1) = 2 B^2 - 3 B + 1
    assert_eq!(Quad::product(&c, &d).limbs, [1, u128::MAX - 2, 1, 0]);
}

#[test]
fn quad_order() {
    let small = Quad { limbs: [u128::MAX, u128::MAX, 0, 1] };
    let large = Quad { limbs: [0, 0, 1, 1] };
    assert!(large.ge(&small));
    assert!(!small.ge(&large));
    assert!(large.ge(&large));
}

#[test]
fn scores_with_wide_denominators_are_compared_exactly() {
    let big = 1i128 << 100;
    let a = Score { num: big, den_sq: Wide::product(1u128 << 100, 1u128 << 100) };
    let b = Score { num: big - 1, den_sq: Wide::product(1u128 << 100, 1u128 << 100) };
    let c = Score { num: big, den_sq: Wide::product(1u128 << 100, (1u128 << 100) + 1) };
    assert!(a.ge(&s(1, 1)) && s(1, 1).ge(&a));
    assert!(a.gt(&b));
    assert!(a.gt(&c));
    assert!(c.gt(&b));
    assert!(s(-1, 1).ge(&Score { num: -big, den_sq: a.den_sq }));
    assert_eq!(a.ten_thousandths(), 10_000);
}

#[test]
fn large_templates_are_profiled() {
    // 5000 x 4000 pixels: beyond what 64-bit numerators could score
    let n = 5000usize * 4000;
    let mut pixels = vec![0u8; n];
    for (i, p) in pixels.iter_mut().enumerate() {
        *p = (i % 251) as u8;
    }
    let src = GrayBuffer::from_raw(pixels.clone(), 5000, 4000).unwrap();
    let tpl = GrayBuffer::from_raw(pixels, 5000, 4000).unwrap();
    let table = IntegralImage::new(&src);
    let profile = Template::new(&tpl);
    let score = compute_ncc(&src, &table, &profile, 0, 0);
    assert!(score.num > 0);
    assert!(is_unit_square(&score));
}
