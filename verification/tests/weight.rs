use kannaka_attention::Weight;

fn weight(x: f32) -> Weight {
    Weight::from_bits(x.to_bits())
}

fn number(w: Weight) -> f32 {
    f32::from_bits(w.to_bits())
}

/// Encodings at the edges of every range, and some in between.
fn encodings() -> Vec<u32> {
    let mut all = vec![0, 1, 2, 3, 0x7f_ffff, 0x80_0000, 0x80_0001, 0xff_ffff, 0x100_0000];
    for exponent in [1u32, 2, 23, 24, 25, 103, 104, 126, 127, 128, 150, 151, 152, 175, 253, 254] {
        for fraction in [0u32, 1, 2, 0x3f_ffff, 0x40_0000, 0x40_0001, 0x7f_fffe, 0x7f_ffff] {
            all.push(exponent << 23 | fraction);
        }
    }
    all.push(0x7f80_0000);
    let mut seed: u32 = 0x2545_f491;
    for _ in 0..200 {
        seed ^= seed << 13;
        seed ^= seed >> 17;
        seed ^= seed << 5;
        if seed & 0x7fff_ffff <= 0x7f80_0000 {
            all.push(seed & 0x7fff_ffff);
        }
    }
    all
}

/// A bit-for-bit match, NaN matching any NaN.
fn matches_bits(w: Weight, x: f32) -> bool {
    w.to_bits() == x.to_bits() || (w.is_nan() && x.is_nan())
}

#[test]
fn sums_of_amounts_are_exact_to_the_bit() {
    let all = encodings();
    for a in &all {
        for b in &all {
            let sum = Weight::from_bits(*a).plus(Weight::from_bits(*b));
            assert_eq!(
                sum.to_bits(),
                (f32::from_bits(*a) + f32::from_bits(*b)).to_bits(),
                "{a:#x} + {b:#x}"
            );
        }
    }
}

#[test]
fn products_are_exact_to_the_bit() {
    let all = encodings();
    for a in &all {
        for b in &all {
            for (x, y) in [(*a, *b), (*a | 0x8000_0000, *b), (*a | 0x8000_0000, *b | 0x8000_0000)] {
                let product = Weight::from_bits(x).times(Weight::from_bits(y));
                assert!(
                    matches_bits(product, f32::from_bits(x) * f32::from_bits(y)),
                    "{x:#x} * {y:#x}"
                );
            }
        }
    }
}

#[test]
fn products_with_what_is_not_a_number_are_not_numbers() {
    for x in [0.0f32, 1.0, -2.5, f32::INFINITY, f32::NAN] {
        assert!(weight(x).times(weight(f32::NAN)).is_nan());
        assert!(weight(f32::NAN).times(weight(x)).is_nan());
    }
    assert!(weight(0.0).times(weight(f32::NEG_INFINITY)).is_nan());
    assert!(weight(f32::INFINITY).times(weight(-0.0)).is_nan());
    assert_eq!(number(weight(-2.0).times(weight(f32::INFINITY))), f32::NEG_INFINITY);
}

#[test]
fn the_ranking_is_the_total_order() {
    let mut all = encodings();
    all.extend([0x7f80_0001, 0x7fc0_0000, 0x7fff_ffff]);
    let negative: Vec<u32> = all.iter().map(|e| e | 0x8000_0000).collect();
    all.extend(negative);
    for a in &all {
        for b in &all {
            let (x, y) = (Weight::from_bits(*a), Weight::from_bits(*b));
            let total = f32::from_bits(*a).total_cmp(&f32::from_bits(*b));
            assert_eq!(x.order().cmp(&y.order()), total, "{a:#x} {b:#x}");
        }
    }
}

#[test]
fn numbers_compare_by_what_they_are_worth() {
    let mut all = encodings();
    let negative: Vec<u32> = all.iter().map(|e| e | 0x8000_0000).collect();
    all.extend(negative);
    for a in &all {
        for b in &all {
            let (x, y) = (Weight::from_bits(*a), Weight::from_bits(*b));
            assert_eq!(x.less_than(y), f32::from_bits(*a) < f32::from_bits(*b));
        }
    }
    assert!(!weight(-0.0).less_than(weight(0.0)));
    assert!(weight(-0.0).order() < weight(0.0).order());
}

#[test]
fn the_kinds_of_numbers_are_told_apart() {
    for x in [0.0f32, -0.0, 1.0, -1.0, f32::MAX, f32::MIN, f32::MIN_POSITIVE, f32::INFINITY,
        f32::NEG_INFINITY, f32::NAN, -f32::NAN, f32::from_bits(1)]
    {
        assert_eq!(weight(x).is_finite(), x.is_finite());
        assert_eq!(weight(x).is_nan(), x.is_nan());
        assert_eq!(weight(x).to_bits(), x.to_bits());
    }
}

#[test]
fn one_is_neutral_and_larger_factors_give_more() {
    let one = weight(1.0);
    for e in encodings() {
        if e < 0x7f80_0000 {
            let w = Weight::from_bits(e);
            assert_eq!(w.times(one), w);
            let (warm, hot) = (w.times(weight(1.3)), w.times(weight(2.0)));
            assert!(!warm.less_than(w));
            assert!(!hot.less_than(warm));
        }
    }
}

#[test]
fn ten_times_one_is_ten() {
    let mut total = weight(1.0);
    for _ in 0..9 {
        total = total.plus(weight(1.0));
    }
    assert_eq!(total, weight(10.0));
}

#[test]
fn a_sum_stops_growing_where_one_is_too_small_to_count() {
    let full = weight(16_777_216.0);
    assert_eq!(full.plus(weight(1.0)), full);
    assert_eq!(full.plus(weight(3.0)), weight(16_777_220.0));
    assert_eq!(weight(f32::MAX).plus(weight(f32::MAX)), weight(f32::INFINITY));
}
