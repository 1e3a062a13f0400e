use trimrs::rate::ErrorRate;

fn rate(value: f64) -> ErrorRate {
    ErrorRate::from_bits(value.to_bits()).unwrap()
}

/// What floating-point arithmetic gives for the errors allowed on a length.
fn by_floats(value: f64, length: usize) -> usize {
    (value * length as f64).floor() as usize
}

/// A small generator of numbers that look random.
struct Lcg(u64);

impl Lcg {
    fn next(&mut self) -> u64 {
        self.0 = self.0.wrapping_mul(6364136223846793005).wrapping_add(1442695040888963407);
        self.0 >> 11
    }
}

#[test]
fn budget_of_exact_products() {
    assert_eq!(rate(0.25).max_errors(5), 1);
    assert_eq!(rate(0.25).max_errors(8), 2);
    assert_eq!(rate(0.5).max_errors(7), 3);
    assert_eq!(rate(1.0).max_errors(20), 20);
    assert_eq!(rate(0.0).max_errors(1000), 0);
    assert_eq!(rate(2.0).max_errors(21), 42);
}

#[test]
fn budget_of_decimal_rates() {
    assert_eq!(rate(0.05).max_errors(20), 1);
    assert_eq!(rate(0.05).max_errors(19), 0);
    assert_eq!(rate(0.1).max_errors(20), 2);
    assert_eq!(rate(0.1).max_errors(10), 1);
    assert_eq!(rate(0.1).max_errors(9), 0);
}

#[test]
fn budget_rounds_the_product_as_floats_do() {
    // The product is rounded to the nearest number before it is cut: 0.7 lies
    // just below seven tenths, yet ten times it is seven.
    assert_eq!(rate(0.7).max_errors(10), 7);
    assert_eq!(rate(0.15).max_errors(20), 3);
    // Here the rounded product stays below the whole number.
    assert_eq!(rate(0.57).max_errors(100), 56);
}

#[test]
fn budget_agrees_with_floats_on_small_lengths() {
    let rates = [
        0.0, 0.01, 0.05, 0.1, 0.15, 0.2, 0.25, 0.3, 1.0 / 3.0, 0.34, 0.4, 0.5, 0.57, 0.6, 0.7, 0.75,
        0.8, 0.9, 0.99, 1.0, 1.5, 3.7,
    ];
    for value in rates {
        let r = rate(value);
        for length in 0..2000usize {
            assert_eq!(r.max_errors(length), by_floats(value, length), "{} * {}", value, length);
        }
    }
}

#[test]
fn budget_agrees_with_floats_on_random_values() {
    let mut gen = Lcg(7);
    for _ in 0..200_000 {
        let value = (gen.next() % (1 << 53)) as f64 / (1u64 << 53) as f64;
        let length = (gen.next() as usize) >> (gen.next() % 53);
        assert_eq!(rate(value).max_errors(length), by_floats(value, length), "{} * {}", value, length);
    }
}

#[test]
fn budget_agrees_with_floats_on_every_scale() {
    let mut gen = Lcg(11);
    for _ in 0..200_000 {
        let bits = gen.next() << 11 | gen.next() % 2048;
        let value = f64::from_bits(bits & 0x7fff_ffff_ffff_ffff);
        if !value.is_finite() {
            continue;
        }
        let length = (gen.next() as usize) >> (gen.next() % 53);
        assert_eq!(rate(value).max_errors(length), by_floats(value, length), "{} * {}", value, length);
    }
}

#[test]
fn budget_of_tiny_and_huge_rates() {
    assert_eq!(rate(f64::MIN_POSITIVE).max_errors(usize::MAX), 0);
    assert_eq!(rate(5e-324).max_errors(usize::MAX), 0);
    assert_eq!(rate(f64::MAX).max_errors(1), usize::MAX);
    assert_eq!(rate(f64::MAX).max_errors(0), 0);
    assert_eq!(rate(1e300).max_errors(3), usize::MAX);
    assert_eq!(rate(1.0).max_errors(usize::MAX), by_floats(1.0, usize::MAX));
}

#[test]
fn rates_are_finite_and_not_negative() {
    assert!(ErrorRate::from_bits(f64::NAN.to_bits()).is_none());
    assert!(ErrorRate::from_bits(f64::INFINITY.to_bits()).is_none());
    assert!(ErrorRate::from_bits(f64::NEG_INFINITY.to_bits()).is_none());
    assert!(ErrorRate::from_bits((-0.25f64).to_bits()).is_none());
    assert!(ErrorRate::from_bits((-5e-324f64).to_bits()).is_none());
    assert!(ErrorRate::from_bits(0x7ff0_0000_0000_0001).is_none());
    assert!(ErrorRate::from_bits(0.0f64.to_bits()).is_some());
    assert!(ErrorRate::from_bits(f64::MAX.to_bits()).is_some());
}

#[test]
fn negative_zero_is_zero() {
    let r = ErrorRate::from_bits((-0.0f64).to_bits()).unwrap();
    assert_eq!(r.max_errors(100), 0);
    assert_eq!(r.to_bits(), 0);
}

#[test]
fn bits_come_back() {
    for value in [0.0, 5e-324, f64::MIN_POSITIVE, 0.05, 0.1, 0.25, 1.0, 1.5, 1e300, f64::MAX] {
        assert_eq!(rate(value).to_bits(), value.to_bits());
    }
    let mut gen = Lcg(3);
    for _ in 0..100_000 {
        let bits = (gen.next() << 11 | gen.next() % 2048) & 0x7fff_ffff_ffff_ffff;
        match ErrorRate::from_bits(bits) {
            Some(r) => assert_eq!(r.to_bits(), bits),
            None => assert!(bits >= 0x7ff0_0000_0000_0000),
        }
    }
}

#[test]
fn larger_rate_allows_no_fewer_errors() {
    let rates = [0.0, 0.01, 0.05, 0.1, 0.15, 0.2, 0.25, 0.3, 0.34, 0.4, 0.5, 0.6, 0.7, 0.75, 1.0];
    for pair in rates.windows(2) {
        for length in 0..500usize {
            assert!(rate(pair[0]).max_errors(length) <= rate(pair[1]).max_errors(length));
        }
    }
}

#[test]
fn longer_sequence_allows_no_fewer_errors() {
    for value in [0.05, 0.1, 0.3, 0.7, 1.0] {
        for length in 0..500usize {
            assert!(rate(value).max_errors(length) <= rate(value).max_errors(length + 1));
        }
    }
}

#[test]
fn rates_are_ordered_as_numbers() {
    let values = [
        0.0, 5e-324, 1e-310, f64::MIN_POSITIVE, 1e-300, 0.05, 0.1, 0.25, 0.5, 1.0, 1.5, 2.0, 1e300,
        f64::MAX,
    ];
    for a in values {
        for b in values {
            assert_eq!(rate(a).partial_cmp(&rate(b)), a.partial_cmp(&b), "{} {}", a, b);
            assert_eq!(rate(a) < rate(b), a < b);
            assert_eq!(rate(a) == rate(b), a == b);
        }
    }
    let mut gen = Lcg(5);
    for _ in 0..100_000 {
        let a = f64::from_bits(gen.next() << 11 | gen.next() % 2048).abs();
        let b = f64::from_bits(gen.next() << 11 | gen.next() % 2048).abs();
        if a.is_finite() && b.is_finite() {
            assert_eq!(rate(a).partial_cmp(&rate(b)), a.partial_cmp(&b), "{} {}", a, b);
        }
    }
}
