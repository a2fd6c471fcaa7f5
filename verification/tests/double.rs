use pipe_stream::double::Double;

fn d(x: f64) -> Double {
    Double { bits: x.to_bits() }
}

fn f(x: Double) -> f64 {
    f64::from_bits(x.bits)
}

/// A fixed stream of bit patterns.
struct Stream {
    state: u64,
}

impl Stream {
    fn next(&mut self) -> u64 {
        self.state ^= self.state << 13;
        self.state ^= self.state >> 7;
        self.state ^= self.state << 17;
        self.state
    }
}

fn special() -> Vec<f64> {
    vec![
        0.0,
        -0.0,
        1.0,
        -1.0,
        0.1,
        0.2,
        0.3,
        3.6,
        1e-9,
        1e300,
        -1e300,
        5e-324,
        -5e-324,
        f64::MIN_POSITIVE,
        f64::MAX,
        f64::MIN,
        f64::INFINITY,
        f64::NEG_INFINITY,
        f64::NAN,
        4503599627370496.0,
        9007199254740993.0,
        0.49999999999999994,
        2.5,
        -2.5,
        18446744073709551615.0,
    ]
}

fn same(a: Double, b: f64, what: &str) {
    let x = f(a);
    if b.is_nan() {
        assert!(x.is_nan(), "{what}: {x} for NaN");
    } else {
        assert_eq!(x.to_bits(), b.to_bits(), "{what}: {x} for {b}");
    }
}

fn compare(a: f64, b: f64) {
    same(d(a).plus(d(b)), a + b, "plus");
    same(d(a).minus(d(b)), a - b, "minus");
    same(d(a).times(d(b)), a * b, "times");
    same(d(a).over(d(b)), a / b, "over");
    assert_eq!(d(a).lt(d(b)), a < b);
    assert_eq!(d(a).le(d(b)), a <= b);
    assert_eq!(d(a).gt(d(b)), a > b);
    assert_eq!(d(a).ge(d(b)), a >= b);
    assert_eq!(d(a).same(d(b)), a == b);
    if a != b || a.to_bits() == b.to_bits() {
        same(d(a).max(d(b)), a.max(b), "max");
        same(d(a).min(d(b)), a.min(b), "min");
    }
    same(d(a).abs(), a.abs(), "abs");
    same(d(a).negated(), -a, "negated");
    same(d(a).floor(), a.floor(), "floor");
    same(d(a).ceil(), a.ceil(), "ceil");
    same(d(a).sqrt(), a.sqrt(), "sqrt");
    assert_eq!(d(a).to_usize(), a as usize);
    assert_eq!(d(a).is_nan(), a.is_nan());
    assert_eq!(d(a).is_finite(), a.is_finite());
}

#[test]
fn arithmetic_on_special_values() {
    for a in special() {
        for b in special() {
            compare(a, b);
        }
    }
}

#[test]
fn arithmetic_on_any_bits() {
    let mut s = Stream { state: 0x9E37_79B9_7F4A_7C15 };
    for _ in 0..4000 {
        compare(f64::from_bits(s.next()), f64::from_bits(s.next()));
    }
}

#[test]
fn arithmetic_on_close_values() {
    let mut s = Stream { state: 0x0123_4567_89AB_CDEF };
    for _ in 0..4000 {
        let a = s.next();
        let b = (a & !0xFFFF) | (s.next() & 0xFFFF);
        compare(f64::from_bits(a), f64::from_bits(b));
        compare(f64::from_bits(a), -f64::from_bits(b));
    }
}

#[test]
fn arithmetic_on_everyday_values() {
    let mut s = Stream { state: 42 };
    for _ in 0..4000 {
        let a = (s.next() % 1_000_000) as f64 / 1000.0 - 300.0;
        let b = (s.next() % 1_000_000) as f64 / 777.0;
        compare(a, b);
    }
}

#[test]
fn subnormal_products_and_quotients() {
    let mut s = Stream { state: 7 };
    for _ in 0..2000 {
        let a = f64::from_bits(s.next() & 0x001F_FFFF_FFFF_FFFF);
        let b = (s.next() % 4096) as f64 / 64.0;
        compare(a, b);
        compare(b, a);
    }
}

#[test]
fn integers_become_the_nearest_double() {
    let mut s = Stream { state: 99 };
    for k in 0..64 {
        let n = s.next() >> k;
        same(Double::from_u64(n), n as f64, "from_u64");
        same(Double::from_usize(n as usize), n as usize as f64, "from_usize");
    }
    same(Double::from_u64(u64::MAX), u64::MAX as f64, "largest");
    same(Double::from_u64(0), 0.0, "zero");
}

#[test]
fn total_order_has_a_place_for_everything() {
    let mut all: Vec<f64> = special();
    all.sort_by(|a, b| a.total_cmp(b));
    for w in all.windows(2) {
        assert!(!d(w[1]).before(d(w[0])), "{} before {}", w[1], w[0]);
    }
}

#[test]
fn ten_over_three_is_the_nearest_double() {
    assert_eq!(d(10.0).over(d(3.0)).bits, 0x400A_AAAA_AAAA_AAAB);
    assert_eq!(d(2.0).sqrt().bits, 0x3FF6_A09E_667F_3BCD);
    assert_eq!(d(0.1).plus(d(0.2)).bits, 0x3FD3_3333_3333_3334);
}

#[test]
fn a_sum_with_nothing_negative_is_not_smaller() {
    let mut s = Stream { state: 5 };
    for _ in 0..1000 {
        let a = f64::from_bits(s.next());
        let b = f64::from_bits(s.next()).abs();
        if a.is_finite() && !b.is_nan() {
            assert!(d(a).plus(d(b)).ge(d(a)));
        }
    }
}

#[test]
fn sums_keep_the_order_of_their_terms() {
    let mut s = Stream { state: 7 };
    for _ in 0..1000 {
        let a = f64::from_bits(s.next());
        let b = f64::from_bits(s.next());
        let c = f64::from_bits(s.next());
        if a.is_finite() && b.is_finite() && c.is_finite() {
            let (lo, hi) = (a.min(b), a.max(b));
            assert!(d(lo).plus(d(c)).le(d(hi).plus(d(c))));
            assert!(d(hi).minus(d(lo)).ge(d(0.0)));
        }
    }
}

#[test]
fn whole_numbers_add_up_and_larger_divisors_give_less() {
    for (a, b) in [(0u64, 1u64), (3, 4), (1 << 52, (1 << 52) - 1), (123_456_789, 987_654_321)] {
        assert_eq!(Double::from_u64(a).plus(Double::from_u64(b)).bits, Double::from_u64(a + b).bits);
    }
    let length = d(100.0);
    let mut last = length.over(d(0.001));
    for v in [0.1, 1.0 / 3.0, 1.0, 3.0, 13.7, 1e300, f64::INFINITY] {
        let t = length.over(d(v));
        assert!(t.le(last));
        last = t;
    }
}
