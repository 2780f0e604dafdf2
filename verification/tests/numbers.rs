use mastercurve::number::Real;

fn num(x: f64) -> Real {
    Real::from_bits(x.to_bits())
}

fn float(x: Real) -> f64 {
    f64::from_bits(x.to_bits())
}

fn agree(a: Real, b: f64) -> bool {
    if b.is_nan() {
        a.is_nan()
    } else {
        a.to_bits() == b.to_bits()
    }
}

struct Mixer {
    state: u64,
}

impl Mixer {
    fn next(&mut self) -> u64 {
        self.state = self.state.wrapping_add(0x9e37_79b9_7f4a_7c15);
        let mut z = self.state;
        z = (z ^ (z >> 30)).wrapping_mul(0xbf58_476d_1ce4_e5b9);
        z = (z ^ (z >> 27)).wrapping_mul(0x94d0_49bb_1331_11eb);
        z ^ (z >> 31)
    }
}

fn edge_values() -> Vec<f64> {
    vec![
        0.0,
        -0.0,
        1.0,
        -1.0,
        0.1,
        273.15,
        f64::MIN_POSITIVE,
        f64::from_bits(1),
        f64::from_bits(0x000f_ffff_ffff_ffff),
        -f64::from_bits(1),
        f64::MAX,
        f64::MIN,
        f64::INFINITY,
        f64::NEG_INFINITY,
        f64::NAN,
        1e300,
        1e-300,
        4503599627370496.0,
        4503599627370497.0,
        0.5,
        1.5,
        2.5,
        -2.5,
        1e19,
        -1e19,
    ]
}

fn check_pair(x: f64, y: f64) {
    let (a, b) = (num(x), num(y));
    assert!(agree(a.plus(b), x + y), "{x:e} + {y:e}");
    assert!(agree(a.minus(b), x - y), "{x:e} - {y:e}");
    assert!(agree(a.times(b), x * y), "{x:e} * {y:e}");
    assert!(agree(a.over(b), x / y), "{x:e} / {y:e}");
    assert_eq!(a.lt(b), x < y);
    assert_eq!(a.le(b), x <= y);
    assert_eq!(a.same(b), x == y);
}

#[test]
fn arithmetic_agrees_on_edges() {
    let v = edge_values();
    for &x in &v {
        for &y in &v {
            check_pair(x, y);
        }
    }
}

#[test]
fn arithmetic_agrees_on_random_patterns() {
    let mut m = Mixer { state: 7 };
    for _ in 0..20000 {
        let x = f64::from_bits(m.next());
        let y = f64::from_bits(m.next());
        check_pair(x, y);
    }
}

#[test]
fn arithmetic_agrees_on_close_numbers() {
    let mut m = Mixer { state: 11 };
    for _ in 0..20000 {
        let x = (m.next() % 2_000_001) as f64 / 1000.0 - 1000.0;
        let y = x + (m.next() % 2001) as f64 / 1e9 - 1e-6;
        check_pair(x, y);
        check_pair(x, -y);
    }
}

#[test]
fn sums_round_to_even() {
    // 2^53 + 1 is a tie, which falls to the even neighbour
    let big = 9007199254740992.0;
    assert_eq!(float(num(big).plus(num(1.0))), 9007199254740992.0);
    assert_eq!(float(num(big).plus(num(3.0))), 9007199254740996.0);
    assert_eq!(float(num(0.1).plus(num(0.2))), 0.30000000000000004);
}

#[test]
fn integers_round_half_away_from_zero() {
    for &x in &edge_values() {
        assert!(agree(num(x).to_integral(), x.round()), "{x:e}");
        assert_eq!(num(x).to_i64(), x.round() as i64);
    }
    for n in [0u64, 1, 2, 53, u64::MAX, (1 << 53) + 1, 12345678901234567] {
        assert_eq!(float(Real::from_count(n)), n as f64);
    }
    let mut m = Mixer { state: 3 };
    for _ in 0..5000 {
        let x = (m.next() % 20001) as f64 / 4.0 - 2500.0;
        assert!(agree(num(x).to_integral(), x.round()));
    }
}

#[test]
fn signs_and_extremes() {
    assert_eq!(float(num(2.0).negated()), -2.0);
    assert_eq!(float(num(-2.0).abs()), 2.0);
    assert_eq!(float(num(f64::NAN).max(num(1.0))), 1.0);
    assert_eq!(float(num(1.0).max(num(f64::NAN))), 1.0);
    assert_eq!(float(num(1.0).min(num(-3.0))), -3.0);
    assert!(num(f64::NAN).is_nan());
    assert!(!num(f64::INFINITY).is_finite());
    assert!(num(-0.0).is_negative());
    assert_eq!(num(-0.0).pattern(), 0);
}

#[test]
fn sums_keep_the_order() {
    // a term that is not negative never lessens a sum, however small it is
    let a = num(1.0);
    let b = num(1e-300);
    assert!(a.le(a.plus(b)));
    assert!(a.minus(b).le(a));
    assert!(agree(a.plus(b), float(b.plus(a))));
}

#[test]
fn what_can_be_held_is_exact() {
    assert_eq!(float(num(0.5).plus(num(0.25))), 0.75);
    assert_eq!(float(num(-3.0).plus(num(1.0))), -2.0);
    assert_eq!(float(num(1.5).times(num(-2.5))), -3.75);
}
