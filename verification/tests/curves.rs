use mastercurve::host::Call;
use mastercurve::linalg::{
    invert_pd, invert_symmetric, mean, numeric_hessian, ols, quad_form, solve_linear, sum,
};
use mastercurve::models::{
    initial_raw, mean_log_life, n_base, param_meta, physical, softplus, ModelKind, Scale,
};
use mastercurve::normal::{erf, erfc, log_phi_cdf, log_phi_pdf, norm_log_cdf, norm_log_pdf};
use mastercurve::number::Real;
use mastercurve::simplex::{nelder_mead, neldermead};

fn num(x: f64) -> Real {
    Real::from_bits(x.to_bits())
}

fn float(x: Real) -> f64 {
    f64::from_bits(x.to_bits())
}

fn math(c: Call) -> Real {
    num(match c {
        Call::Exp(x) => float(x).exp(),
        Call::Ln(x) => float(x).ln(),
        Call::Log10(x) => float(x).log10(),
        Call::Pow10(x) => 10f64.powf(float(x)),
        Call::Sqrt(x) => float(x).sqrt(),
        Call::Hypot(x, y) => float(x).hypot(float(y)),
    })
}

fn reals(v: &[f64]) -> Vec<Real> {
    v.iter().map(|x| num(*x)).collect()
}

fn floats(v: &[Real]) -> Vec<f64> {
    v.iter().map(|x| float(*x)).collect()
}

fn table(v: &[&[f64]]) -> Vec<Vec<Real>> {
    v.iter().map(|r| reals(r)).collect()
}

#[test]
fn models_have_names_and_sizes() {
    assert_eq!(ModelKind::parse("larson_miller"), Some(ModelKind::LarsonMiller));
    assert_eq!(ModelKind::parse("lm"), Some(ModelKind::LarsonMiller));
    assert_eq!(ModelKind::parse("custom"), Some(ModelKind::Custom));
    assert_eq!(ModelKind::parse("LM"), None);
    assert_eq!(n_base(ModelKind::LarsonMiller), 3);
    assert_eq!(n_base(ModelKind::Custom), 5);
    let m = param_meta(ModelKind::LarsonMiller);
    assert_eq!(m.len(), 4);
    assert_eq!(m[0].0, "C");
    assert!(!m[0].2);
    assert_eq!(param_meta(ModelKind::Custom)[4].1, "受限: 温度二次项 <= 0");
    assert_eq!(floats(&initial_raw(ModelKind::Custom)), [3.5, 0.0, -2.0, 0.0, -2.0]);
}

#[test]
fn parameters_are_held_in_their_ranges() {
    assert_eq!(float(softplus(&math, num(41.0))), 41.0);
    assert_eq!(float(softplus(&math, num(0.0))), 2f64.ln());
    let mut raw = vec![-1e6, -100.0, -5.0, 0.0, 5.0, 100.0, 1e6];
    for v in raw.drain(..) {
        let p = physical(&math, ModelKind::Custom, &reals(&[1.0, 2.0, v, 3.0, v]), num(900.0));
        assert!(float(p[2]) <= 0.0 && float(p[4]) <= 0.0);
        let q = physical(&math, ModelKind::LarsonMiller, &reals(&[1.0, 2.0, v]), num(900.0));
        assert!(float(q[2]) >= 950.0);
    }
}

#[test]
fn lives_follow_the_curves() {
    let scale = Scale { t0: num(800.0), td: num(50.0), s0: num(120.0), sd: num(40.0) };
    let p = reals(&[2000.0, 10.0, 1500.0]);
    let y = mean_log_life(ModelKind::LarsonMiller, &p, num(823.15), num(150.0), &scale);
    assert_eq!(float(y), (823.15 * 20.0 - 2000.0 - 10.0 * 150.0) / (1500.0 - 823.15));
    let c = reals(&[3.0, -1.0, -0.5, -2.0, -0.25]);
    let (s, t) = ((150.0 - 120.0) / 40.0, (823.15 - 800.0) / 50.0);
    let z = mean_log_life(ModelKind::Custom, &c, num(823.15), num(150.0), &scale);
    assert_eq!(
        float(z),
        3.0 + -1.0 * s + -0.5 * s * s + -2.0 * t + -0.25 * t * t
    );
}

fn plain_erf(x: f64) -> f64 {
    let sign = if x < 0.0 { -1.0 } else { 1.0 };
    let a = x.abs();
    let t = 1.0 / (1.0 + 0.3275911 * a);
    let poly = ((((1.061405429 * t - 1.453152027) * t) + 1.421413741) * t - 0.284496736) * t
        + 0.254829592;
    sign * (1.0 - poly * t * (-a * a).exp())
}

#[test]
fn normal_tables() {
    for x in [0.0, 0.3, -0.3, 1.0, 2.5, -4.0] {
        assert_eq!(float(erf(&math, num(x))), plain_erf(x));
        assert_eq!(float(erfc(&math, num(x))), 1.0 - plain_erf(x));
    }
    assert!((float(erf(&math, num(1.0))) - 0.8427007929).abs() < 1.5e-7);
    assert!((float(erf(&math, num(-1.0))) + 0.8427007929).abs() < 1.5e-7);
    assert!((float(erfc(&math, num(0.5))) - 0.4795001222).abs() < 1.5e-7);
    assert_eq!(
        float(norm_log_pdf(&math, num(2.0))),
        -0.5 * 2.0 * 2.0 - 2.5066282746310002f64.ln()
    );
    assert!((float(norm_log_cdf(&math, num(0.0))) - 0.5f64.ln()).abs() < 1e-6);
    assert!((float(norm_log_cdf(&math, num(1.96))) - 0.9750021f64.ln()).abs() < 1e-6);
    // the far tail is a number and meets the near one
    let far = float(norm_log_cdf(&math, num(-6.0)));
    assert!((far - -20.73676889).abs() < 1e-3, "{far}");
    let farther = float(norm_log_cdf(&math, num(-10.0)));
    assert!((farther - -53.23128515).abs() < 1e-4, "{farther}");
    assert!(farther < far);
    // the weight of a censored life is that of outliving, in both tails
    assert!((float(log_phi_cdf(&math, num(1.0))) - 0.1586552539f64.ln()).abs() < 1e-6);
    assert_eq!(
        float(log_phi_cdf(&math, num(7.0))),
        -(0.5 * 49.0 + 1.0 / 49.0) - 7f64.ln() - 0.5 * (2.0 * std::f64::consts::PI).ln()
    );
    assert!((float(log_phi_cdf(&math, num(6.0))) - -20.73676895).abs() < 2e-3);
    assert!((float(log_phi_cdf(&math, num(7.0))) - -27.38430750).abs() < 1e-3);
    for z in [-6.0, -7.0, -10.0, -40.0, f64::NEG_INFINITY] {
        let w = float(log_phi_cdf(&math, num(z)));
        assert!(w <= 0.0 && w > -2e-9, "{z}: {w}");
    }
    assert_eq!(
        float(log_phi_pdf(&math, num(1.5))),
        -0.5 * (2.25 + (2.0 * std::f64::consts::PI).ln())
    );
}

#[test]
fn sums_and_means() {
    assert_eq!(float(sum(&reals(&[0.1, 0.2, 0.3]))), 0.1 + 0.2 + 0.3);
    assert_eq!(float(mean(&reals(&[1.0, 2.0, 6.0]))), 3.0);
    assert_eq!(float(mean(&vec![])), 0.0);
    let cov = table(&[&[2.0, 1.0], &[1.0, f64::NAN]]);
    assert_eq!(float(quad_form(&cov, &reals(&[3.0, 1.0]))), 18.0 + 3.0 + 3.0);
    assert_eq!(float(quad_form(&table(&[&[-4.0]]), &reals(&[1.0]))), 0.0);
}

#[test]
fn matrices_are_inverted() {
    let a = table(&[&[4.0, 1.0], &[1.0, 3.0]]);
    for inv in [invert_pd(&a).unwrap(), invert_symmetric(&a).unwrap()] {
        let want = [[3.0 / 11.0, -1.0 / 11.0], [-1.0 / 11.0, 4.0 / 11.0]];
        for i in 0..2 {
            for j in 0..2 {
                assert!((float(inv[i][j]) - want[i][j]).abs() < 1e-15);
            }
        }
    }
    // a row exchange is needed
    let b = table(&[&[0.0, 2.0], &[4.0, 0.0]]);
    let inv = invert_pd(&b).unwrap();
    assert_eq!(floats(&inv[0]), [0.0, 0.25]);
    assert_eq!(floats(&inv[1]), [0.5, 0.0]);
    assert!(invert_pd(&table(&[&[1.0, 1.0], &[1.0, 1.0]])).is_none());
    assert!(invert_symmetric(&table(&[&[0.0]])).is_none());
}

#[test]
fn systems_are_solved() {
    let a = table(&[&[0.0, 2.0, 1.0], &[1.0, -2.0, -3.0], &[-1.0, 1.0, 2.0]]);
    let x = solve_linear(&a, &reals(&[-8.0, 0.0, 3.0])).unwrap();
    for (got, want) in floats(&x).iter().zip([-4.0, -5.0, 2.0]) {
        assert!((got - want).abs() < 1e-12);
    }
    assert!(solve_linear(&table(&[&[1.0, 2.0], &[2.0, 4.0]]), &reals(&[1.0, 2.0])).is_none());
}

#[test]
fn least_squares_recover_a_line() {
    let x = table(&[&[1.0, 0.0], &[1.0, 1.0], &[1.0, 2.0], &[1.0, 3.0]]);
    let b = ols(&x, &reals(&[1.0, 3.0, 5.0, 7.0])).unwrap();
    assert!((float(b[0]) - 1.0).abs() < 1e-12 && (float(b[1]) - 2.0).abs() < 1e-12);
    // not more rows than coefficients
    assert!(ols(&table(&[&[1.0, 0.0], &[1.0, 1.0]]), &reals(&[1.0, 3.0])).is_none());
}

#[test]
fn curvatures_are_symmetric() {
    let f = |x: &Vec<Real>| {
        let (a, b) = (float(x[0]), float(x[1]));
        num(a * a + 3.0 * a * b + 2.0 * b * b)
    };
    let x = reals(&[0.5, -1.0]);
    let h = numeric_hessian(&f, &x, f(&x));
    assert!((float(h[0][0]) - 2.0).abs() < 1e-5);
    assert!((float(h[1][1]) - 4.0).abs() < 1e-5);
    assert!((float(h[0][1]) - 3.0).abs() < 1e-5);
    assert_eq!(h[0][1].to_bits(), h[1][0].to_bits());
}

#[test]
fn searches_descend_to_a_minimum() {
    let f = |x: &Vec<Real>| {
        let (a, b) = (float(x[0]), float(x[1]));
        num((a - 1.0).powi(2) + 10.0 * (b + 2.0).powi(2))
    };
    let start = reals(&[5.0, 5.0]);
    let (x, v) = neldermead(&f, &start, 500);
    assert!((float(x[0]) - 1.0).abs() < 1e-3 && (float(x[1]) + 2.0).abs() < 1e-3);
    assert!(v.le(f(&start)));
    assert_eq!(v.to_bits(), f(&x).to_bits());
    let (y, w, met) = nelder_mead(&f, &start, 500);
    assert!((float(y[0]) - 1.0).abs() < 1e-3 && (float(y[1]) + 2.0).abs() < 1e-3);
    assert!(w.le(f(&start)) && met);
    // without steps the best corner of the first simplex is given back
    let (z, u, ended) = nelder_mead(&f, &start, 0);
    assert!(!ended && u.le(f(&start)));
    assert_eq!(z.len(), 2);
}

#[test]
fn the_error_function_is_odd_and_bounded() {
    for x in [1e-300, 1e-9, 0.2, 0.7, 1.0, 1.5, 3.0, 5.5, 40.0, f64::INFINITY] {
        let (a, b) = (float(erf(&math, num(x))), float(erf(&math, num(-x))));
        assert_eq!(a, -b);
        assert!((-1.0..=1.0).contains(&a), "{x}: {a}");
    }
}

#[test]
fn outliving_longer_is_never_likelier() {
    let mut last = f64::INFINITY;
    for i in -160..=160 {
        let w = float(log_phi_cdf(&math, num(i as f64 / 8.0)));
        assert!(w <= last && w <= 0.0, "{i}: {w} after {last}");
        last = w;
    }
}

#[test]
fn a_search_ends_no_higher_than_any_first_corner() {
    let f = |x: &Vec<Real>| {
        let (a, b) = (float(x[0]), float(x[1]));
        num((a - 1.0) * (a - 1.0) + (b + 2.0) * (b + 2.0) + a * b)
    };
    for start in [[0.0, 0.0], [3.0, -1.0], [-4.0, 0.05]] {
        let (_, v) = neldermead(&f, &reals(&start), 1);
        let step = |x: f64| if x.abs() > 0.1 { 0.1 } else { 0.25 };
        for corner in [
            [start[0], start[1]],
            [start[0] + step(start[0]), start[1]],
            [start[0], start[1] + step(start[1])],
        ] {
            assert!(float(v) <= float(f(&reals(&corner))));
        }
    }
}

#[test]
fn the_error_function_is_right_at_chosen_arguments() {
    for (x, y) in [
        (0.5, 0.5204998778130465),
        (1.0, 0.8427007929497149),
        (2.0, 0.9953222650189527),
    ] {
        assert!((float(erf(&math, num(x))) - y).abs() <= 1.5e-7, "{x}");
        // so is the probability to survive at the square root of two times that
        let w = float(log_phi_cdf(&math, num(x * 2f64.sqrt())));
        assert!((w.exp() - 0.5 * (1.0 - y)).abs() <= 1e-7, "{x}");
    }
}

#[test]
fn the_error_function_rises_but_for_roundings() {
    let slack = 22.0 * 2f64.powi(-50);
    let mut last = -1.0;
    for i in -60000..=60000 {
        let y = float(erf(&math, num(i as f64 / 10000.0)));
        assert!(last <= y + slack, "{i}: {y} after {last}");
        last = y;
    }
    // two numbers a rounding apart may change places
    let (a, b) = (0.1296714209768165, 0.12967142097681658);
    let at = |z: f64| float(log_phi_cdf(&math, num(z))).exp();
    assert!(a < b && at(b) <= at(a) + 2f64.powi(-45));
}

#[test]
fn a_weight_falls_across_six() {
    let below = float(log_phi_cdf(&math, num(f64::from_bits(6f64.to_bits() - 1))));
    let at = float(log_phi_cdf(&math, num(6.0)));
    assert!(at <= below && below <= 0.0);
    assert!(float(log_phi_cdf(&math, num(-6.5))) >= below);
}
