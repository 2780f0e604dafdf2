use mastercurve::host::{Call, Print};
use mastercurve::models::ModelKind;
use mastercurve::number::Real;
use mastercurve::stats::engine::{covariance, fit};
use mastercurve::stats::predict::risk;
use mastercurve::stats::workspace::{envelope, obs_g, Workspace};
use mastercurve::stats::{
    FitConfig, FitOutput, FixedHeat, Obs, ObsKind, PredictionOut, Seg,
};

fn num(x: f64) -> Real {
    Real::from_bits(x.to_bits())
}

fn float(x: Real) -> f64 {
    f64::from_bits(x.to_bits())
}

fn math(c: Call) -> Real {
    num(match c {
        Call::Exp(x) => float(x).exp(),
        Call::Ln(x) => float(x).ln(),
        Call::Log10(x) => float(x).log10(),
        Call::Pow10(x) => 10f64.powf(float(x)),
        Call::Sqrt(x) => float(x).sqrt(),
        Call::Hypot(x, y) => float(x).hypot(float(y)),
    })
}

fn show(p: Print) -> String {
    match p {
        Print::Plain(x) => format!("{}", float(x)),
        Print::Fixed3(x) => format!("{:.3}", float(x)),
    }
}

fn truth(t: f64, s: f64) -> f64 {
    (20.0 * t - 12930.0 - 10.0 * s) / (1500.0 - t)
}

fn noise(i: usize) -> f64 {
    [0.03, -0.02, 0.05, -0.04, 0.01, -0.03, 0.02][i % 7]
}

fn obs(id: &str, heat: &str, kind: ObsKind, t: f64, s: f64, y: f64) -> Obs {
    Obs {
        sample_id: id.to_string(),
        heat: heat.to_string(),
        kind,
        temp_k: num(t),
        stress: num(s),
        y_time: num(y),
        segments: vec![],
        variable: false,
    }
}

fn data() -> Vec<Obs> {
    let mut v = vec![];
    let mut n = 0;
    for t in [793.15, 823.15, 853.15, 873.15] {
        for s in [100.0, 150.0, 200.0] {
            let (heat, off) = if n % 2 == 0 { ("HA", 0.0) } else { ("HB", 0.1) };
            let y = truth(t, s) + off + noise(n);
            n += 1;
            v.push(obs(&format!("R-{n:03}"), heat, ObsKind::Exact, t, s, y));
        }
    }
    v.push(obs("R-015", "HA", ObsKind::Censored, 823.15, 90.0, truth(823.15, 90.0) - 0.3));
    v
}

fn config(kind: ModelKind, observations: Vec<Obs>, fixed: Vec<FixedHeat>) -> FitConfig {
    FitConfig {
        kind,
        observations,
        heats: vec!["HA".to_string(), "HB".to_string()],
        reference_heat: "HA".to_string(),
        fixed_heats: fixed,
        shrink_tau: num(0.2),
        allow_temp_k: (num(673.15), num(973.15)),
        allow_stress: (num(40.0), num(320.0)),
    }
}

#[test]
fn right_censored_is_a_lower_bound_not_an_exact_failure() {
    let out = fit(config(ModelKind::LarsonMiller, data(), vec![]), &math, &show).unwrap();
    let find = |id: &str| out.result.residuals.iter().find(|r| r.sample_id == id).unwrap();
    // a fractured sample has a residual
    let fractured = find("R-001");
    assert_eq!(fractured.obs, "exact");
    assert!(fractured.residual_dex.is_some());
    // a censored one has none, but adds to the likelihood
    let censored = find("R-015");
    assert_eq!(censored.obs, "censored");
    assert!(censored.residual_dex.is_none());
    assert!(float(censored.nll_contribution).is_finite());
}

#[test]
fn a_fit_recovers_the_curve() {
    let out = fit(config(ModelKind::LarsonMiller, data(), vec![]), &math, &show).unwrap();
    let r = &out.result;
    assert_eq!(r.model, "larson_miller");
    assert_eq!(r.params.len(), 4);
    assert_eq!(r.params[0].name, "C");
    assert_eq!(float(r.params[0].value), 20.0);
    assert!(r.params[0].fixed && r.params[0].se.is_none());
    assert!(float(r.params[3].value) >= 873.15 + 50.0);
    assert_eq!(float(r.log_likelihood), -float(r.nll));
    let k = out.raw.len() as f64;
    assert_eq!(out.raw.len(), 5);
    assert_eq!(float(r.aic), 2.0 * float(r.nll) + 2.0 * k);
    assert_eq!(float(r.bic), 2.0 * float(r.nll) + k * 13f64.ln());
    assert!(float(r.sigma_dex) < 0.1);
    for row in &r.residuals {
        if let Some(e) = row.residual_dex {
            assert!(float(e).abs() < 0.15, "{}", row.sample_id);
        }
    }
    // the reference has no bias, the other heat about the one it was given
    assert_eq!(r.heat_bias[0].name, "HA");
    assert_eq!(float(r.heat_bias[0].value), 0.0);
    assert!(r.heat_bias[0].fixed);
    assert!((float(r.heat_bias[1].value) - 0.1).abs() < 0.06);
    assert_eq!(r.heat_bias[1].constraint, "层级收缩 τ=0.200 dex");
    assert_eq!(r.internal.heat_index[0].1, -1);
    assert_eq!(r.internal.heat_index[1].1, 0);
    assert_eq!(r.included.len(), 13);
    // every variance is above zero
    for i in 0..out.cov.len() {
        assert!(float(out.cov[i][i]) > 0.0);
    }
}

#[test]
fn a_fixed_heat_keeps_its_bias() {
    let fixed = vec![FixedHeat { heat: "HB".to_string(), bias: num(0.1) }];
    let out = fit(config(ModelKind::LarsonMiller, data(), fixed), &math, &show).unwrap();
    assert_eq!(out.raw.len(), 4);
    assert_eq!(float(out.result.heat_bias[1].value), 0.1);
    assert_eq!(out.result.heat_bias[1].constraint, "用户指定固定偏置");
    assert!(out.result.heat_bias[1].fixed);
}

#[test]
fn variable_loads_enter_by_their_damage() {
    let mut v = data();
    let (a, b) = (truth(823.15, 150.0), truth(853.15, 120.0));
    let mut o = obs("V-001", "HA", ObsKind::Exact, 853.15, 120.0, 3.0);
    o.variable = true;
    o.segments = vec![
        Seg { temp_k: num(823.15), stress: num(150.0), hours: num(0.5 * 10f64.powf(a)) },
        Seg { temp_k: num(853.15), stress: num(120.0), hours: num(0.5 * 10f64.powf(b)) },
    ];
    v.push(o);
    let out = fit(config(ModelKind::LarsonMiller, v, vec![]), &math, &show).unwrap();
    let row = out.result.residuals.last().unwrap();
    assert_eq!(row.sample_id, "V-001");
    assert!(row.variable && row.residual_dex.is_none());
    assert_eq!(float(row.fitted_log10), 0.0);
    assert!(float(row.nll_contribution).is_finite());
}

#[test]
fn custom_model_respects_nonpositive_quadratic_constraints() {
    let out = fit(config(ModelKind::Custom, data(), vec![]), &math, &show).unwrap();
    let get = |name: &str| {
        let p = out.result.params.iter().find(|p| p.name == name).unwrap();
        float(p.value)
    };
    assert!(out.result.converged);
    assert!(get("b2") <= 0.0);
    assert!(get("b4") <= 0.0);
    assert_eq!(out.result.model, "custom");
    assert_eq!(out.result.params.len(), 5);
}

#[test]
fn nothing_to_fit() {
    assert!(fit(config(ModelKind::Custom, vec![], vec![]), &math, &show).is_none());
}

#[test]
fn extrapolation_shows_distance_interval_and_boundary_and_can_be_rejected() {
    let v = data();
    let env = envelope(&v);
    assert_eq!(float(env.temp_min_k), 793.15);
    assert_eq!(float(env.temp_max_k), 873.15);
    assert_eq!(float(env.stress_min_mpa), 90.0);
    assert_eq!(float(env.stress_max_mpa), 200.0);
    let out = fit(config(ModelKind::LarsonMiller, v, vec![]), &math, &show).unwrap();
    let allow_t = (num(673.15), num(973.15));
    let allow_s = (num(40.0), num(320.0));
    let ask = |t: f64, s: f64, heat: Option<&str>| {
        out.predict(
            &math,
            &env,
            ModelKind::LarsonMiller,
            num(t),
            num(s),
            allow_t,
            allow_s,
            heat,
            num(1.959964),
        )
    };
    // inside the envelope
    let p = ask(823.15, 150.0, None);
    assert_eq!(p.risk, "interpolated");
    assert!(p.inside_envelope && p.warning.is_none());
    assert!(float(p.pi_low_h) < float(p.median_h));
    assert!(float(p.median_h) < float(p.pi_high_h));
    assert!((float(p.mean_log10_h) - truth(823.15, 150.0)).abs() < 0.1);
    assert_eq!(float(p.median_h), 10f64.powf(float(p.mean_log10_h)));
    assert!((float(p.pi_level) - 0.95).abs() < 1e-6);
    assert_eq!(float(p.normalized_distance), 0.0);
    // a known heat shifts the mean by its bias
    let q = ask(823.15, 150.0, Some("HB"));
    let bias = float(out.result.heat_bias[1].value);
    assert!((float(q.mean_log10_h) - float(p.mean_log10_h) - bias).abs() < 1e-12);
    let u = ask(823.15, 150.0, Some("HZ"));
    assert_eq!(u.mean_log10_h.to_bits(), p.mean_log10_h.to_bits());
    // outside the envelope, within what is allowed
    let p = ask(953.15, 200.0, None);
    assert!(["low", "medium", "high"].contains(&p.risk.as_str()));
    assert_eq!(float(p.normalized_distance), ((953.15 - 873.15) / (873.15 - 793.15f64)).hypot(0.0));
    assert!(float(p.extrapolation_leverage) >= 0.0);
    assert!(p.boundary_active.iter().any(|b| b == "temp_max"));
    assert!(p.boundary_active.iter().any(|b| b == "stress_max"));
    assert!(p.warning.is_some());
    // beyond what is allowed
    let p = ask(1173.15, 200.0, None);
    assert_eq!(p.risk, "rejected");
    assert!(p.outside_allowed);
}

#[test]
fn risk_grows_with_distance() {
    for (d, want) in [
        (0.0, "interpolated"),
        (1e-9, "interpolated"),
        (0.05, "low"),
        (0.1, "low"),
        (0.2, "medium"),
        (0.4, "medium"),
        (0.41, "high"),
    ] {
        let (word, warning) = risk(false, num(d));
        assert_eq!(word, want);
        assert_eq!(warning.is_none(), want == "interpolated");
    }
    assert_eq!(risk(true, num(0.0)).0, "rejected");
}

#[test]
fn flat_directions_show_as_large_errors() {
    let zero = vec![vec![num(f64::NAN), num(0.0)], vec![num(0.0), num(1.0)]];
    let c = covariance(&zero);
    assert_eq!(float(c[0][0]), 1e6);
    assert_eq!(float(c[1][1]), 1e6);
    assert_eq!(float(c[0][1]), 0.0);
    let fine = vec![vec![num(4.0), num(0.0)], vec![num(0.0), num(1.0)]];
    let c = covariance(&fine);
    assert_eq!(float(c[0][0]), 1.0 / (4.0 + (0.0 * 4.0 + 1e-8)));
}

#[test]
fn a_repeated_fit_is_the_same() {
    let once = || fit(config(ModelKind::LarsonMiller, data(), vec![]), &math, &show).unwrap();
    let (a, b) = (once(), once());
    let bits = |v: &[Real]| v.iter().map(|x| x.to_bits()).collect::<Vec<u64>>();
    assert_eq!(bits(&a.raw), bits(&b.raw));
    assert_eq!(a.result.nll.to_bits(), b.result.nll.to_bits());
    assert_eq!(a.result.bic.to_bits(), b.result.bic.to_bits());
    assert_eq!(a.result.included, b.result.included);
}

fn predict(out: &FitOutput, heat: Option<&str>, z: f64) -> PredictionOut {
    let env = envelope(&data());
    out.predict(
        &math,
        &env,
        ModelKind::LarsonMiller,
        num(823.15),
        num(150.0),
        (num(673.15), num(973.15)),
        (num(40.0), num(320.0)),
        heat,
        num(z),
    )
}

#[test]
fn a_heat_shifts_the_mean_by_its_reported_bias() {
    let fixed = vec![FixedHeat { heat: "HB".to_string(), bias: num(0.25) }];
    for fixed in [vec![], fixed] {
        let out = fit(config(ModelKind::LarsonMiller, data(), fixed), &math, &show).unwrap();
        let plain = float(predict(&out, None, 1.96).mean_log10_h);
        for row in &out.result.heat_bias {
            let shifted = float(predict(&out, Some(row.name.as_str()), 1.96).mean_log10_h);
            assert_eq!(shifted, plain + float(row.value), "{}", row.name);
        }
        assert_eq!(float(predict(&out, Some("HZ"), 1.96).mean_log10_h), plain);
        assert_eq!(float(predict(&out, Some("HA"), 1.96).mean_log10_h), plain);
    }
}

#[test]
fn the_reference_has_no_bias_even_where_one_is_fixed() {
    let fixed = vec![FixedHeat { heat: "HA".to_string(), bias: num(0.3) }];
    let cfg = config(ModelKind::LarsonMiller, data(), fixed);
    let ws = Workspace::build(&cfg, &math);
    let raw = vec![num(1.0), num(2.0), num(3.0), num(0.5), num(-2.0)];
    assert_eq!(ws.ndim(), raw.len());
    assert_eq!(float(ws.heat_bias(0, &raw, &math)), 0.0);
    assert_eq!(float(ws.heat_bias(1, &raw, &math)), 0.5);
    let out = fit(cfg, &math, &show).unwrap();
    let free = fit(config(ModelKind::LarsonMiller, data(), vec![]), &math, &show).unwrap();
    assert_eq!(float(out.result.nll), float(free.result.nll));
    assert_eq!(float(out.result.heat_bias[0].value), 0.0);
}

#[test]
fn a_higher_level_widens_the_interval() {
    let out = fit(config(ModelKind::LarsonMiller, data(), vec![]), &math, &show).unwrap();
    let (a, b) = (predict(&out, Some("HB"), 1.0), predict(&out, Some("HB"), 2.0));
    assert_eq!(float(a.median_h), float(b.median_h));
    assert!(float(b.pi_low_h) < float(a.pi_low_h));
    assert!(float(a.pi_high_h) < float(b.pi_high_h));
    assert!(float(a.pi_level) < float(b.pi_level));
    assert!(float(a.extrapolation_leverage) >= 0.0);
}

#[test]
fn the_statistic_of_a_load() {
    let cfg = config(ModelKind::LarsonMiller, data(), vec![]);
    let ws = Workspace::build(&cfg, &math);
    let p = vec![num(12930.0), num(10.0), num(1500.0)];
    let raw = |b: f64| vec![num(1.0), num(2.0), num(3.0), num(b), num(-2.0)];
    let (t, s, h) = (823.15, 150.0, 640.0f64);
    let flat = obs("R", "HB", ObsKind::Exact, t, s, h.log10());
    let with = |hours: &[f64]| {
        let mut o = obs("V", "HB", ObsKind::Exact, t, s, 0.0);
        o.variable = true;
        o.segments = hours
            .iter()
            .map(|h| Seg { temp_k: num(t), stress: num(s), hours: num(*h) })
            .collect();
        o
    };
    let g = |o: &Obs, b: f64| float(obs_g(&math, &ws, o, &p, &raw(b)));
    let one = with(&[h]);
    assert!((g(&one, 0.1) - g(&flat, 0.1)).abs() < 1e-12);
    assert_eq!(g(&with(&[h / 2.0, h / 2.0]), 0.1), g(&one, 0.1));
    assert!(g(&with(&[h, 1.0]), 0.1) > g(&one, 0.1));
    for o in [&flat, &one] {
        assert!((g(o, 0.1) - g(o, 0.35) - 0.25).abs() < 1e-12);
    }
}

#[test]
fn an_interval_is_strict_and_centred_in_logarithms() {
    let out = fit(config(ModelKind::LarsonMiller, data(), vec![]), &math, &show).unwrap();
    for z in [0.1, 1.0, 1.96, 3.0] {
        let p = predict(&out, Some("HB"), z);
        let (low, mid, high) = (float(p.pi_low_h), float(p.median_h), float(p.pi_high_h));
        assert!(low < mid && mid < high);
        let mean = float(p.mean_log10_h);
        assert!((low.log10() + high.log10() - 2.0 * mean).abs() < 1e-12);
    }
    let p = predict(&out, Some("HB"), 0.0);
    assert_eq!(float(p.pi_low_h), float(p.median_h));
    assert_eq!(float(p.pi_high_h), float(p.median_h));
}

#[test]
fn an_envelope_is_the_smallest_box() {
    let mut v = data();
    v[3].segments = vec![Seg { temp_k: num(780.0), stress: num(260.0), hours: num(10.0) }];
    let e = envelope(&v);
    assert_eq!((float(e.temp_min_k), float(e.temp_max_k)), (780.0, 873.15));
    assert_eq!((float(e.stress_min_mpa), float(e.stress_max_mpa)), (90.0, 260.0));
}

#[test]
fn a_workspace_is_built_where_a_heat_is_unknown() {
    let mut v = data();
    v[0].heat = "HZ".to_string();
    let cfg = config(ModelKind::LarsonMiller, v, vec![]);
    let ws = Workspace::build(&cfg, &math);
    assert_eq!(ws.ndim(), 5);
}

#[test]
fn a_load_may_be_cut_and_its_segments_moved() {
    let cfg = config(ModelKind::LarsonMiller, data(), vec![]);
    let ws = Workspace::build(&cfg, &math);
    let p = vec![num(12930.0), num(10.0), num(1500.0)];
    let raw = |b: f64| vec![num(1.0), num(2.0), num(3.0), num(b), num(-2.0)];
    let load = |segs: &[(f64, f64, f64)]| {
        let mut o = obs("V", "HB", ObsKind::Exact, 823.15, 150.0, 0.0);
        o.variable = true;
        o.segments = segs
            .iter()
            .map(|(t, s, h)| Seg { temp_k: num(*t), stress: num(*s), hours: num(*h) })
            .collect();
        o
    };
    let g = |o: &Obs, b: f64| float(obs_g(&math, &ws, o, &p, &raw(b)));
    let (x, y, z) = ((823.15, 150.0, 640.0), (853.15, 120.0, 96.0), (793.15, 200.0, 17.0));
    let whole = load(&[x, y, z]);
    let at = g(&whole, 0.1);
    for part in [1.0, 7.5, 33.0, 95.875] {
        let cut = load(&[x, (y.0, y.1, part), (y.0, y.1, y.2 - part), z]);
        assert!((g(&cut, 0.1) - at).abs() < 1e-13, "{part}");
    }
    for moved in [[z, y, x], [y, x, z], [z, x, y]] {
        assert!((g(&load(&moved), 0.1) - at).abs() < 1e-13);
    }
    for b in [-0.4, 0.0, 0.35, 1.2] {
        assert!((at - g(&whole, b) - (b - 0.1)).abs() < 1e-12, "{b}");
    }
}
