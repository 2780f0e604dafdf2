use mastercurve::fit::covariance::{cov_estimate, leverage_for};
use mastercurve::fit::master::{clamp, logit, map_param, sigmoid, MasterModel};
use mastercurve::fit::problem::{evaluate, Problem};
use mastercurve::fit::run::{early_error, fit, risk};
use mastercurve::fit::select::select_specimens;
use mastercurve::fit::target::{check_target, target_kelvin};
use mastercurve::fit::{default_shrink, FitRequest, FitResult, TargetIn};
use mastercurve::host::{Call, Print};
use mastercurve::number::Real;
use mastercurve::specimen::{from_store, Segment, SegmentIn, Specimen, SpecimenIn};

fn num(x: f64) -> Real {
    Real::from_bits(x.to_bits())
}

fn float(x: Real) -> f64 {
    f64::from_bits(x.to_bits())
}

fn math(c: Call) -> Real {
    num(match c {
        Call::Exp(x) => float(x).exp(),
        Call::Ln(x) => float(x).ln(),
        Call::Log10(x) => float(x).log10(),
        Call::Pow10(x) => 10f64.powf(float(x)),
        Call::Sqrt(x) => float(x).sqrt(),
        Call::Hypot(x, y) => float(x).hypot(float(y)),
    })
}

fn show(p: Print) -> String {
    match p {
        Print::Plain(x) => format!("{}", float(x)),
        Print::Fixed3(x) => format!("{:.3}", float(x)),
    }
}

fn base() -> SpecimenIn {
    SpecimenIn {
        specimen_id: "U1".to_string(),
        heat: "A".to_string(),
        temp_value: num(550.0),
        temp_unit: None,
        stress_mpa: Some(num(100.0)),
        time_h: num(100.0),
        outcome: "ruptured".to_string(),
        criterion: "rupture".to_string(),
        variable: false,
        segments: vec![],
        note: None,
    }
}

#[test]
fn temperature_units_are_validated_at_ingest() {
    // without a unit: refused, not guessed
    let err = base().validate().unwrap_err();
    assert!(err.message().contains("缺少温度单位"), "{}", err.message());

    // C and K are converted where they are given
    let mut c = base();
    c.temp_unit = Some("C".to_string());
    let specimen_c = c.validate().unwrap();
    assert!((float(specimen_c.temp_kelvin) - 823.15).abs() < 1e-9);

    let mut k = base();
    k.temp_value = num(823.15);
    k.temp_unit = Some("K".to_string());
    let specimen_k = k.validate().unwrap();
    assert!((float(specimen_k.temp_c) - 550.0).abs() < 1e-9);

    // any other unit
    let mut f = base();
    f.temp_unit = Some("F".to_string());
    assert!(f.validate().unwrap_err().message().contains("仅支持 C/K"));

    // the durations of the segments make up the time
    let mut v = base();
    v.specimen_id = "V9".to_string();
    v.temp_unit = Some("C".to_string());
    v.stress_mpa = None;
    v.variable = true;
    v.segments = vec![
        SegmentIn { stress_mpa: num(120.0), duration_h: num(40.0) },
        SegmentIn { stress_mpa: num(90.0), duration_h: num(50.0) },
    ];
    assert!(v.validate().unwrap_err().message().contains("时长之和"));
    v.segments[1].duration_h = num(60.0);
    let made = v.validate().unwrap();
    assert_eq!(made.segments.len(), 2);
    assert_eq!(float(made.segments[1].temp_kelvin), 550.0 + 273.15);
}

#[test]
fn every_fault_of_a_specimen_is_named() {
    let fault = |change: &dyn Fn(&mut SpecimenIn)| {
        let mut s = base();
        s.temp_unit = Some("C".to_string());
        change(&mut s);
        s.validate().unwrap_err().message().to_string()
    };
    assert_eq!(fault(&|s| s.temp_value = num(-300.0)), "U1: 摄氏度非法");
    assert_eq!(
        fault(&|s| {
            s.temp_unit = Some("K".to_string());
            s.temp_value = num(0.0);
        }),
        "U1: 开尔文非法"
    );
    assert_eq!(
        fault(&|s| s.temp_unit = Some("°F\"".to_string())),
        "U1: 温度单位 \"°F\\\"\" 不支持，仅支持 C/K"
    );
    assert_eq!(fault(&|s| s.time_h = num(f64::NAN)), "U1: 时间须为正");
    assert!(fault(&|s| s.outcome = "lost".to_string()).contains("结局"));
    assert_eq!(fault(&|s| s.stress_mpa = None), "U1: 恒载样本应力须为正");
    assert_eq!(fault(&|s| s.stress_mpa = Some(num(0.0))), "U1: 恒载样本应力须为正");
    assert_eq!(fault(&|s| s.variable = true), "U1: 变载样本缺少载荷段");
    assert_eq!(
        fault(&|s| {
            s.variable = true;
            s.segments = vec![SegmentIn { stress_mpa: num(-1.0), duration_h: num(100.0) }];
        }),
        "U1: 载荷段应力与时长须为正"
    );
}

#[test]
fn specimens_come_back_from_the_store() {
    let s = from_store(
        7,
        "X".to_string(),
        "A".to_string(),
        num(823.15),
        None,
        num(10.0),
        "censored".to_string(),
        "rupture".to_string(),
        1,
        None,
        Some("n".to_string()),
    );
    assert_eq!(s.id, 7);
    assert!(s.variable && s.segments.is_empty());
    assert_eq!(float(s.temp_c), 823.15 - 273.15);
}

fn life(t: f64, s: f64) -> f64 {
    (19500.0 - 13.0 * s + 0.01 * s * s) / t - 20.0
}

fn specimen(id: &str, heat: &str, tc: f64, s: f64, y: f64, outcome: &str, criterion: &str) -> Specimen {
    let k = tc + 273.15;
    Specimen {
        id: 0,
        specimen_id: id.to_string(),
        heat: heat.to_string(),
        temp_kelvin: num(k),
        temp_c: num(tc),
        stress_mpa: Some(num(s)),
        time_h: num(10f64.powf(y)),
        outcome: outcome.to_string(),
        criterion: criterion.to_string(),
        variable: false,
        segments: vec![Segment {
            temp_kelvin: num(k),
            stress_mpa: num(s),
            duration_h: num(10f64.powf(y)),
        }],
        note: None,
    }
}

fn noise(i: usize) -> f64 {
    [0.03, -0.02, 0.05, -0.04, 0.01, -0.03, 0.02][i % 7]
}

fn data() -> Vec<Specimen> {
    let mut v = vec![];
    let mut n = 0;
    for tc in [520.0, 560.0, 600.0] {
        for s in [60.0, 90.0, 120.0, 160.0] {
            let (heat, off) = if n % 3 == 2 { ("B", 0.15) } else { ("A", 0.0) };
            let y = life(tc + 273.15, s) + off + noise(n);
            n += 1;
            v.push(specimen(&format!("R{n:02}"), heat, tc, s, y, "ruptured", "rupture"));
        }
    }
    let y = life(560.0 + 273.15, 70.0) - 0.2;
    v.push(specimen("C01", "A", 560.0, 70.0, y, "censored", "rupture"));
    v.push(specimen("S01", "A", 560.0, 70.0, 2.0, "ruptured", "strain_1pct"));
    let mut w = specimen("V01", "B", 560.0, 100.0, 3.0, "ruptured", "rupture");
    let (a, b) = (life(560.0 + 273.15, 100.0), life(600.0 + 273.15, 80.0));
    w.variable = true;
    w.stress_mpa = None;
    w.segments = vec![
        Segment {
            temp_kelvin: num(560.0 + 273.15),
            stress_mpa: num(100.0),
            duration_h: num(0.6 * 10f64.powf(a)),
        },
        Segment {
            temp_kelvin: num(600.0 + 273.15),
            stress_mpa: num(80.0),
            duration_h: num(0.6 * 10f64.powf(b)),
        },
    ];
    v.push(w);
    v
}

fn target(t: f64, s: f64, heat: Option<&str>) -> TargetIn {
    TargetIn {
        temp_value: num(t),
        temp_unit: Some("C".to_string()),
        stress_mpa: num(s),
        heat: heat.map(|h| h.to_string()),
    }
}

fn request(model: &str, damage: bool, targets: Vec<TargetIn>) -> FitRequest {
    FitRequest {
        model: model.to_string(),
        criterion: "rupture".to_string(),
        damage_model: damage,
        shrink: num(1.0),
        min_temp_c: Some(num(480.0)),
        max_temp_c: Some(num(625.0)),
        min_stress_mpa: Some(num(35.0)),
        max_stress_mpa: Some(num(210.0)),
        targets,
        name: None,
    }
}

fn run(req: &FitRequest) -> FitResult {
    match fit(&data(), req, &math, &show) {
        Ok(r) => r,
        Err(e) => panic!("{}", e.message()),
    }
}

fn refused(req: &FitRequest) -> String {
    match fit(&data(), req, &math, &show) {
        Ok(_) => panic!("accepted"),
        Err(e) => e.message().to_string(),
    }
}

#[test]
fn a_request_is_fitted_and_its_targets_predicted() {
    let r = run(&request(
        "LM",
        false,
        vec![
            target(560.0, 100.0, Some("A")),
            target(620.0, 50.0, Some("A")),
            target(650.0, 30.0, Some("A")),
            target(560.0, 100.0, Some("Z")),
        ],
    ));
    assert_eq!(r.n_included, 13);
    assert_eq!(r.n_ruptured, 12);
    assert_eq!(r.n_censored, 1);
    assert_eq!(r.n_variable, 0);
    assert_eq!(r.n_free_params, 6);
    assert_eq!(r.envelope.n_temps, 3);
    assert_eq!(r.envelope.heats, vec!["A".to_string(), "B".to_string()]);
    assert_eq!(float(r.envelope.min_stress_mpa), 60.0);
    assert_eq!(float(r.envelope.max_stress_mpa), 160.0);
    assert_eq!(float(r.leverage_cutoff), (2.0 * 6.0 / 13.0 * 10000.0f64).round() / 10000.0);
    // names and bounds of the parameters
    let names: Vec<&str> = r.params.iter().map(|p| p.name.as_str()).collect();
    assert_eq!(names, ["C_LM", "a0", "a1", "a2"]);
    assert!((float(r.params[0].value) - 20.0).abs() < 6.0);
    // the base heat has no offset
    assert_eq!(r.heat_offsets[0].name, "heat_bias[A]");
    assert_eq!(float(r.heat_offsets[0].value), 0.0);
    assert_eq!(r.heat_offsets[1].name, "heat_bias[B]");
    assert!(float(r.heat_offsets[1].value) > 0.0);
    assert_eq!(r.heat_offsets[1].note, "相对基准炉次 A 的 log10(h) 偏移，岭收缩 λ=1");
    // every specimen is accounted for
    assert_eq!(r.inclusion.len(), 15);
    let left: Vec<&str> = r
        .inclusion
        .iter()
        .filter(|i| !i.included)
        .map(|i| i.specimen_id.as_str())
        .collect();
    assert_eq!(left, ["S01", "V01"]);
    assert!(r.inclusion[13].reason.contains("strain_1pct"));
    assert_eq!(r.inclusion[0].reason, "纳入");
    // residuals: none for a censored specimen
    for row in &r.residuals {
        assert_eq!(row.residual.is_none(), row.censored);
        assert_eq!(row.censor_tail_probability.is_some(), row.censored);
    }
    assert_eq!(r.censoring.n_censored, 1);
    assert_eq!(r.censoring.entries.len(), 1);
    assert_eq!(r.censoring.entries[0].specimen_id, "C01");
    let p = float(r.censoring.entries[0].survival_probability_at_stop.unwrap());
    assert!(p > 0.0 && p <= 1.0);
    // inside the envelope
    let p = &r.predictions[0];
    assert!(p.within_envelope && p.allowed && p.blocked_by.is_none());
    assert_eq!(float(p.distance_temp_c), 0.0);
    assert_eq!(float(p.input.temp_kelvin), 833.15);
    let want = 10f64.powf(life(833.15, 100.0));
    assert!((float(p.median_h) / want - 1.0).abs() < 0.3);
    assert!(float(p.pi_low_h) < float(p.median_h));
    assert!(float(p.median_h) < float(p.pi_high_h));
    // outside the envelope, within what is allowed
    let p = &r.predictions[1];
    assert!(!p.within_envelope && p.allowed);
    assert_eq!(float(p.distance_temp_c), 20.0);
    assert_eq!(float(p.distance_stress_mpa), 10.0);
    // beyond what is allowed
    let p = &r.predictions[2];
    assert!(!p.allowed);
    assert_eq!(p.risk, "high");
    let words = p.blocked_by.clone().unwrap();
    assert!(words.contains("温度上限 625°C") && words.contains("应力下限 35MPa"), "{words}");
    // a heat that is not known is named, and widens the interval
    let p = &r.predictions[3];
    assert!(p.boundary_active.iter().any(|b| b.contains("炉次 Z 未在训练数据中")));
    assert!(p.allowed);
    assert!(float(p.pi_high_h) > float(r.predictions[0].pi_high_h));
}

#[test]
fn a_damage_model_adds_variable_loads() {
    let on = run(&request("LM", true, vec![]));
    assert_eq!(on.n_included, 14);
    assert_eq!(on.n_variable, 1);
    let row = on.residuals.last().unwrap();
    assert_eq!(row.specimen_id, "V01");
    assert!(row.variable && row.residual.is_none() && row.std_residual.is_some());
    assert!(row.observed.starts_with("D=1，t="));
    let d = float(row.cumulative_damage.unwrap());
    assert!(d > 0.3 && d < 3.0, "{d}");
    let all = data();
    let (with, _) = select_specimens(&all, "rupture", true);
    let (without, _) = select_specimens(&all, "rupture", false);
    assert_eq!(with.len(), without.len() + 1);
}

#[test]
fn the_other_form_fits_too() {
    let r = run(&request("CX", false, vec![target(560.0, 100.0, None)]));
    let names: Vec<&str> = r.params.iter().map(|p| p.name.as_str()).collect();
    assert_eq!(names, ["beta", "gamma", "q", "alpha"]);
    // the curve is in the log10 of the stress
    assert!((float(r.residuals[0].x) - 60f64.log10()).abs() < 1e-12);
    assert_eq!(r.predictions[0].heat, "A");
}

#[test]
fn requests_are_refused_with_reasons() {
    let mut r = request("LM", false, vec![]);
    r.min_temp_c = Some(num(700.0));
    assert_eq!(refused(&r), "应力外推边界不合法");
    assert_eq!(
        refused(&request("XX", false, vec![])),
        "未知模型 \"XX\"，仅支持 LM（Larson-Miller）或 CX（自定义受限形式）"
    );
    let mut r = request("LM", false, vec![]);
    r.criterion = "strain_1pct".to_string();
    let words = refused(&r);
    assert!(words.contains("至少需要 4") && words.contains("仅有 1 个"), "{words}");
}

#[test]
fn targets_are_refused_with_reasons() {
    let mut t = target(550.0, 100.0, None);
    assert_eq!(float(check_target(&t, 1).unwrap()), 550.0 + 273.15);
    t.temp_unit = None;
    assert_eq!(target_kelvin(&t, 3).unwrap_err(), "目标 3: 缺少温度单位，拒绝猜测");
    t.temp_unit = Some("F".to_string());
    assert_eq!(target_kelvin(&t, 1).unwrap_err(), "目标 1: 温度单位 \"F\" 不支持（仅 C/K）");
    t.temp_unit = Some(" K ".to_string());
    assert_eq!(float(target_kelvin(&t, 1).unwrap()), 550.0);
    t.temp_value = num(-1.0);
    assert_eq!(target_kelvin(&t, 1).unwrap_err(), "目标 1: 开尔文非法");
    t.temp_unit = Some("C".to_string());
    t.temp_value = num(-273.15);
    assert_eq!(target_kelvin(&t, 2).unwrap_err(), "目标 2: 摄氏度非法");
    let t = target(550.0, 0.0, None);
    assert_eq!(check_target(&t, 2).unwrap_err(), "目标 2: 应力须为正");
}

#[test]
fn bounds_of_a_request() {
    let mut r = request("LM", false, vec![]);
    assert!(r.bounds_ok());
    r.max_temp_c = Some(num(480.0));
    assert!(!r.bounds_ok());
    r.max_temp_c = None;
    assert!(r.bounds_ok());
    r.max_stress_mpa = Some(num(f64::INFINITY));
    assert!(!r.bounds_ok());
    assert_eq!(float(default_shrink()), 1.0);
}

#[test]
fn searched_values_stay_within_bounds() {
    assert_eq!(float(sigmoid(&math, num(0.0))), 0.5);
    assert_eq!(float(logit(&math, num(0.5))), 0.0);
    assert_eq!(float(clamp(num(-40.0), num(-35.0), num(35.0))), -35.0);
    assert_eq!(float(clamp(num(40.0), num(-35.0), num(35.0))), 35.0);
    assert_eq!(float(map_param(&math, num(0.0), num(-2.0), num(2.0))), 0.0);
    for u in [-100.0, -3.0, 0.2, 100.0] {
        let p = float(map_param(&math, num(u), num(10.0), num(30.0)));
        assert!((10.0..=30.0).contains(&p));
    }
    assert!(MasterModel::parse("LM") == Some(MasterModel::Lm));
    assert!(MasterModel::parse("lm").is_none());
    let m: Vec<Real> = [20.0, 19500.0, -13.0, 0.01].iter().map(|x| num(*x)).collect();
    assert_eq!(
        float(MasterModel::Lm.mean(&m, num(823.15), num(100.0))),
        (19500.0 + -13.0 * 100.0 + 0.01 * 100.0 * 100.0) / 823.15 - 20.0
    );
    let c: Vec<Real> = [1.0, -2.0, 0.5, 300.0].iter().map(|x| num(*x)).collect();
    assert_eq!(
        float(MasterModel::Cx.mean(&c, num(800.0), num(2.0))),
        1.0 + -2.0 * 2.0 + 0.5 * 0.5 * 2.0 * 2.0 + 300.0 / 800.0
    );
    let g = MasterModel::Lm.grad_mean(num(800.0), num(100.0));
    assert_eq!(float(g[3]), 100.0 * 100.0 / 800.0);
}

#[test]
fn covariances_never_hold_a_negative_variance() {
    let h = vec![vec![num(-1.0), num(0.0)], vec![num(0.0), num(2.0)]];
    let (c, exact) = cov_estimate(&h);
    assert!(!exact);
    assert!(float(c[0][0]) >= 0.0 && float(c[1][1]) >= 0.0);
    let h = vec![vec![num(4.0), num(0.0)], vec![num(0.0), num(2.0)]];
    let (c, exact) = cov_estimate(&h);
    assert!(exact);
    assert_eq!(float(c[0][0]), 0.25);
    let h = vec![vec![num(f64::NAN)]];
    let (c, exact) = cov_estimate(&h);
    assert!(!exact && c[0][0].is_nan());
}

#[test]
fn risk_of_a_target() {
    let low = |within: bool, d: f64, lev: f64, bound: bool| {
        risk(within, num(d), num(lev), num(1.0), bound)
    };
    assert_eq!(low(true, 0.0, 0.5, false), "low");
    assert_eq!(low(false, 0.2, 0.5, false), "medium");
    assert_eq!(low(false, 0.25, 0.5, false), "high");
    assert_eq!(low(true, 0.0, 1.5, false), "high");
    assert_eq!(low(true, 0.0, 0.5, true), "high");
    assert_eq!(low(true, 0.0, f64::NAN, false), "low");
}

#[test]
fn a_shrinkage_that_cannot_be_used_falls_back() {
    let mut r = request("LM", false, vec![]);
    r.shrink = num(-1.0);
    let out = run(&r);
    assert_eq!(float(out.shrink), 1.0);
    assert_eq!(out.warnings[0], "shrink 非法，回退为 1.0");
}

#[test]
fn a_rerun_gives_the_same_numbers() {
    let req = request("LM", true, vec![target(550.0, 150.0, None)]);
    let (a, b) = (run(&req), run(&req));
    assert_eq!(a.aic.to_bits(), b.aic.to_bits());
    assert_eq!(a.log_likelihood.to_bits(), b.log_likelihood.to_bits());
    assert_eq!(a.params.len(), b.params.len());
    for (p, q) in a.params.iter().zip(&b.params) {
        assert_eq!(p.value.to_bits(), q.value.to_bits());
    }
    assert_eq!(a.predictions[0].median_h.to_bits(), b.predictions[0].median_h.to_bits());
    assert_eq!(a.predictions[0].risk, b.predictions[0].risk);
}

#[test]
fn what_can_be_refused_early_is() {
    assert!(early_error(&data(), &request("LM", false, vec![])).is_none());
    let unknown = request("XX", false, vec![]);
    let e = early_error(&data(), &unknown).unwrap();
    assert_eq!(e.message(), refused(&unknown));
    let e = early_error(&vec![], &request("LM", false, vec![])).unwrap();
    assert!(!e.message().is_empty());
}

#[test]
fn what_is_allowed_does_not_hang_on_the_name_of_a_heat() {
    let r = run(&request(
        "LM",
        false,
        vec![
            target(560.0, 100.0, Some("上限")),
            target(560.0, 100.0, Some("下限")),
            target(650.0, 100.0, Some("上限")),
        ],
    ));
    for p in &r.predictions[..2] {
        assert!(p.allowed && p.blocked_by.is_none());
        assert!(p.boundary_active.iter().any(|b| b.contains("未在训练数据中")));
    }
    assert!(!r.predictions[2].allowed);
    assert!(r.predictions[2].blocked_by.clone().unwrap().contains("温度上限 625°C"));
}

fn problem() -> Problem {
    Problem {
        model: MasterModel::Lm,
        n_master: 4,
        n_heat: 1,
        shrink: num(1.0),
        heats: vec!["A".to_string(), "B".to_string()],
        x_is_log: false,
    }
}

#[test]
fn censored_specimens_count_by_their_survival() {
    let u: Vec<Real> = vec![num(0.0), num(0.0), num(0.0), num(0.0), num(0.4), num(-3.0)];
    let prob = problem();
    let mut last = 0.0;
    for y in [-8.0, -4.0, 0.0, 2.0, 4.0, 6.0, 9.0, 14.0] {
        let s = specimen("C01", "A", 560.0, 100.0, y, "censored", "rupture");
        let e = evaluate(&math, &show, &prob, &vec![&s], &u);
        let row = &e.rows[0];
        assert!(row.residual.is_none() && row.std_residual.is_none());
        let w = float(row.contribution);
        let q = float(row.censor_tail_probability.unwrap());
        assert!(w <= last, "{y}: {w} after {last}");
        assert!((0.0..=1.0).contains(&q));
        assert!((q - w.exp()).abs() < 1e-9);
        last = w;
    }
    assert!(last < -20.0);
    // a load that has done next to no damage is sure to survive
    let mut v = specimen("V01", "A", 560.0, 100.0, 0.0, "censored", "rupture");
    v.variable = true;
    v.segments = vec![Segment { duration_h: num(1e-6), ..v.segments[0] }];
    let e = evaluate(&math, &show, &prob, &vec![&v], &u);
    assert!(float(e.rows[0].censor_tail_probability.unwrap()) > 0.999);
}

#[test]
fn evaluations_join() {
    let u: Vec<Real> = vec![num(0.1), num(-0.2), num(0.3), num(0.0), num(0.4), num(-1.0)];
    let prob = problem();
    let all = data();
    let a: Vec<&Specimen> = all[..5].iter().collect();
    let b: Vec<&Specimen> = all[5..].iter().collect();
    let ab: Vec<&Specimen> = all.iter().collect();
    let (ea, eb, eab) = (
        evaluate(&math, &show, &prob, &a, &u),
        evaluate(&math, &show, &prob, &b, &u),
        evaluate(&math, &show, &prob, &ab, &u),
    );
    assert_eq!(eab.rows.len(), all.len());
    for (i, row) in ea.rows.iter().chain(&eb.rows).enumerate() {
        assert_eq!(row.specimen_id, eab.rows[i].specimen_id);
        assert_eq!(row.contribution.to_bits(), eab.rows[i].contribution.to_bits());
    }
    let mut sum = 0.0;
    for row in &eab.rows {
        sum += -float(row.contribution);
    }
    assert_eq!(float(eab.logl), -sum);
    assert_eq!(float(eab.nll), sum + float(prob.penalty(&math, &u)));
}

#[test]
fn leverage_is_never_negative() {
    let prob = problem();
    let all = data();
    let refs: Vec<&Specimen> = all.iter().collect();
    assert!(float(leverage_for(&math, &prob, &refs, num(833.15), num(100.0))) >= 0.0);
    assert!(leverage_for(&math, &prob, &vec![], num(833.15), num(100.0)).is_nan());
}

#[test]
fn leverages_of_the_training_segments_add_up() {
    let prob = problem();
    let all = data();
    let refs: Vec<&Specimen> = all.iter().collect();
    let mut sum = 0.0;
    for s in &all {
        for g in &s.segments {
            let h = float(leverage_for(&math, &prob, &refs, g.temp_kelvin, g.stress_mpa));
            assert!((0.0..=1.0 + 1e-3).contains(&h), "{}: {h}", s.id);
            sum += h;
        }
    }
    assert!((sum - 4.0).abs() < 1e-3, "{sum}");
}
