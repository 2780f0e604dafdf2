use mastercurve::host::Print;
use mastercurve::ingest::{to_celsius, validate, validate_all, Sample, SegmentIn};
use mastercurve::number::Real;
use mastercurve::stats::select::select_observations;
use mastercurve::models::ModelKind;
use mastercurve::stats::engine::fit;
use mastercurve::stats::{FitConfig, ObsKind};
use mastercurve::host::Call;

fn num(x: f64) -> Real {
    Real::from_bits(x.to_bits())
}

fn float(x: Real) -> f64 {
    f64::from_bits(x.to_bits())
}

fn show(p: Print) -> String {
    match p {
        Print::Plain(x) => format!("{}", float(x)),
        Print::Fixed3(x) => format!("{:.3}", float(x)),
    }
}

fn math(c: Call) -> Real {
    num(match c {
        Call::Exp(x) => float(x).exp(),
        Call::Ln(x) => float(x).ln(),
        Call::Log10(x) => float(x).log10(),
        Call::Pow10(x) => 10f64.powf(float(x)),
        Call::Sqrt(x) => float(x).sqrt(),
        Call::Hypot(x, y) => float(x).hypot(float(y)),
    })
}

fn constant(id: &str, criterion: &str, unit: Option<&str>, value: f64, status: &str) -> Sample {
    Sample {
        id: id.to_string(),
        heat: "HA".to_string(),
        criterion: criterion.to_string(),
        load_kind: "constant".to_string(),
        temp_value: Some(num(value)),
        temp_unit: unit.map(|u| u.to_string()),
        stress_mpa: Some(num(150.0)),
        time_h: num(1000.0),
        status: status.to_string(),
        segments: vec![],
        note: String::new(),
    }
}

fn variable(id: &str) -> Sample {
    let mut s = constant(id, "rupture", None, 550.0, "fractured");
    s.load_kind = "variable".to_string();
    s.temp_value = None;
    s.stress_mpa = None;
    s.segments = vec![
        SegmentIn {
            temp_value: num(550.0),
            temp_unit: "C".to_string(),
            stress_mpa: num(150.0),
            hours_h: num(400.0),
        },
        SegmentIn {
            temp_value: num(853.15),
            temp_unit: "K".to_string(),
            stress_mpa: num(120.0),
            hours_h: num(600.0),
        },
    ];
    s
}

fn words<T>(r: Result<T, String>) -> String {
    match r {
        Ok(_) => panic!("accepted"),
        Err(e) => e,
    }
}

#[test]
fn temperature_unit_is_required_and_validated() {
    let missing = constant("BAD1", "rupture", None, 550.0, "fractured");
    let e = words(validate(&missing, &mut vec![], &show));
    assert!(e.contains("温度单位"), "{e}");

    // 823.15 K is 550 °C
    let kelvin = constant("K1", "rupture", Some("K"), 823.15, "fractured");
    let v = validate(&kelvin, &mut vec![], &show).unwrap();
    assert!((float(v.temp_c.unwrap()) - 550.0).abs() < 1e-6);
    assert!((float(v.temp_k.unwrap()) - 823.15).abs() < 1e-9);
}

#[test]
fn units_are_read_in_any_case() {
    for unit in ["C", " c ", "°C", "K", "kelvin"] {
        let c = to_celsius(num(600.0), Some(unit), "x", &show).unwrap();
        let want = if unit.trim().to_uppercase().starts_with('K') {
            600.0 - 273.15
        } else {
            600.0
        };
        assert_eq!(float(c), want, "{unit}");
    }
    assert!(to_celsius(num(600.0), Some("C"), "x", &show).is_ok());
    assert!(to_celsius(num(600.0), Some("K"), "x", &show).is_ok());
    assert!(to_celsius(num(600.0), Some("F"), "x", &show).is_err());
    assert!(to_celsius(num(600.0), None, "x", &show).is_err());
    assert!(to_celsius(num(5000.0), Some("C"), "x", &show).is_err());
    assert!(to_celsius(num(5.0), Some("K"), "x", &show).is_err());
}

#[test]
fn every_fault_of_a_sample_is_named() {
    let mut known = vec![];
    let mut s = constant(" ", "rupture", Some("C"), 550.0, "fractured");
    assert!(words(validate(&s, &mut known, &show)).contains("id"));
    s = constant("A", "rupture", Some("C"), 550.0, "broken");
    assert!(validate(&s, &mut vec![], &show).is_err());
    s = constant("A", "rupture", Some("C"), 550.0, "fractured");
    s.time_h = num(0.0);
    assert!(words(validate(&s, &mut vec![], &show)).contains("time_h"));
    s = constant("A", "rupture", Some("C"), 550.0, "fractured");
    s.load_kind = "cyclic".to_string();
    assert!(validate(&s, &mut vec![], &show).is_err());
    s = constant("A", "rupture", Some("C"), 550.0, "fractured");
    s.stress_mpa = Some(num(-1.0));
    assert!(validate(&s, &mut vec![], &show).is_err());
    s.stress_mpa = None;
    assert!(validate(&s, &mut vec![], &show).is_err());
    let mut v = variable("V");
    v.segments[1].hours_h = num(0.0);
    assert!(validate(&v, &mut vec![], &show).is_err());
    v.segments.clear();
    assert!(validate(&v, &mut vec![], &show).is_err());
}

#[test]
fn ids_are_taken_once() {
    let s = constant("A", "rupture", Some("C"), 550.0, "fractured");
    let mut known = vec![];
    assert!(validate(&s, &mut known, &show).is_ok());
    assert_eq!(known, vec!["A".to_string()]);
    assert!(words(validate(&s, &mut known, &show)).contains("A"));
    let twice = vec![
        constant("A", "rupture", Some("C"), 550.0, "fractured"),
        constant("B", "rupture", Some("C"), 550.0, "fractured"),
        constant("A", "rupture", Some("C"), 550.0, "fractured"),
    ];
    assert!(validate_all(&twice, &show).is_err());
    let fine = vec![
        constant("A", "rupture", Some("C"), 550.0, "fractured"),
        variable("V"),
    ];
    let stored = validate_all(&fine, &show).unwrap();
    assert_eq!(stored.len(), 2);
    assert_eq!(stored[1].segments.len(), 2);
    assert_eq!(float(stored[1].segments[1].temp_c), 853.15 - 273.15);
    assert!(stored[1].temp_c.is_none());
}

#[test]
fn damage_toggle_changes_inclusion_set() {
    let all = vec![
        constant("R-001", "rupture", Some("C"), 550.0, "fractured"),
        variable("V-001"),
        constant("S-001", "strain2pct", Some("C"), 550.0, "fractured"),
        constant("R-015", "rupture", Some("C"), 550.0, "censored"),
        variable("V-002"),
        constant("S-004", "strain2pct", Some("C"), 550.0, "fractured"),
    ];
    let stored = validate_all(&all, &show).unwrap();
    let (off, dropped_off) = select_observations(&stored, "rupture", false, &math);
    let (on, dropped_on) = select_observations(&stored, "rupture", true, &math);
    let ids_off: Vec<&str> = off.iter().map(|o| o.sample_id.as_str()).collect();
    let ids_on: Vec<&str> = on.iter().map(|o| o.sample_id.as_str()).collect();
    assert_eq!(ids_off, ["R-001", "R-015"]);
    assert_eq!(ids_on, ["R-001", "V-001", "R-015", "V-002"]);
    for id in ["S-001", "S-004"] {
        assert!(!ids_off.contains(&id) && !ids_on.contains(&id));
        assert!(dropped_on.iter().any(|d| d.0 == id && d.1.contains("strain2pct")));
    }
    assert!(dropped_off.iter().any(|d| d.0 == "V-001" && d.1.contains("变载")));
    assert_eq!(off.len() + dropped_off.len(), all.len());
    assert_eq!(on.len() + dropped_on.len(), all.len());
    assert_eq!(on[0].kind, ObsKind::Exact);
    assert_eq!(on[2].kind, ObsKind::Censored);
    assert_eq!(float(on[0].y_time), 3.0);
    assert_eq!(float(on[0].temp_k), 550.0 + 273.15);
    // a variable load stands at its last segment
    assert_eq!(float(on[1].stress), 120.0);
    assert_eq!(float(on[1].temp_k), (853.15 - 273.15) + 273.15);
    // with enough samples both sets are fitted
    let mut many = vec![];
    let noise = [0.03, -0.02, 0.05, -0.04, 0.01, -0.03, 0.02];
    for (i, t) in [793.15, 823.15, 853.15, 873.15].iter().enumerate() {
        for (j, s) in [100.0, 150.0, 200.0].iter().enumerate() {
            let mut c = constant(&format!("G-{i}{j}"), "rupture", Some("K"), *t, "fractured");
            c.stress_mpa = Some(num(*s));
            let y = (20.0 * t - 12930.0 - 10.0 * s) / (1500.0 - t) + noise[(3 * i + j) % 7];
            c.time_h = num(10f64.powf(y));
            many.push(c);
        }
    }
    many.extend(all);
    let stored = validate_all(&many, &show).unwrap();
    for damage in [false, true] {
        let (observations, _) = select_observations(&stored, "rupture", damage, &math);
        let ids: Vec<String> = observations.iter().map(|o| o.sample_id.clone()).collect();
        let cfg = FitConfig {
            kind: ModelKind::LarsonMiller,
            observations,
            heats: vec!["HA".to_string()],
            reference_heat: "HA".to_string(),
            fixed_heats: vec![],
            shrink_tau: num(0.2),
            allow_temp_k: (num(673.15), num(973.15)),
            allow_stress: (num(40.0), num(320.0)),
        };
        let out = fit(cfg, &math, &show).unwrap();
        assert!(out.result.converged);
        assert_eq!(out.result.included, ids);
        assert_eq!(ids.contains(&"V-001".to_string()), damage);
        assert_eq!(ids.contains(&"V-002".to_string()), damage);
    }
}

#[test]
fn failure_criteria_are_never_mixed() {
    let mut all = vec![];
    for i in 0..6 {
        all.push(constant(&format!("S-{i}"), "strain2pct", Some("C"), 550.0, "fractured"));
        all.push(constant(&format!("R-{i}"), "rupture", Some("C"), 550.0, "fractured"));
    }
    let stored = validate_all(&all, &show).unwrap();
    let (inc, _) = select_observations(&stored, "strain2pct", false, &math);
    assert_eq!(inc.len(), 6);
    assert!(inc.iter().all(|o| o.sample_id.starts_with("S-")));
}
