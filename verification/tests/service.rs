use mastercurve::cli::{parse_args, Request};
use mastercurve::db::{now_ts, time_text};
use mastercurve::json::{item_texts, number_member, parse, strings_text, text_member};
use mastercurve::number::Real;
use mastercurve::server::{compare, compare_facts, read_facts, Comparison, Insertion, Refusal, RunFacts, Tally};
use mastercurve::specimen::DomainError;

fn num(x: f64) -> Real {
    Real::from_bits(x.to_bits())
}

fn float(x: Real) -> f64 {
    f64::from_bits(x.to_bits())
}

fn words(list: &[&str]) -> Vec<String> {
    list.iter().map(|w| w.to_string()).collect()
}

fn run(criterion: &str, ids: &[&str], aic: &str) -> serde_json::Value {
    let rows: Vec<String> =
        ids.iter().map(|i| format!("{{\"specimen_id\":\"{i}\",\"x\":1}}")).collect();
    let text = format!(
        "{{\"criterion\":\"{criterion}\",\"aic\":{aic},\"residuals\":[{}]}}",
        rows.join(",")
    );
    parse(&text).unwrap()
}

#[test]
fn values_are_read_by_their_members() {
    let v = parse("{\"a\":\"x\",\"n\":2,\"f\":-0.5,\"l\":[{\"k\":\"p\"},{\"k\":3},7,{\"k\":\"q\"}]}").unwrap();
    assert_eq!(text_member(&v, "a"), Some("x"));
    assert_eq!(text_member(&v, "n"), None);
    assert_eq!(text_member(&v, "z"), None);
    assert_eq!(number_member(&v, "n").map(float), Some(2.0));
    assert_eq!(number_member(&v, "f").map(float), Some(-0.5));
    assert!(number_member(&v, "a").is_none());
    assert_eq!(item_texts(&v, "l", "k"), words(&["p", "q"]));
    assert!(item_texts(&v, "a", "k").is_empty());
    assert!(item_texts(&v, "z", "k").is_empty());
    let list = parse("[1]").unwrap();
    assert!(text_member(&list, "a").is_none());
    let e = parse("{").unwrap_err();
    assert!(e.message().contains("EOF"), "{}", e.message());
}

#[test]
fn lists_of_strings_read_back() {
    let list = words(&["a\"b", "坏", ""]);
    let text = strings_text(&list).unwrap();
    let v = parse(&text).unwrap();
    let back: Vec<String> =
        v.as_array().unwrap().iter().map(|x| x.as_str().unwrap().to_string()).collect();
    assert_eq!(back, list);
}

#[test]
fn runs_are_compared_on_the_same_samples_alone() {
    let a = run("rupture", &["R-001", "R-002", "R-001"], "10.5");
    let b = run("rupture", &["R-002", "R-001"], "12");
    let c = compare(1, 2, Some(&a), Some(&b)).unwrap();
    assert_eq!(c.same_criterion, "rupture");
    assert_eq!(c.same_samples, 2);
    assert_eq!(float(c.delta_aic), -1.5);
    assert_eq!(c.preferred_by_aic, 1);
    assert_eq!(compare(2, 1, Some(&b), Some(&a)).unwrap().preferred_by_aic, 1);

    let wide = run("rupture", &["R-001", "R-002", "V-001"], "9");
    match compare(1, 3, Some(&a), Some(&wide)) {
        Err(Refusal::BadRequest(e)) => {
            assert!(e.contains("纳入样本集合不同"), "{e}");
            assert!(e.contains("仅在 B: V-001"), "{e}");
        }
        _ => panic!("compared"),
    }
    let strain = run("strain2pct", &["R-001", "R-002"], "9");
    match compare(1, 4, Some(&a), Some(&strain)) {
        Err(Refusal::BadRequest(e)) => {
            assert_eq!(
                e,
                "两次运行失效准则不同（rupture vs strain2pct），不允许在同一样本组上比较"
            );
        }
        _ => panic!("compared"),
    }
    match compare(-5, 4, None, Some(&strain)) {
        Err(Refusal::NotFound(e)) => assert_eq!(e, "运行 -5 不存在"),
        _ => panic!("compared"),
    }
    match compare(1, 6, Some(&a), None) {
        Err(Refusal::NotFound(e)) => assert_eq!(e, "运行 6 不存在"),
        _ => panic!("compared"),
    }
}

#[test]
fn what_is_not_there_counts_as_nothing() {
    let f = read_facts(&parse("{}").unwrap());
    assert_eq!(f.criterion, "");
    assert!(f.ids.is_empty());
    assert_eq!(float(f.aic), 0.0);
}

#[test]
fn equal_runs_prefer_the_first() {
    let facts = |aic: f64| RunFacts {
        criterion: "rupture".to_string(),
        ids: words(&["A"]),
        aic: num(aic),
    };
    let c: Comparison = compare_facts(8, 9, &facts(3.0), &facts(3.0)).unwrap();
    assert_eq!(c.preferred_by_aic, 8);
    assert_eq!(c.note, "两个模型在完全相同的样本集合上比较；不同失效准则的试验从未混为一组");
}

#[test]
fn a_tally_balances() {
    let mut t = Tally::new();
    t.count(Some("A"), Insertion::New);
    t.count(Some("B"), Insertion::Duplicate);
    t.count(Some("C"), Insertion::Failed("disk".to_string()));
    t.count(None, Insertion::Failed("disk".to_string()));
    t.refuse(DomainError("D: 缺少温度单位".to_string()));
    assert_eq!(t.received, 5);
    assert_eq!(t.imported, 1);
    assert_eq!(t.skipped_duplicate, 1);
    assert_eq!(t.rejected, words(&["C: disk", "disk", "D: 缺少温度单位"]));
    assert_eq!(t.received, t.imported + t.skipped_duplicate + t.rejected.len());
}

#[test]
fn command_lines_are_read() {
    let (r, ignored) = parse_args(&words(&[]));
    match r {
        Request::Run(a) => {
            assert_eq!(a.listen, "127.0.0.1:5512");
            assert_eq!(a.db_path, "mastercurve.db");
        }
        Request::Help => panic!("help"),
    }
    assert!(ignored.is_empty());
    let (r, ignored) = parse_args(&words(&["x", "--db", "a.db", "--listen", "0.0.0.0:1", "--db"]));
    match r {
        Request::Run(a) => {
            assert_eq!(a.listen, "0.0.0.0:1");
            assert_eq!(a.db_path, "a.db");
        }
        Request::Help => panic!("help"),
    }
    assert_eq!(ignored, words(&["x"]));
    assert!(matches!(parse_args(&words(&["-h"])).0, Request::Help));
    let (r, ignored) = parse_args(&words(&["y", "--help", "z"]));
    assert!(matches!(r, Request::Help));
    assert_eq!(ignored, words(&["y"]));
    // a flag takes the next word, whatever it is
    assert!(matches!(parse_args(&words(&["--db", "--help"])).0, Request::Run(_)));
}

#[test]
fn times_are_seconds_in_decimal() {
    assert_eq!(time_text(Some(1700000000)), "1700000000");
    assert_eq!(time_text(None), "0");
    let now = now_ts();
    assert!(now.parse::<u64>().unwrap() > 1600000000, "{now}");
}

#[test]
fn a_comparison_swaps_with_its_runs() {
    let facts = |ids: &[&str], aic: f64| RunFacts {
        criterion: "rupture".to_string(),
        ids: words(ids),
        aic: num(aic),
    };
    let (a, b) = (facts(&["A", "B"], 3.0), facts(&["A", "B"], 7.25));
    let c = compare_facts(8, 9, &a, &b).unwrap();
    let d = compare_facts(9, 8, &b, &a).unwrap();
    assert_eq!(float(c.delta_aic), -4.25);
    assert_eq!(float(c.delta_aic), -float(d.delta_aic));
    assert_eq!(c.same_samples, d.same_samples);
    assert_eq!((c.preferred_by_aic, d.preferred_by_aic), (8, 8));
    let wide = facts(&["A"], 1.0);
    assert!(compare_facts(8, 9, &a, &wide).is_err() && compare_facts(9, 8, &wide, &a).is_err());
}
