use fivepoints_calc::catalog::scan_catalog_text;
use fivepoints_calc::pairing::{
    completed_scans_of, distinct_sources, indices_with_source, plan_gain_calibration, plan_pairs, GainPlan, PairStep,
    ScanSummary,
};

fn s(v: &[&str]) -> Vec<String> {
    v.iter().map(|x| x.to_string()).collect()
}

fn sum(source: &str, complete: bool) -> ScanSummary {
    ScanSummary { source: source.to_string(), complete }
}

#[test]
fn distinct_keeps_first_occurrences() {
    assert_eq!(distinct_sources(&s(&["a", "b", "a", "c", "b"])), s(&["a", "b", "c"]));
    assert_eq!(indices_with_source(&s(&["a", "b", "a"]), &"a".to_string()), vec![0, 2]);
}

#[test]
fn pairs_by_source_and_rank() {
    let left = vec![sum("A", true), sum("B", true), sum("A", true), sum("A", false)];
    let right = vec![sum("A", true), sum("C", true), sum("A", true), sum("A", true)];
    let plan = plan_pairs(&left, &right);
    let sources: Vec<&str> = plan.iter().map(|p| p.source.as_str()).collect();
    assert_eq!(sources, vec!["A", "B", "C"]);
    assert_eq!(plan[0].left, vec![0, 2, 3]);
    assert_eq!(plan[0].right, vec![0, 2, 3]);
    assert_eq!(
        plan[0].steps,
        vec![PairStep::Matched(0, 0), PairStep::Matched(2, 2), PairStep::IncompleteFit]
    );
    assert_eq!(plan[1].steps, vec![PairStep::CountMismatch]);
    assert_eq!(plan[2].left, Vec::<usize>::new());
    assert_eq!(plan[2].steps, vec![PairStep::CountMismatch]);
}

fn catalog() -> Vec<fivepoints_calc::catalog::CatalogRow> {
    let nums: Vec<String> = (0..14).map(|i| i.to_string()).collect();
    let text = format!("3C286\t1328+307\t\t{}\n", nums.join("\t"));
    scan_catalog_text(&text).rows
}

#[test]
fn gain_plan_sorts_sources() {
    let pairs = s(&["OJ287", "3c286", "OJ287", "1328+307", "4C39.25"]);
    match plan_gain_calibration(&pairs, &catalog(), "X") {
        GainPlan::Calibrate { band, references, gains } => {
            assert_eq!(band, fivepoints_calc::catalog::Band::X);
            assert_eq!(references, s(&["3c286", "1328+307"]));
            assert_eq!(gains, s(&["OJ287", "4C39.25"]));
        }
        _ => panic!("expected a calibration"),
    }
}

#[test]
fn gain_plan_refusals() {
    let pairs = s(&["OJ287", "3C286"]);
    assert!(matches!(plan_gain_calibration(&pairs, &catalog(), "s"), GainPlan::UnknownBand));
    assert!(matches!(plan_gain_calibration(&pairs, &Vec::new(), "c"), GainPlan::UnknownBand));
    assert!(matches!(plan_gain_calibration(&s(&["OJ287"]), &catalog(), "c"), GainPlan::NoReference));
    assert!(matches!(plan_gain_calibration(&s(&["3C286"]), &catalog(), "c"), GainPlan::NoGainSource));
    assert!(matches!(plan_gain_calibration(&Vec::new(), &catalog(), "c"), GainPlan::NoReference));
}

#[test]
fn completed_scans_of_a_source() {
    let v = vec![sum("A", true), sum("B", true), sum("A", false), sum("A", true)];
    assert_eq!(completed_scans_of(&v, &"A".to_string()), vec![0, 3]);
    assert_eq!(completed_scans_of(&v, &"C".to_string()), Vec::<usize>::new());
}

#[test]
fn pairing_is_symmetric() {
    let left = vec![sum("A", true), sum("B", true), sum("A", false)];
    let right = vec![sum("C", true), sum("A", true), sum("A", true)];
    let lr = plan_pairs(&left, &right);
    let rl = plan_pairs(&right, &left);
    assert_eq!(lr.len(), rl.len());
    for p in &lr {
        let q = rl.iter().find(|q| q.source == p.source).unwrap();
        assert_eq!(q.left, p.right);
        assert_eq!(q.right, p.left);
        let turned: Vec<PairStep> = p
            .steps
            .iter()
            .map(|s| match *s {
                PairStep::Matched(a, b) => PairStep::Matched(b, a),
                other => other,
            })
            .collect();
        assert_eq!(q.steps, turned);
    }
}
