use reed::claims::{claim_targets, counted_bearings};
use reed::judging::{check_config, plan};
use reed::record::{included, scale_entry, Bearing, Check, Config, Polarity, Record, Trace};
use reed::{Semantics, SemiringChoice};

fn bearing(on: &str, polarity: Polarity, basis: &str) -> Bearing {
    Bearing { on: on.to_string(), polarity, basis: Some(basis.to_string()) }
}

fn record(id: &str, claim: &str, bearings: Vec<Bearing>) -> Record {
    Record {
        evidence_id: id.to_string(),
        claim: claim.to_string(),
        bearings,
        trace: None,
        check: None,
        source_time: None,
        recorded_at: None,
    }
}

fn testimony(id: &str, kind: &str, bearings: Vec<Bearing>) -> Record {
    let mut r = record(id, &format!("{kind} testifies"), bearings);
    r.trace = Some(Trace { kind: "path-testimony".to_string(), step_kind: Some(kind.to_string()) });
    r
}

fn heddle_pass() -> Vec<Record> {
    vec![
        testimony(
            "t-sym",
            "symbolic",
            vec![
                bearing("p1", Polarity::Promotes, "found"),
                bearing("p2", Polarity::Inhibits, "informed-silence"),
            ],
        ),
        testimony(
            "t-vec",
            "vector",
            vec![bearing("p1", Polarity::Promotes, "found"), bearing("p2", Polarity::Promotes, "found")],
        ),
    ]
}

fn strings(xs: &[&str]) -> Vec<String> {
    xs.iter().map(|s| s.to_string()).collect()
}

fn a11y_records() -> Vec<Record> {
    let mut corroborated = record("u::1.4.3::e3", "contrast 2.1:1 below 4.5:1", vec![]);
    corroborated.check = Some(Check {
        upheld: true,
        by: "measured+vision".to_string(),
        method: "Corroborated".to_string(),
        reason: None,
    });
    corroborated.recorded_at = Some("2026-08-02T00:00:00Z".to_string());
    let unchecked = record("u::1.1.1::e9", "image lacks a text alternative", vec![]);
    let mut refuted = record("u::4.1.2::e12", "button has no accessible name", vec![]);
    refuted.check = Some(Check {
        upheld: false,
        by: "stub".to_string(),
        method: "Adversarial".to_string(),
        reason: Some("named via aria-labelledby".to_string()),
    });
    let exception = record(
        "instructor-exception-7",
        "decorative banner, exception granted",
        vec![bearing("u::1.4.3::e3", Polarity::Inhibits, "exception")],
    );
    vec![corroborated, unchecked, refuted, exception]
}

#[test]
fn bearing_less_findings_are_judged_and_exceptions_are_not() {
    let targets = claim_targets(&a11y_records(), &vec![]);
    assert!(targets.iter().any(|t| t == "u::1.1.1::e9"), "standalone finding is a claim");
    assert!(
        !targets.iter().any(|t| t == "instructor-exception-7"),
        "an arguer is not a claim: {targets:?}"
    );
}

#[test]
fn claims_come_in_order_of_first_appearance() {
    // Bearing targets first, in record order, then bearing-less records.
    let targets = claim_targets(&a11y_records(), &vec![]);
    assert_eq!(targets, strings(&["u::1.4.3::e3", "u::1.1.1::e9", "u::4.1.2::e12"]));
}

#[test]
fn testimonies_argue_and_their_targets_are_claims_once() {
    let targets = claim_targets(&heddle_pass(), &strings(&["found"]));
    assert_eq!(targets, strings(&["p1", "p2"]));
    let all = claim_targets(&heddle_pass(), &vec![]);
    assert_eq!(all, strings(&["p1", "p2"]));
}

#[test]
fn a_target_reached_only_by_an_excluded_basis_is_no_claim() {
    let records = vec![testimony("t-sym", "symbolic", vec![bearing("p2", Polarity::Inhibits, "informed-silence")])];
    assert!(claim_targets(&records, &strings(&["found"])).is_empty());
    assert_eq!(claim_targets(&records, &vec![]), strings(&["p2"]));
}

#[test]
fn a_bearing_less_record_already_targeted_is_listed_once() {
    let mut records = heddle_pass();
    records.push(record("p2", "p2 relevant", vec![]));
    records.push(record("p3", "p3 relevant", vec![]));
    assert_eq!(claim_targets(&records, &strings(&["found"])), strings(&["p1", "p2", "p3"]));
}

#[test]
fn edges_are_the_counted_bearings_in_order() {
    assert_eq!(counted_bearings(&heddle_pass(), &strings(&["found"])), vec![(0, 0), (1, 0), (1, 1)]);
    assert_eq!(counted_bearings(&heddle_pass(), &vec![]), vec![(0, 0), (0, 1), (1, 0), (1, 1)]);
    assert_eq!(counted_bearings(&heddle_pass(), &strings(&["informed-silence"])), vec![(0, 1)]);
}

#[test]
fn empty_bases_count_every_bearing_and_listed_bases_only_theirs() {
    assert!(included(&vec![], &None));
    assert!(included(&vec![], &Some("stance".to_string())));
    assert!(included(&strings(&["found", "stance"]), &Some("stance".to_string())));
    assert!(!included(&strings(&["found"]), &Some("stance".to_string())));
    assert!(!included(&strings(&["found"]), &None));
}

#[test]
fn the_first_scale_entry_for_a_basis_applies() {
    let names = strings(&["informed-silence", "found", "found"]);
    assert_eq!(scale_entry(&names, &Some("found".to_string())), Some(1));
    assert_eq!(scale_entry(&names, &Some("informed-silence".to_string())), Some(0));
    assert_eq!(scale_entry(&names, &Some("stance".to_string())), None);
    assert_eq!(scale_entry(&names, &None), None);
}

fn config(bases: &[&str], rules: &str, predicate: Option<&str>) -> Config {
    Config {
        bases: strings(bases),
        scaled_bases: vec![],
        rules: rules.to_string(),
        admit_predicate: predicate.map(|s| s.to_string()),
        semiring: SemiringChoice::MaxMin,
        semantics: Semantics::DfQuad,
    }
}

#[test]
fn without_rules_or_predicate_the_logical_layer_does_not_run() {
    let p = plan(&heddle_pass(), &config(&[], "", None)).unwrap();
    assert!(p.program.is_none());
    assert!(p.queries.is_empty());
    assert_eq!(p.claims, strings(&["p1", "p2"]));
    let p = plan(&heddle_pass(), &config(&[], " \n\t ", Some("admissible"))).unwrap();
    assert!(p.program.is_none(), "blank rules are no rules");
    let p = plan(&heddle_pass(), &config(&[], "x(P) :- found(vector, P).", None)).unwrap();
    assert!(p.program.is_none(), "no predicate admits everything");
}

#[test]
fn a_mistyped_basis_is_a_loud_error() {
    let err = plan(&heddle_pass(), &config(&["foud"], "", None)).err().unwrap();
    assert_eq!(err, "unknown basis \"foud\": no bearing of the records carries it");
    // The first unknown name is the one reported, bases before scale names.
    let mut c = config(&["found", "informd-silence"], "", None);
    c.scaled_bases = strings(&["stanse"]);
    assert_eq!(
        check_config(&heddle_pass(), &c),
        Err("unknown basis \"informd-silence\": no bearing of the records carries it".to_string())
    );
    let mut c = config(&["found", "informed-silence"], "", None);
    c.scaled_bases = strings(&["informed-silence", "stanse"]);
    assert_eq!(
        check_config(&heddle_pass(), &c),
        Err("unknown basis \"stanse\": no bearing of the records carries it".to_string())
    );
    c.scaled_bases = strings(&["informed-silence"]);
    assert_eq!(check_config(&heddle_pass(), &c), Ok(()));
    assert!(plan(&heddle_pass(), &c).is_ok());
    // No records carry no basis at all.
    assert!(check_config(&vec![], &config(&["found"], "", None)).is_err());
    assert_eq!(check_config(&vec![], &config(&[], "", None)), Ok(()));
}
