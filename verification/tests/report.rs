use reed::report::{render, tier, Judged};
use reed::record::{Bearing, Check, Polarity, Record};

fn record(id: &str, claim: &str, bearings: Vec<Bearing>) -> Record {
    Record {
        evidence_id: id.to_string(),
        claim: claim.to_string(),
        bearings,
        trace: None,
        check: None,
        source_time: None,
        recorded_at: None,
    }
}

/// a11y-agent-shaped records: a corroborated finding, an unchecked one, a
/// refuted one, and an instructor exception inhibiting the first.
fn records() -> Vec<Record> {
    let mut corroborated = record("u::1.4.3::e3", "contrast 2.1:1 below 4.5:1", vec![]);
    corroborated.check = Some(Check {
        upheld: true,
        by: "measured+vision".to_string(),
        method: "Corroborated".to_string(),
        reason: None,
    });
    corroborated.recorded_at = Some("2026-08-02T00:00:00Z".to_string());
    let unchecked = record("u::1.1.1::e9", "image lacks a text alternative", vec![]);
    let mut refuted = record("u::4.1.2::e12", "button has no accessible name", vec![]);
    refuted.check = Some(Check {
        upheld: false,
        by: "stub".to_string(),
        method: "Adversarial".to_string(),
        reason: Some("named via aria-labelledby".to_string()),
    });
    let exception = record(
        "instructor-exception-7",
        "decorative banner, exception granted",
        vec![Bearing {
            on: "u::1.4.3::e3".to_string(),
            polarity: Polarity::Inhibits,
            basis: Some("exception".to_string()),
        }],
    );
    vec![corroborated, unchecked, refuted, exception]
}

fn judged(on: &str, admitted: bool, contested: bool, strength: &str, contestedness: &str) -> Judged {
    Judged {
        on: on.to_string(),
        admitted,
        admission: None,
        proof: None,
        contested,
        strength: strength.to_string(),
        contestedness: contestedness.to_string(),
    }
}

/// The verdicts of the no-constriction baseline over `records()`, strongest
/// first: the exception drags e3 down to 0.2.
fn baseline() -> Vec<Judged> {
    vec![
        judged("u::1.1.1::e9", true, false, "0.500", "0.000"),
        judged("u::4.1.2::e12", true, false, "0.500", "0.000"),
        judged("u::1.4.3::e3", true, true, "0.200", "0.000"),
    ]
}

#[test]
fn the_report_tiers_findings_by_standing() {
    let md = render(&records(), &baseline(), "Audit — course 1");

    // The only verified finding is contested by the exception, so the
    // verified tier is empty and its heading is absent.
    assert!(!md.contains("## Reportable — independently verified"), "{md}");
    let unverified_at = md.find("## Reportable — unverified").unwrap();
    let contested_at = md.find("## Contested").unwrap();
    let excluded_at = md.find("## Excluded").unwrap();
    assert!(unverified_at < contested_at && contested_at < excluded_at);

    let contested_block = &md[contested_at..excluded_at];
    assert!(contested_block.contains("u::1.4.3::e3"), "{md}");
    assert!(md[excluded_at..].contains("aria-labelledby"), "{md}");
    assert!(md[unverified_at..contested_at].contains("u::1.1.1::e9"));
}

#[test]
fn tiers_follow_admission_check_and_contest() {
    let rs = records();
    assert_eq!(tier(&rs, &judged("u::1.4.3::e3", true, false, "0.6", "0")), 0);
    assert_eq!(tier(&rs, &judged("u::1.4.3::e3", true, true, "0.2", "0")), 2);
    assert_eq!(tier(&rs, &judged("u::1.4.3::e3", false, false, "0.0", "0")), 3);
    assert_eq!(tier(&rs, &judged("u::1.1.1::e9", true, false, "0.5", "0")), 1);
    // A refuted finding is excluded even when admitted and contested.
    assert_eq!(tier(&rs, &judged("u::4.1.2::e12", true, true, "0.5", "0")), 3);
    // A claim without a record stands on its verdict alone.
    assert_eq!(tier(&rs, &judged("nobody", true, false, "0.5", "0")), 1);
}

#[test]
fn the_report_renders_every_line_of_an_entry() {
    let mut v = judged("u::1.4.3::e3", true, false, "0.985", "0.000");
    v.admission = Some("0.7000".to_string());
    v.proof = Some("admissible(e0)\n  found(symbolic, e0)  \n\n".to_string());
    let md = render(&records(), &vec![v], "T");
    let expected = "# T\n\n\
1 claim(s) judged — 1 reportable-verified, 0 reportable-unverified, 0 contested, 0 excluded\n\n\
## Reportable — independently verified\n\n\
> Admitted by the rules and carrying an upheld check. The tier a compliance statement cites.\n\n\
### contrast 2.1:1 below 4.5:1\n\n\
- **Id:** `u::1.4.3::e3`\n\
- **Check:** upheld by measured+vision (Corroborated)\n\
- **Recorded:** 2026-08-02T00:00:00Z\n\
- **Strength:** 0.985 · **Contestedness:** 0.000\n\
- **Admission:** 0.7000\n\
- **Why admitted:**\n\n```\nadmissible(e0)\n  found(symbolic, e0)\n```\n\n";
    assert_eq!(md, expected);
}

#[test]
fn an_entry_without_a_record_is_rendered_from_the_verdict_alone() {
    let md = render(&vec![], &vec![judged("p9", false, false, "0.000", "0.000")], "R");
    let expected = "# R\n\n\
1 claim(s) judged — 0 reportable-verified, 0 reportable-unverified, 0 contested, 1 excluded\n\n\
## Excluded\n\n\
> Refuted by a check or not admitted by the rules. Kept with reasons: a silently dropped finding is a liability.\n\n\
### p9\n\n\
- **Id:** `p9`\n\
- **Strength:** 0.000 · **Contestedness:** 0.000\n\n";
    assert_eq!(md, expected);
}

#[test]
fn the_refuted_check_keeps_its_reason() {
    let md = render(&records(), &baseline(), "A");
    assert!(md.contains(
        "- **Check:** REFUTED by stub (Adversarial)\n  - named via aria-labelledby\n"
    ));
    assert!(md.contains("3 claim(s) judged — 0 reportable-verified, 1 reportable-unverified, 1 contested, 1 excluded"));
}

#[test]
fn within_a_tier_the_given_order_stands() {
    let vs = vec![
        judged("a", true, false, "0.9", "0"),
        judged("b", true, false, "0.8", "0"),
        judged("c", true, false, "0.7", "0"),
    ];
    let md = render(&vec![], &vs, "O");
    let (a, b, c) = (md.find("`a`").unwrap(), md.find("`b`").unwrap(), md.find("`c`").unwrap());
    assert!(a < b && b < c);
}

#[test]
fn the_last_record_with_an_id_is_the_one_reported() {
    let mut first = record("x", "first", vec![]);
    first.check = Some(Check { upheld: false, by: "a".into(), method: "M".into(), reason: None });
    let second = record("x", "second", vec![]);
    let md = render(&vec![first, second], &vec![judged("x", true, false, "0.5", "0")], "L");
    assert!(md.contains("### second"));
    assert!(md.contains("## Reportable — unverified"));
}
