use reed::judging::{admission_of, admissions, plan};
use reed::program::{logic_program, year_from_time, FactWeight};
use reed::record::{Bearing, Check, Config, Polarity, Record, Trace};
use reed::{Semantics, SemiringChoice};

fn bearing(on: &str, polarity: Polarity, basis: &str) -> Bearing {
    Bearing { on: on.to_string(), polarity, basis: Some(basis.to_string()) }
}

fn record(id: &str, bearings: Vec<Bearing>) -> Record {
    Record {
        evidence_id: id.to_string(),
        claim: format!("{id} claim"),
        bearings,
        trace: None,
        check: None,
        source_time: None,
        recorded_at: None,
    }
}

fn testimony(id: &str, kind: &str, bearings: Vec<Bearing>) -> Record {
    let mut r = record(id, bearings);
    r.trace = Some(Trace { kind: "path-testimony".to_string(), step_kind: Some(kind.to_string()) });
    r
}

fn heddle_pass() -> Vec<Record> {
    vec![
        testimony(
            "t-sym",
            "symbolic",
            vec![
                bearing("p1", Polarity::Promotes, "found"),
                bearing("p2", Polarity::Inhibits, "informed-silence"),
            ],
        ),
        testimony(
            "t-vec",
            "vector",
            vec![bearing("p1", Polarity::Promotes, "found"), bearing("p2", Polarity::Promotes, "found")],
        ),
    ]
}

fn strings(xs: &[&str]) -> Vec<String> {
    xs.iter().map(|s| s.to_string()).collect()
}

const CONSTRICTION: &str = "admissible(P) :- found(symbolic, P), found(vector, P).";

fn config(bases: &[&str], rules: &str, predicate: Option<&str>) -> Config {
    Config {
        bases: strings(bases),
        scaled_bases: vec![],
        rules: rules.to_string(),
        admit_predicate: predicate.map(|s| s.to_string()),
        semiring: SemiringChoice::MaxMin,
        semantics: Semantics::DfQuad,
    }
}

fn texts(p: &reed::program::LogicProgram) -> Vec<String> {
    p.facts.iter().map(|f| f.text.clone()).collect()
}

#[test]
fn testimony_bearings_become_found_and_silent_facts() {
    let p = logic_program(&heddle_pass(), &vec![], &CONSTRICTION.to_string());
    assert_eq!(
        texts(&p),
        strings(&[
            "found(symbolic, e0).",
            "silent(symbolic, e1).",
            "found(vector, e0).",
            "found(vector, e1).",
        ])
    );
    assert_eq!(p.atoms, strings(&["p1", "p2"]));
    assert_eq!(
        p.source,
        format!(
            "found(symbolic, e0).\nsilent(symbolic, e1).\nfound(vector, e0).\nfound(vector, e1).\n{CONSTRICTION}"
        )
    );
    let weights: Vec<FactWeight> = p.facts.iter().map(|f| f.weight).collect();
    assert_eq!(
        weights,
        vec![
            FactWeight::Bearing { record: 0, bearing: 0 },
            FactWeight::Bearing { record: 0, bearing: 1 },
            FactWeight::Bearing { record: 1, bearing: 0 },
            FactWeight::Bearing { record: 1, bearing: 1 },
        ]
    );
}

#[test]
fn an_excluded_basis_contributes_no_fact() {
    let p = logic_program(&heddle_pass(), &strings(&["found"]), &CONSTRICTION.to_string());
    assert_eq!(texts(&p), strings(&["found(symbolic, e0).", "found(vector, e0).", "found(vector, e1)."]));
    assert_eq!(p.facts[2].weight, FactWeight::Bearing { record: 1, bearing: 1 });
}

#[test]
fn other_bearings_become_supports_and_attacks_from_the_arguer() {
    let exception = record("exception", vec![bearing("f", Polarity::Inhibits, "exception")]);
    let counter = record("counter", vec![bearing("exception", Polarity::Inhibits, "stance")]);
    let backer = record("backer", vec![bearing("f", Polarity::Promotes, "stance")]);
    let p = logic_program(&vec![record("f", vec![]), exception, counter, backer], &vec![], &"r(X) :- f(X).".to_string());
    // The target is interned before the arguer.
    assert_eq!(texts(&p), strings(&["attacks(e1, e0).", "attacks(e2, e1).", "supports(e3, e0)."]));
    assert_eq!(p.atoms, strings(&["f", "exception", "counter", "backer"]));
}

#[test]
fn a_trace_of_another_kind_is_no_testimony() {
    let mut r = record("t", vec![bearing("p", Polarity::Promotes, "found")]);
    r.trace = Some(Trace { kind: "search".to_string(), step_kind: Some("vector".to_string()) });
    let mut unnamed = record("u", vec![bearing("p", Polarity::Inhibits, "found")]);
    unnamed.trace = Some(Trace { kind: "path-testimony".to_string(), step_kind: None });
    let p = logic_program(&vec![r, unnamed], &vec![], &String::new());
    assert_eq!(texts(&p), strings(&["supports(e1, e0).", "attacks(e2, e0)."]));
}

#[test]
fn checks_surface_as_verified_and_refuted_facts() {
    let mut upheld = record("a", vec![]);
    upheld.check = Some(Check { upheld: true, by: "x".into(), method: "Corroborated".into(), reason: None });
    let mut dismissed = record("b", vec![]);
    dismissed.check = Some(Check { upheld: false, by: "x".into(), method: "Adversarial".into(), reason: None });
    let inhibitor = record("c", vec![bearing("b", Polarity::Inhibits, "exception")]);
    let p = logic_program(&vec![upheld, dismissed, inhibitor], &vec![], &"reportable(F) :- verified(F).".to_string());
    assert_eq!(texts(&p), strings(&["attacks(e1, e0).", "verified(e2).", "refuted(e0)."]));
    assert_eq!(p.atoms, strings(&["b", "c", "a"]));
    assert_eq!(p.facts[1].weight, FactWeight::Unit);
}

#[test]
fn source_years_become_dated_facts() {
    let mut records = heddle_pass();
    let dated = |id: &str, t: &str| {
        let mut e = record(id, vec![]);
        e.source_time = Some(t.to_string());
        e
    };
    records.push(dated("p1", "2015-06-01T00:00:00Z"));
    records.push(dated("p2", "2024-09-01T00:00:00Z"));
    records.push(dated("p3", "undated"));
    let rules = "current(P) :- dated(P, T), ge(T, 2020).\nadmissible(P) :- found(vector, P), current(P).";
    let p = logic_program(&records, &strings(&["found"]), &rules.to_string());
    assert_eq!(
        texts(&p),
        strings(&[
            "found(symbolic, e0).",
            "found(vector, e0).",
            "found(vector, e1).",
            "dated(e0, 2015).",
            "dated(e1, 2024).",
        ])
    );
    assert_eq!(p.facts[4].weight, FactWeight::Unit);
}

#[test]
fn years_read_as_a_signed_integer_of_the_first_four_characters() {
    let y = |t: &str| year_from_time(&t.to_string());
    assert_eq!(y("2024-09-01T00:00:00Z"), Some(2024));
    assert_eq!(y("0999"), Some(999));
    assert_eq!(y("+123-01-01"), Some(123));
    assert_eq!(y("-012"), Some(-12));
    assert_eq!(y("-000"), Some(0));
    assert_eq!(y("202"), None);
    assert_eq!(y("20a4"), None);
    assert_eq!(y("+-12"), None);
    assert_eq!(y("é123"), None);
    assert_eq!(y("123é"), None);
    assert_eq!(y(""), None);
    // The same as the standard reading of the first four bytes.
    for t in ["2015-06-01", "+123", "-012", "ab", "12é4", "1234"] {
        let expected = t.get(..4).and_then(|s| s.parse::<i64>().ok());
        assert_eq!(y(t), expected, "{t}");
    }
}

#[test]
fn negative_years_keep_their_sign() {
    let mut r = record("p", vec![]);
    r.source_time = Some("-044".to_string());
    let p = logic_program(&vec![r], &vec![], &String::new());
    assert_eq!(texts(&p), strings(&["dated(e0, -44)."]));
    assert_eq!(p.source, "dated(e0, -44).\n");
}

#[test]
fn an_empty_program_is_just_the_rules() {
    let p = logic_program(&vec![record("f", vec![])], &vec![], &"a(X) :- b(X).".to_string());
    assert!(p.facts.is_empty());
    assert!(p.atoms.is_empty());
    assert_eq!(p.source, "\na(X) :- b(X).");
}

#[test]
fn atoms_count_past_nine() {
    let records: Vec<Record> = (0..12)
        .map(|k| {
            let mut r = record(&format!("r{k}"), vec![]);
            r.source_time = Some("2020".to_string());
            r
        })
        .collect();
    let p = logic_program(&records, &vec![], &String::new());
    assert_eq!(p.facts[10].text, "dated(e10, 2020).");
    assert_eq!(p.facts[11].text, "dated(e11, 2020).");
}

#[test]
fn each_claim_is_asked_for_by_its_atom() {
    let mut records = heddle_pass();
    records.push(record("lonely", vec![]));
    let p = plan(&records, &config(&["found"], CONSTRICTION, Some("admissible"))).unwrap();
    assert_eq!(p.claims, strings(&["p1", "p2", "lonely"]));
    assert_eq!(
        p.queries,
        vec![Some("admissible(e0)".to_string()), Some("admissible(e1)".to_string()), None]
    );
    let prog = p.program.unwrap();
    assert_eq!(prog.atoms, strings(&["p1", "p2"]));
}

#[test]
fn admission_follows_the_logical_layer() {
    let a = admission_of(false, None);
    assert!(a.admitted && a.tag.is_none() && a.proof.is_none());
    let a = admission_of(false, Some(("1".to_string(), "x".to_string())));
    assert!(a.admitted && a.tag.is_none() && a.proof.is_none());
    let a = admission_of(true, None);
    assert!(!a.admitted && a.tag.is_none() && a.proof.is_none());
    let a = admission_of(true, Some(("0.7000".to_string(), "admissible(e0)".to_string())));
    assert!(a.admitted);
    assert_eq!(a.tag.as_deref(), Some("0.7000"));
    assert_eq!(a.proof.as_deref(), Some("admissible(e0)"));
}

#[test]
fn the_weighted_facts_are_the_graph_edges() {
    let mut records = heddle_pass();
    let mut checked = record("p1", vec![]);
    checked.check = Some(Check { upheld: true, by: "x".into(), method: "M".into(), reason: None });
    checked.source_time = Some("2020-01-01".to_string());
    records.push(checked);
    records.push(record("a", vec![bearing("p2", Polarity::Inhibits, "stance")]));
    for bases in [vec![], strings(&["found"]), strings(&["stance", "informed-silence"])] {
        let p = logic_program(&records, &bases, &String::new());
        let weighted: Vec<(usize, usize)> = p
            .facts
            .iter()
            .filter_map(|f| match f.weight {
                FactWeight::Bearing { record, bearing } => Some((record, bearing)),
                FactWeight::Unit => None,
            })
            .collect();
        assert_eq!(weighted, reed::claims::counted_bearings(&records, &bases), "{bases:?}");
    }
}

#[test]
fn a_claim_without_an_atom_is_never_admitted() {
    let mut records = heddle_pass();
    records.push(record("lonely", vec![]));
    let p = plan(&records, &config(&["found"], CONSTRICTION, Some("admissible"))).unwrap();
    // p1 answered, p2 not derivable; the answer given for `lonely` has no query to answer.
    let answers = vec![
        Some(("0.7000".to_string(), "admissible(e0)".to_string())),
        None,
        Some(("1".to_string(), "x".to_string())),
    ];
    let a = admissions(&p, answers);
    assert_eq!(a.len(), 3);
    assert!(a[0].admitted);
    assert_eq!(a[0].tag.as_deref(), Some("0.7000"));
    assert_eq!(a[0].proof.as_deref(), Some("admissible(e0)"));
    assert!(!a[1].admitted && a[1].tag.is_none() && a[1].proof.is_none());
    assert!(!a[2].admitted && a[2].tag.is_none());
    // Missing answers are no answers.
    let a = admissions(&p, vec![]);
    assert!(a.iter().all(|x| !x.admitted));
    // Without a program every claim is admitted.
    let p = plan(&records, &config(&["found"], "", None)).unwrap();
    let a = admissions(&p, vec![None]);
    assert!(a.iter().all(|x| x.admitted && x.tag.is_none() && x.proof.is_none()));
    assert_eq!(a.len(), 3);
}
