//! What a judging run decides without arithmetic: which records are
//! claims, which bearings form the bipolar graph, whether the logical layer
//! runs and on which program, what it is asked about each claim, and what
//! its answer makes of the claim's admission.
use vstd::prelude::*;
use vstd::string::StringExecFns;

use crate::claims::{claim_targets, claims, counted_bearings, counted_positions, positions};
use crate::program::{
    atom_of, atom_table, facts_view, lemma_index_of_unique, logic_program, program_facts,
    program_text, LogicProgram,
};
use crate::record::{opt_view, strs, Config, Record};
use crate::text::{blank, is_blank, push_char};

verus! {

/// Does the logical layer run under `config`? Only with rules that are not
/// blank and a predicate to admit by.
pub open spec fn rules_run(config: Config) -> bool {
    !is_blank(config.rules@) && config.admit_predicate is Some
}

/// The query that asks whether the claim `t` is admitted: the admitting
/// predicate applied to the claim's atom, when the claim has one.
pub open spec fn query_for(tbl: Seq<Seq<char>>, predicate: Seq<char>, t: Seq<char>) -> Option<Seq<char>> {
    if tbl.contains(t) {
        Some(predicate + seq!['('] + atom_of(tbl, t) + seq![')'])
    } else {
        None
    }
}

/// The parts of a judging run that involve no arithmetic.
pub struct Plan {
    /// The claims, in order: each becomes one verdict.
    pub claims: Vec<String>,
    /// The bipolar graph: the position of each counted bearing.
    pub edges: Vec<(usize, usize)>,
    /// The program of the logical layer, when it runs.
    pub program: Option<LogicProgram>,
    /// For each claim, when the logical layer runs, the query whose
    /// derivation admits it; `None` for a claim that no fact mentions.
    pub queries: Vec<Option<String>>,
}

/// The position of `t` in `v`, if it is there.
fn position_of(v: &Vec<String>, t: &String) -> (r: Option<usize>)
    ensures
        match r {
            Some(k) => k < v@.len() && v@[k as int]@ == t@,
            None => !strs(v@).contains(t@),
        },
{
    let mut a: usize = 0;
    while a < v.len()
        invariant
            a <= v.len(),
            forall|m: int| 0 <= m < a ==> v@[m]@ != t@,
        decreases v.len() - a,
    {
        if v[a] == *t {
            return Some(a);
        }
        a = a + 1;
    }
    proof {
        if strs(v@).contains(t@) {
            let m = choose|m: int| 0 <= m < strs(v@).len() && strs(v@)[m] == t@;
            assert(v@[m]@ == t@);
        }
    }
    None
}

/// The query for each target: `predicate(atom)` for a target that the
/// intern table holds.
pub fn admission_queries(targets: &Vec<String>, atoms: &Vec<String>, predicate: &String) -> (q: Vec<
    Option<String>,
>)
    requires
        strs(atoms@).no_duplicates(),
    ensures
        q@.len() == targets@.len(),
        forall|k: int|
            0 <= k < targets@.len() ==> crate::record::opt_view(#[trigger] q@[k]) == query_for(
                strs(atoms@),
                predicate@,
                targets@[k]@,
            ),
{
    let mut q: Vec<Option<String>> = Vec::new();
    for k in 0..targets.len()
        invariant
            strs(atoms@).no_duplicates(),
            q@.len() == k,
            forall|m: int|
                0 <= m < k ==> crate::record::opt_view(#[trigger] q@[m]) == query_for(
                    strs(atoms@),
                    predicate@,
                    targets@[m]@,
                ),
    {
        let t = &targets[k];
        let found = position_of(atoms, t);
        match found {
            Some(idx) => {
                proof {
                    assert(strs(atoms@)[idx as int] == t@);
                    lemma_index_of_unique(strs(atoms@), idx as int, t@);
                }
                let mut s = String::new();
                s.append(predicate.as_str());
                push_char(&mut s, '(');
                push_char(&mut s, 'e');
                crate::text::push_decimal(&mut s, idx);
                push_char(&mut s, ')');
                proof {
                    assert(s@ =~= predicate@ + seq!['('] + atom_of(strs(atoms@), t@) + seq![')']);
                }
                q.push(Some(s));
            },
            None => {
                q.push(None);
            },
        }
    }
    q
}

/// Does some bearing of `rs` carry the signal class `name`?
pub open spec fn carried(rs: Seq<Record>, name: Seq<char>) -> bool {
    exists|i: int, j: int|
        0 <= i < rs.len() && 0 <= j < rs[i].bearings@.len() && #[trigger] opt_view(rs[i].bearings@[j].basis)
            == Some(name)
}

/// The basis names that a configuration lists: `bases`, then the names of
/// `scaled_bases`.
pub open spec fn config_names(config: Config) -> Seq<Seq<char>> {
    strs(config.bases@) + strs(config.scaled_bases@)
}

/// Is `names[k]` the first of `names` that no bearing of `rs` carries?
pub open spec fn first_unknown_at(names: Seq<Seq<char>>, rs: Seq<Record>, k: int) -> bool {
    &&& 0 <= k < names.len()
    &&& !carried(rs, names[k])
    &&& forall|m: int| 0 <= m < k ==> carried(rs, #[trigger] names[m])
}

/// The error that names an unknown basis.
pub open spec fn unknown_basis_message(name: Seq<char>) -> Seq<char> {
    "unknown basis \""@ + name + "\": no bearing of the records carries it"@
}

/// Does some bearing of `records` carry the signal class `name`?
fn carries(records: &Vec<Record>, name: &String) -> (r: bool)
    ensures
        r == carried(records@, name@),
{
    let n = records.len();
    for i in 0..n
        invariant
            n == records@.len(),
            forall|i2: int, j2: int|
                0 <= i2 < i && 0 <= j2 < records@[i2].bearings@.len() ==> #[trigger] opt_view(
                    records@[i2].bearings@[j2].basis,
                ) != Some(name@),
    {
        let bs = &records[i].bearings;
        let m = bs.len();
        for j in 0..m
            invariant
                n == records@.len(),
                i < n,
                *bs == records@[i as int].bearings,
                m == bs@.len(),
                forall|i2: int, j2: int|
                    0 <= i2 < i && 0 <= j2 < records@[i2].bearings@.len() ==> #[trigger] opt_view(
                        records@[i2].bearings@[j2].basis,
                    ) != Some(name@),
                forall|j2: int| 0 <= j2 < j ==> #[trigger] opt_view(bs@[j2].basis) != Some(name@),
        {
            match &bs[j].basis {
                Some(b) => {
                    if *b == *name {
                        proof {
                            assert(opt_view(records@[i as int].bearings@[j as int].basis) == Some(name@));
                        }
                        return true;
                    }
                },
                None => {},
            }
        }
    }
    false
}

/// Checks that every basis name of `config` (in `bases`, then in
/// `scaled_bases`) is carried by some bearing of `records`, so that a
/// mistyped condition is a loud error rather than a run that silently
/// measured nothing. The error names the first unknown name.
///
/// Names are checked against the records only: checking them against the
/// evidence-core registry of schemes would need that crate, which this
/// library does without.
pub fn check_config(records: &Vec<Record>, config: &Config) -> (r: Result<(), String>)
    ensures
        match r {
            Ok(()) => forall|k: int|
                0 <= k < config_names(*config).len() ==> carried(records@, #[trigger] config_names(*config)[k]),
            Err(e) => exists|k: int|
                first_unknown_at(config_names(*config), records@, k) && e@ == unknown_basis_message(
                    config_names(*config)[k],
                ),
        },
{
    let ghost names = config_names(*config);
    let nb = config.bases.len();
    let ns = config.scaled_bases.len();
    for k in 0..nb
        invariant
            names == config_names(*config),
            nb == config.bases@.len(),
            ns == config.scaled_bases@.len(),
            names.len() == nb + ns,
            forall|m: int| 0 <= m < k ==> carried(records@, #[trigger] names[m]),
    {
        assert(names[k as int] == config.bases@[k as int]@);
        if !carries(records, &config.bases[k]) {
            let e = unknown_message(&config.bases[k]);
            proof {
                assert(first_unknown_at(names, records@, k as int));
            }
            return Err(e);
        }
    }
    for k in 0..ns
        invariant
            names == config_names(*config),
            nb == config.bases@.len(),
            ns == config.scaled_bases@.len(),
            names.len() == nb + ns,
            forall|m: int| 0 <= m < nb + k ==> carried(records@, #[trigger] names[m]),
    {
        assert(names[nb + k] == config.scaled_bases@[k as int]@);
        if !carries(records, &config.scaled_bases[k]) {
            let e = unknown_message(&config.scaled_bases[k]);
            proof {
                assert(first_unknown_at(names, records@, nb + k));
            }
            return Err(e);
        }
    }
    Ok(())
}

fn unknown_message(name: &String) -> (e: String)
    ensures
        e@ == unknown_basis_message(name@),
{
    let mut e = String::new();
    e.append("unknown basis \"");
    e.append(name.as_str());
    e.append("\": no bearing of the records carries it");
    e
}

/// Is `p` the plan of a judging run over `rs` under `config`?
pub open spec fn plans(p: Plan, rs: Seq<Record>, config: Config) -> bool {
    &&& strs(p.claims@) == claims(rs, strs(config.bases@))
    &&& positions(p.edges@) == counted_positions(rs, strs(config.bases@))
    &&& (p.program is Some <==> rules_run(config))
    &&& match p.program {
        Some(prog) => {
            &&& strs(prog.atoms@) == atom_table(rs, strs(config.bases@))
            &&& facts_view(prog.facts@) == program_facts(rs, strs(config.bases@))
            &&& prog.source@ == program_text(rs, strs(config.bases@), config.rules@)
            &&& p.queries@.len() == p.claims@.len()
            &&& forall|k: int|
                0 <= k < p.claims@.len() ==> crate::record::opt_view(#[trigger] p.queries@[k]) == query_for(
                    strs(prog.atoms@),
                    config.admit_predicate->0@,
                    p.claims@[k]@,
                )
        },
        None => p.queries@.len() == 0,
    }
}

/// Plans a judging run over `records` under `config`: the claims, the
/// graph, and, when rules are given with a predicate to admit by, the
/// program and the query for each claim. A basis name that no bearing of
/// the records carries is an error, as `check_config` says.
pub fn plan(records: &Vec<Record>, config: &Config) -> (r: Result<Plan, String>)
    ensures
        match r {
            Ok(p) => {
                &&& forall|k: int|
                    0 <= k < config_names(*config).len() ==> carried(
                        records@,
                        #[trigger] config_names(*config)[k],
                    )
                &&& plans(p, records@, *config)
            },
            Err(e) => exists|k: int|
                first_unknown_at(config_names(*config), records@, k) && e@ == unknown_basis_message(
                    config_names(*config)[k],
                ),
        },
{
    match check_config(records, config) {
        Err(e) => {
            return Err(e);
        },
        Ok(()) => {},
    }
    let targets = claim_targets(records, &config.bases);
    let edges = counted_bearings(records, &config.bases);
    if blank(config.rules.as_str()) {
        return Ok(Plan { claims: targets, edges, program: None, queries: Vec::new() });
    }
    match &config.admit_predicate {
        None => Ok(Plan { claims: targets, edges, program: None, queries: Vec::new() }),
        Some(predicate) => {
            let prog = logic_program(records, &config.bases, &config.rules);
            proof {
                crate::claims::lemma_dedup(crate::program::requests(records@, strs(config.bases@)));
            }
            let queries = admission_queries(&targets, &prog.atoms, predicate);
            Ok(Plan { claims: targets, edges, program: Some(prog), queries })
        },
    }
}

/// A claim's admission: whether it was admitted, and the rendered tag and
/// derivation that admitted it.
pub struct Admission {
    pub admitted: bool,
    pub tag: Option<String>,
    pub proof: Option<String>,
}

/// The admission of a claim, given whether the logical layer ran and, if it
/// did, what its query found: the tag and derivation of the admitting fact,
/// or nothing. Without a logical layer every claim is admitted.
pub fn admission_of(rules_ran: bool, found: Option<(String, String)>) -> (a: Admission)
    ensures
        !rules_ran ==> a.admitted && a.tag is None && a.proof is None,
        rules_ran ==> match found {
            Some((tag, proof)) => a.admitted && a.tag == Some(tag) && a.proof == Some(proof),
            None => !a.admitted && a.tag is None && a.proof is None,
        },
{
    if !rules_ran {
        return Admission { admitted: true, tag: None, proof: None };
    }
    match found {
        Some((tag, proof)) => Admission { admitted: true, tag: Some(tag), proof: Some(proof) },
        None => Admission { admitted: false, tag: None, proof: None },
    }
}

/// The answer to query `k`: what the logical layer found for it, if it
/// answered it.
pub open spec fn answer_at(answers: Seq<Option<(String, String)>>, k: int) -> Option<(String, String)> {
    if 0 <= k < answers.len() {
        answers[k]
    } else {
        None
    }
}

/// The admission of each claim of `p`, given the logical layer's answer to
/// each query (position for position; a missing answer is no answer).
/// Without a program every claim is admitted; with one, a claim is
/// admitted exactly when it has a query and that query was answered, and
/// the tag and derivation are the answer's.
pub fn admissions(p: &Plan, answers: Vec<Option<(String, String)>>) -> (out: Vec<Admission>)
    ensures
        out@.len() == p.claims@.len(),
        forall|k: int|
            0 <= k < p.claims@.len() ==> {
                let a = #[trigger] out@[k];
                if p.program is None {
                    a.admitted && a.tag is None && a.proof is None
                } else {
                    match answer_at(answers@, k) {
                        Some((tag, derivation)) => if k < p.queries@.len() && p.queries@[k] is Some {
                            a.admitted && a.tag == Some(tag) && a.proof == Some(derivation)
                        } else {
                            !a.admitted && a.tag is None && a.proof is None
                        },
                        None => !a.admitted && a.tag is None && a.proof is None,
                    }
                }
            },
{
    let ran = p.program.is_some();
    let mut out: Vec<Admission> = Vec::new();
    let n = p.claims.len();
    for k in 0..n
        invariant
            n == p.claims@.len(),
            ran == p.program is Some,
            out@.len() == k,
            forall|m: int|
                0 <= m < k ==> {
                    let a = #[trigger] out@[m];
                    if p.program is None {
                        a.admitted && a.tag is None && a.proof is None
                    } else {
                        match answer_at(answers@, m) {
                            Some((tag, derivation)) => if m < p.queries@.len() && p.queries@[m] is Some {
                                a.admitted && a.tag == Some(tag) && a.proof == Some(derivation)
                            } else {
                                !a.admitted && a.tag is None && a.proof is None
                            },
                            None => !a.admitted && a.tag is None && a.proof is None,
                        }
                    }
                },
    {
        let asked = k < p.queries.len() && p.queries[k].is_some();
        let found = if asked && k < answers.len() {
            match &answers[k] {
                Some((tag, derivation)) => Some((tag.clone(), derivation.clone())),
                None => None,
            }
        } else {
            None
        };
        out.push(admission_of(ran, found));
    }
    out
}

/// The logical layer runs exactly when the rules hold a character that is
/// not white space and a predicate is given.
pub proof fn lemma_rules_run_on_any_visible_character(config: Config)
    ensures
        rules_run(config) <==> ((exists|i: int|
            0 <= i < config.rules@.len() && !crate::text::is_white_space(#[trigger] config.rules@[i]))
            && config.admit_predicate is Some),
{
}

/// Appending white space to the rules (a rules file's final line break)
/// never changes whether the logical layer runs.
pub proof fn lemma_trailing_white_space_is_no_change(c1: Config, c2: Config, ws: Seq<char>)
    requires
        forall|i: int| 0 <= i < ws.len() ==> crate::text::is_white_space(#[trigger] ws[i]),
        c2.rules@ == c1.rules@ + ws,
        c2.admit_predicate == c1.admit_predicate,
    ensures
        rules_run(c1) == rules_run(c2),
{
    let r1 = c1.rules@;
    let r2 = c2.rules@;
    if exists|i: int| 0 <= i < r1.len() && !crate::text::is_white_space(#[trigger] r1[i]) {
        let i = choose|i: int| 0 <= i < r1.len() && !crate::text::is_white_space(#[trigger] r1[i]);
        assert(r2[i] == r1[i]);
        assert(!crate::text::is_blank(r2));
    }
    if exists|i: int| 0 <= i < r2.len() && !crate::text::is_white_space(#[trigger] r2[i]) {
        let i = choose|i: int| 0 <= i < r2.len() && !crate::text::is_white_space(#[trigger] r2[i]);
        if i >= r1.len() {
            assert(r2[i] == ws[i - r1.len()]);
        } else {
            assert(r2[i] == r1[i]);
        }
        assert(!crate::text::is_blank(r1));
    }
}

/// A basis name that the basis of any bearing of any record equals is
/// carried; so when every listed name is the basis of some bearing, no name
/// is unknown and `check_config` (and `plan`) succeed.
pub proof fn lemma_names_on_bearings_are_known(rs: Seq<Record>, config: Config)
    ensures
        forall|i: int, j: int|
            0 <= i < rs.len() && 0 <= j < rs[i].bearings@.len() && (#[trigger] rs[i].bearings@[j]).basis
                is Some ==> carried(rs, opt_view(rs[i].bearings@[j].basis)->0),
        (forall|k: int|
            0 <= k < config_names(config).len() ==> exists|i: int, j: int|
                0 <= i < rs.len() && 0 <= j < rs[i].bearings@.len() && #[trigger] opt_view(
                    rs[i].bearings@[j].basis,
                ) == Some(#[trigger] config_names(config)[k])) ==> forall|k: int|
            !#[trigger] first_unknown_at(config_names(config), rs, k),
{
    if forall|k: int|
        0 <= k < config_names(config).len() ==> exists|i: int, j: int|
            0 <= i < rs.len() && 0 <= j < rs[i].bearings@.len() && #[trigger] opt_view(
                rs[i].bearings@[j].basis,
            ) == Some(#[trigger] config_names(config)[k]) {
        assert forall|k: int| !#[trigger] first_unknown_at(config_names(config), rs, k) by {
            if 0 <= k < config_names(config).len() {
                let name = config_names(config)[k];
                let (i, j) = choose|i: int, j: int|
                    0 <= i < rs.len() && 0 <= j < rs[i].bearings@.len() && #[trigger] opt_view(
                        rs[i].bearings@[j].basis,
                    ) == Some(name);
                assert(carried(rs, name));
            }
        }
    }
}

/// Every listed name is checked, in `bases` and in `scaled_bases` alike: if
/// any of them is the basis of no bearing, there is a first unknown name,
/// and `check_config` (and `plan`) fail.
pub proof fn lemma_every_listed_name_is_checked(rs: Seq<Record>, config: Config)
    requires
        (exists|k: int| 0 <= k < config.bases@.len() && !carried(rs, #[trigger] config.bases@[k]@)) || (exists|
            k: int,
        | 0 <= k < config.scaled_bases@.len() && !carried(rs, #[trigger] config.scaled_bases@[k]@)),
    ensures
        exists|k: int| #[trigger] first_unknown_at(config_names(config), rs, k),
{
    let names = config_names(config);
    let nb = config.bases@.len();
    let bad = if exists|k: int| 0 <= k < nb && !carried(rs, #[trigger] config.bases@[k]@) {
        let k = choose|k: int| 0 <= k < nb && !carried(rs, #[trigger] config.bases@[k]@);
        assert(names[k] == config.bases@[k]@);
        k
    } else {
        let k = choose|k: int|
            0 <= k < config.scaled_bases@.len() && !carried(rs, #[trigger] config.scaled_bases@[k]@);
        assert(names[nb + k] == config.scaled_bases@[k]@);
        nb + k
    };
    assert(0 <= bad < names.len() && !carried(rs, names[bad]));
    lemma_first_unknown_exists(names, rs, bad);
}

proof fn lemma_first_unknown_exists(names: Seq<Seq<char>>, rs: Seq<Record>, bad: int)
    requires
        0 <= bad < names.len(),
        !carried(rs, names[bad]),
    ensures
        exists|k: int| #[trigger] first_unknown_at(names, rs, k),
    decreases bad,
{
    if forall|m: int| 0 <= m < bad ==> carried(rs, #[trigger] names[m]) {
        assert(first_unknown_at(names, rs, bad));
    } else {
        let m = choose|m: int| 0 <= m < bad && !carried(rs, #[trigger] names[m]);
        lemma_first_unknown_exists(names, rs, m);
    }
}

} // verus!
