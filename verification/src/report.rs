//! Render judged claims as a report a human signs off on.
//!
//! The tiers are the point. The report leads with the one distinction an
//! auditor needs:
//!
//! 1. **Reportable, verified**: admitted by the rules and carrying an upheld
//!    check.
//! 2. **Reportable, unverified**: admitted, but nothing independent
//!    corroborated it.
//! 3. **Contested**: admitted, but evidence argues against it.
//! 4. **Excluded**: refuted by a check, or not admitted by the rules; kept,
//!    with its reason.
//!
//! Admission proofs are included verbatim.
use vstd::prelude::*;
use vstd::string::StringExecFns;

use crate::record::Record;
use crate::text::{decimal, push_decimal, push_trimmed_end, trim_end};

verus! {

/// A judged claim, as the report shows it. The numbers come rendered.
pub struct Judged {
    /// The `evidence_id` of the claim.
    pub on: String,
    pub admitted: bool,
    /// The rendered admission tag, when a semiring computed one.
    pub admission: Option<String>,
    /// The admitting derivation, rendered.
    pub proof: Option<String>,
    /// Does evidence argue against the claim: is its contestedness above
    /// zero, or its strength below the neutral 0.5?
    pub contested: bool,
    /// The strength, rendered to three decimals.
    pub strength: String,
    /// The contestedness, rendered to three decimals.
    pub contestedness: String,
}

/// The position of the record that a claim id refers to: the last record
/// carrying that id.
pub open spec fn record_for(rs: Seq<Record>, id: Seq<char>) -> Option<int>
    decreases rs.len(),
{
    if rs.len() == 0 {
        None
    } else if rs.last().evidence_id@ == id {
        Some(rs.len() - 1)
    } else {
        record_for(rs.drop_last(), id)
    }
}

/// Does the record of claim `id` carry a check with ruling `upheld`?
pub open spec fn ruled(rs: Seq<Record>, id: Seq<char>, upheld: bool) -> bool {
    match record_for(rs, id) {
        Some(k) => rs[k].check is Some && rs[k].check->0.upheld == upheld,
        None => false,
    }
}

/// The tier of a judged claim: 3, excluded, when not admitted or refuted;
/// else 2, contested; else 0, verified, with an upheld check; else 1.
pub open spec fn tier_of(rs: Seq<Record>, v: Judged) -> int {
    if !v.admitted || ruled(rs, v.on@, false) {
        3
    } else if v.contested {
        2
    } else if ruled(rs, v.on@, true) {
        0
    } else {
        1
    }
}

/// The claims of tier `t`, in the order given.
pub open spec fn tier_members(rs: Seq<Record>, vs: Seq<Judged>, t: int) -> Seq<Judged>
    decreases vs.len(),
{
    if vs.len() == 0 {
        Seq::empty()
    } else if tier_of(rs, vs.last()) == t {
        tier_members(rs, vs.drop_last(), t).push(vs.last())
    } else {
        tier_members(rs, vs.drop_last(), t)
    }
}

pub open spec fn tier_name(t: int) -> Seq<char> {
    if t == 0 {
        "Reportable — independently verified"@
    } else if t == 1 {
        "Reportable — unverified"@
    } else if t == 2 {
        "Contested"@
    } else {
        "Excluded"@
    }
}

pub open spec fn tier_blurb(t: int) -> Seq<char> {
    if t == 0 {
        "Admitted by the rules and carrying an upheld check. The tier a compliance statement cites."@
    } else if t == 1 {
        "Admitted, but nothing independent corroborated it. Real work items with weaker standing."@
    } else if t == 2 {
        "Admitted, but evidence argues against it — an exception or counter-finding. Contestedness says how disputed."@
    } else {
        "Refuted by a check or not admitted by the rules. Kept with reasons: a silently dropped finding is a liability."@
    }
}

/// The lines of a record's check.
pub open spec fn check_lines(check: Option<crate::record::Check>) -> Seq<char> {
    match check {
        Some(c) => "- **Check:** "@ + (if c.upheld {
            "upheld"@
        } else {
            "REFUTED"@
        }) + " by "@ + c.by@ + " ("@ + c.method@ + ")\n"@ + match c.reason {
            Some(reason) => "  - "@ + reason@ + "\n"@,
            None => Seq::empty(),
        },
        None => Seq::empty(),
    }
}

/// The line of a record's recording time.
pub open spec fn recorded_line(at: Option<String>) -> Seq<char> {
    match at {
        Some(at) => "- **Recorded:** "@ + at@ + "\n"@,
        None => Seq::empty(),
    }
}

/// The lines of a record's check and recording time.
pub open spec fn record_lines(r: Record) -> Seq<char> {
    check_lines(r.check) + recorded_line(r.recorded_at)
}

/// The line of an admission tag.
pub open spec fn admission_line(tag: Option<String>) -> Seq<char> {
    match tag {
        Some(tag) => "- **Admission:** "@ + tag@ + "\n"@,
        None => Seq::empty(),
    }
}

/// The lines of an admitting derivation, trailing white space trimmed.
pub open spec fn proof_lines(derivation: Option<String>) -> Seq<char> {
    match derivation {
        Some(derivation) => "- **Why admitted:**\n\n```\n"@ + trim_end(derivation@) + "\n```\n"@,
        None => Seq::empty(),
    }
}

/// The report entry of one judged claim.
pub open spec fn entry_text(rs: Seq<Record>, v: Judged) -> Seq<char> {
    let rec = record_for(rs, v.on@);
    let heading = match rec {
        Some(k) => rs[k].claim@,
        None => v.on@,
    };
    "### "@ + heading + "\n\n"@ + "- **Id:** `"@ + v.on@ + "`\n"@ + match rec {
        Some(k) => record_lines(rs[k]),
        None => Seq::empty(),
    } + "- **Strength:** "@ + v.strength@ + " · **Contestedness:** "@ + v.contestedness@ + "\n"@
        + admission_line(v.admission) + proof_lines(v.proof) + "\n"@
}

/// The entries of `ms`, in order.
pub open spec fn entries_text(rs: Seq<Record>, ms: Seq<Judged>) -> Seq<char>
    decreases ms.len(),
{
    if ms.len() == 0 {
        Seq::empty()
    } else {
        entries_text(rs, ms.drop_last()) + entry_text(rs, ms.last())
    }
}

/// Tier `t`'s section: absent when the tier is empty.
pub open spec fn section_text(rs: Seq<Record>, vs: Seq<Judged>, t: int) -> Seq<char> {
    let ms = tier_members(rs, vs, t);
    if ms.len() == 0 {
        Seq::empty()
    } else {
        "## "@ + tier_name(t) + "\n\n> "@ + tier_blurb(t) + "\n\n"@ + entries_text(rs, ms)
    }
}

/// The whole report.
pub open spec fn report_text(rs: Seq<Record>, vs: Seq<Judged>, title: Seq<char>) -> Seq<char> {
    "# "@ + title + "\n\n"@ + decimal(vs.len()) + " claim(s) judged — "@ + decimal(
        tier_members(rs, vs, 0).len(),
    ) + " reportable-verified, "@ + decimal(tier_members(rs, vs, 1).len())
        + " reportable-unverified, "@ + decimal(tier_members(rs, vs, 2).len()) + " contested, "@
        + decimal(tier_members(rs, vs, 3).len()) + " excluded\n\n"@ + section_text(rs, vs, 0)
        + section_text(rs, vs, 1) + section_text(rs, vs, 2) + section_text(rs, vs, 3)
}

// ----------------------------------------------------------------------

/// The position of the last record with id `id`.
fn find_record(records: &Vec<Record>, id: &String) -> (r: Option<usize>)
    ensures
        match r {
            Some(k) => record_for(records@, id@) == Some(k as int) && k < records@.len(),
            None => record_for(records@, id@) is None,
        },
{
    let ghost rs = records@;
    let mut k: usize = records.len();
    proof {
        assert(rs.take(k as int) =~= rs);
    }
    while k > 0
        invariant
            rs == records@,
            k <= rs.len(),
            record_for(rs, id@) == record_for(rs.take(k as int), id@),
        decreases k,
    {
        proof {
            assert(rs.take(k as int).drop_last() =~= rs.take(k - 1));
            assert(rs.take(k as int).last() == rs[k - 1]);
        }
        if records[k - 1].evidence_id == *id {
            return Some(k - 1);
        }
        k = k - 1;
    }
    None
}

/// The tier of `v`, as `tier_of` defines it.
pub fn tier(records: &Vec<Record>, v: &Judged) -> (t: usize)
    ensures
        t as int == tier_of(records@, *v),
{
    let rec = find_record(records, &v.on);
    let (verified, refuted) = match rec {
        Some(k) => match &records[k].check {
            Some(c) => (c.upheld, !c.upheld),
            None => (false, false),
        },
        None => (false, false),
    };
    if !v.admitted || refuted {
        3
    } else if v.contested {
        2
    } else if verified {
        0
    } else {
        1
    }
}

fn push_str(out: &mut String, s: &str)
    ensures
        final(out)@ == old(out)@ + s@,
{
    out.append(s);
}

/// Appends the check and recording lines of `r`.
fn push_record_lines(md: &mut String, r: &Record)
    ensures
        final(md)@ == old(md)@ + record_lines(*r),
{
    let ghost start = md@;
    match &r.check {
        Some(c) => {
            push_str(md, "- **Check:** ");
            if c.upheld {
                push_str(md, "upheld");
            } else {
                push_str(md, "REFUTED");
            }
            push_str(md, " by ");
            push_str(md, c.by.as_str());
            push_str(md, " (");
            push_str(md, c.method.as_str());
            push_str(md, ")\n");
            match &c.reason {
                Some(reason) => {
                    push_str(md, "  - ");
                    push_str(md, reason.as_str());
                    push_str(md, "\n");
                },
                None => {},
            }
        },
        None => {},
    }
    let ghost mid = md@;
    proof {
        assert(mid =~= start + check_lines(r.check));
    }
    match &r.recorded_at {
        Some(at) => {
            push_str(md, "- **Recorded:** ");
            push_str(md, at.as_str());
            push_str(md, "\n");
        },
        None => {},
    }
    proof {
        assert(md@ =~= start + record_lines(*r));
    }
}

/// Appends the admission and derivation lines of `v`.
fn push_admission_lines(md: &mut String, v: &Judged)
    ensures
        final(md)@ == old(md)@ + admission_line(v.admission) + proof_lines(v.proof),
{
    let ghost start = md@;
    match &v.admission {
        Some(tag) => {
            push_str(md, "- **Admission:** ");
            push_str(md, tag.as_str());
            push_str(md, "\n");
        },
        None => {},
    }
    let ghost mid = md@;
    proof {
        assert(mid =~= start + admission_line(v.admission));
    }
    match &v.proof {
        Some(derivation) => {
            push_str(md, "- **Why admitted:**\n\n```\n");
            push_trimmed_end(md, derivation.as_str());
            push_str(md, "\n```\n");
        },
        None => {},
    }
    proof {
        assert(md@ =~= mid + proof_lines(v.proof));
    }
}

/// Appends the report entry of `v`.
fn push_entry(md: &mut String, records: &Vec<Record>, v: &Judged)
    ensures
        final(md)@ == old(md)@ + entry_text(records@, *v),
{
    let rec = find_record(records, &v.on);
    let ghost start = md@;
    push_str(md, "### ");
    match rec {
        Some(k) => push_str(md, records[k].claim.as_str()),
        None => push_str(md, v.on.as_str()),
    }
    push_str(md, "\n\n");
    push_str(md, "- **Id:** `");
    push_str(md, v.on.as_str());
    push_str(md, "`\n");
    let ghost after_id = md@;
    match rec {
        Some(k) => push_record_lines(md, &records[k]),
        None => {},
    }
    let ghost after_record = md@;
    push_str(md, "- **Strength:** ");
    push_str(md, v.strength.as_str());
    push_str(md, " · **Contestedness:** ");
    push_str(md, v.contestedness.as_str());
    push_str(md, "\n");
    let ghost after_numbers = md@;
    push_admission_lines(md, v);
    let ghost after_admission = md@;
    push_str(md, "\n");
    proof {
        let heading = match rec {
            Some(k) => records@[k as int].claim@,
            None => v.on@,
        };
        let lines = match rec {
            Some(k) => record_lines(records@[k as int]),
            None => Seq::<char>::empty(),
        };
        assert(after_id =~= start + "### "@ + heading + "\n\n"@ + "- **Id:** `"@ + v.on@ + "`\n"@);
        assert(after_record =~= after_id + lines);
        assert(after_numbers =~= after_record + "- **Strength:** "@ + v.strength@ + " · **Contestedness:** "@
            + v.contestedness@ + "\n"@);
        assert(md@ =~= start + entry_text(records@, *v));
    }
}

/// The judged claims at positions `idx`.
pub open spec fn picks(vs: Seq<Judged>, idx: Seq<usize>) -> Seq<Judged> {
    idx.map_values(|i: usize| vs[i as int])
}

/// `idx` picks out tier `t` of the first `k` judged claims.
pub open spec fn picks_tier(rs: Seq<Record>, vs: Seq<Judged>, k: int, idx: Seq<usize>, t: int) -> bool {
    &&& picks(vs, idx) == tier_members(rs, vs.take(k), t)
    &&& forall|i: int| 0 <= i < idx.len() ==> #[trigger] idx[i] < k
}

proof fn lemma_picks_step(rs: Seq<Record>, vs: Seq<Judged>, k: usize, idx: Seq<usize>, t: int)
    requires
        k < vs.len(),
        picks_tier(rs, vs, k as int, idx, t),
    ensures
        tier_of(rs, vs[k as int]) == t ==> picks_tier(rs, vs, k + 1, idx.push(k), t),
        tier_of(rs, vs[k as int]) != t ==> picks_tier(rs, vs, k + 1, idx, t),
{
    assert(vs.take(k + 1).drop_last() =~= vs.take(k as int));
    assert(vs.take(k + 1).last() == vs[k as int]);
    assert(picks(vs, idx.push(k)) =~= picks(vs, idx).push(vs[k as int]));
}

/// Sorts the first `k` claims' positions into their tiers.
fn push_tier(
    t: usize,
    k: usize,
    t0: &mut Vec<usize>,
    t1: &mut Vec<usize>,
    t2: &mut Vec<usize>,
    t3: &mut Vec<usize>,
    Ghost(rs): Ghost<Seq<Record>>,
    Ghost(vs): Ghost<Seq<Judged>>,
)
    requires
        k < vs.len(),
        t as int == tier_of(rs, vs[k as int]),
        picks_tier(rs, vs, k as int, old(t0)@, 0),
        picks_tier(rs, vs, k as int, old(t1)@, 1),
        picks_tier(rs, vs, k as int, old(t2)@, 2),
        picks_tier(rs, vs, k as int, old(t3)@, 3),
    ensures
        picks_tier(rs, vs, k + 1, final(t0)@, 0),
        picks_tier(rs, vs, k + 1, final(t1)@, 1),
        picks_tier(rs, vs, k + 1, final(t2)@, 2),
        picks_tier(rs, vs, k + 1, final(t3)@, 3),
{
    proof {
        lemma_picks_step(rs, vs, k, t0@, 0);
        lemma_picks_step(rs, vs, k, t1@, 1);
        lemma_picks_step(rs, vs, k, t2@, 2);
        lemma_picks_step(rs, vs, k, t3@, 3);
    }
    if t == 0 {
        t0.push(k);
    } else if t == 1 {
        t1.push(k);
    } else if t == 2 {
        t2.push(k);
    } else {
        t3.push(k);
    }
}

/// Appends the section of tier `t`, whose members sit at `idx`.
fn push_section(
    md: &mut String,
    records: &Vec<Record>,
    verdicts: &Vec<Judged>,
    idx: &Vec<usize>,
    t: usize,
)
    requires
        t < 4,
        picks_tier(records@, verdicts@, verdicts@.len() as int, idx@, t as int),
    ensures
        final(md)@ == old(md)@ + section_text(records@, verdicts@, t as int),
{
    let ghost vs = verdicts@;
    let ghost ms = tier_members(records@, vs, t as int);
    proof {
        assert(vs.take(vs.len() as int) =~= vs);
    }
    if idx.len() == 0 {
        proof {
            assert(ms.len() == 0);
            assert(md@ =~= old(md)@ + section_text(records@, verdicts@, t as int));
        }
        return;
    }
    let ghost start = md@;
    push_str(md, "## ");
    if t == 0 {
        push_str(md, "Reportable — independently verified");
    } else if t == 1 {
        push_str(md, "Reportable — unverified");
    } else if t == 2 {
        push_str(md, "Contested");
    } else {
        push_str(md, "Excluded");
    }
    push_str(md, "\n\n> ");
    if t == 0 {
        push_str(md, "Admitted by the rules and carrying an upheld check. The tier a compliance statement cites.");
    } else if t == 1 {
        push_str(md, "Admitted, but nothing independent corroborated it. Real work items with weaker standing.");
    } else if t == 2 {
        push_str(
            md,
            "Admitted, but evidence argues against it — an exception or counter-finding. Contestedness says how disputed.",
        );
    } else {
        push_str(
            md,
            "Refuted by a check or not admitted by the rules. Kept with reasons: a silently dropped finding is a liability.",
        );
    }
    push_str(md, "\n\n");
    let ghost head = md@;
    proof {
        assert(head =~= start + ("## "@ + tier_name(t as int) + "\n\n> "@ + tier_blurb(t as int) + "\n\n"@));
        assert(ms.take(0) =~= Seq::<Judged>::empty());
        assert(md@ =~= head + entries_text(records@, ms.take(0)));
    }
    let m = idx.len();
    for j in 0..m
        invariant
            m == idx@.len(),
            vs == verdicts@,
            ms == tier_members(records@, vs, t as int),
            picks(vs, idx@) == ms,
            forall|i: int| 0 <= i < idx@.len() ==> #[trigger] idx@[i] < vs.len(),
            md@ == head + entries_text(records@, ms.take(j as int)),
    {
        proof {
            assert(ms.take(j + 1).drop_last() =~= ms.take(j as int));
            assert(ms.take(j + 1).last() == ms[j as int]);
            assert(ms[j as int] == vs[idx@[j as int] as int]);
        }
        push_entry(md, records, &verdicts[idx[j]]);
        proof {
            assert(md@ =~= head + entries_text(records@, ms.take(j + 1)));
        }
    }
    proof {
        assert(ms.take(m as int) =~= ms);
        assert(md@ =~= start + section_text(records@, verdicts@, t as int));
    }
}

/// Render a Markdown report from judged claims. `records` supplies the
/// claims, checks and dates the verdicts refer to (the last record with a
/// claim's id); entries without a matching record are rendered from the
/// verdict alone. Within a tier, claims keep the order given.
pub fn render(records: &Vec<Record>, verdicts: &Vec<Judged>, title: &str) -> (md: String)
    ensures
        md@ == report_text(records@, verdicts@, title@),
{
    let ghost rs = records@;
    let ghost vs = verdicts@;
    let mut t0: Vec<usize> = Vec::new();
    let mut t1: Vec<usize> = Vec::new();
    let mut t2: Vec<usize> = Vec::new();
    let mut t3: Vec<usize> = Vec::new();
    let n = verdicts.len();
    proof {
        assert(vs.take(0) =~= Seq::<Judged>::empty());
        assert(picks(vs, t0@) =~= Seq::<Judged>::empty());
    }
    for k in 0..n
        invariant
            n == vs.len(),
            rs == records@,
            vs == verdicts@,
            picks_tier(rs, vs, k as int, t0@, 0),
            picks_tier(rs, vs, k as int, t1@, 1),
            picks_tier(rs, vs, k as int, t2@, 2),
            picks_tier(rs, vs, k as int, t3@, 3),
    {
        let t = tier(records, &verdicts[k]);
        push_tier(t, k, &mut t0, &mut t1, &mut t2, &mut t3, Ghost(rs), Ghost(vs));
    }
    proof {
        assert(vs.take(n as int) =~= vs);
    }
    let mut md = String::new();
    push_str(&mut md, "# ");
    push_str(&mut md, title);
    push_str(&mut md, "\n\n");
    push_decimal(&mut md, n);
    push_str(&mut md, " claim(s) judged — ");
    push_decimal(&mut md, t0.len());
    push_str(&mut md, " reportable-verified, ");
    push_decimal(&mut md, t1.len());
    push_str(&mut md, " reportable-unverified, ");
    push_decimal(&mut md, t2.len());
    push_str(&mut md, " contested, ");
    push_decimal(&mut md, t3.len());
    push_str(&mut md, " excluded\n\n");
    let ghost head = md@;
    push_section(&mut md, records, verdicts, &t0, 0);
    push_section(&mut md, records, verdicts, &t1, 1);
    push_section(&mut md, records, verdicts, &t2, 2);
    push_section(&mut md, records, verdicts, &t3, 3);
    proof {
        assert(t0@.len() == tier_members(rs, vs, 0).len());
        assert(t1@.len() == tier_members(rs, vs, 1).len());
        assert(t2@.len() == tier_members(rs, vs, 2).len());
        assert(t3@.len() == tier_members(rs, vs, 3).len());
        assert(md@ =~= report_text(rs, vs, title@));
    }
    md
}

/// Every judged claim stands in exactly one tier: the tiers' sizes add up
/// to the number of claims, and each tier holds only claims of its own
/// standing, in the order given. A dismissed claim is kept, not dropped.
pub proof fn lemma_tiers_partition(rs: Seq<Record>, vs: Seq<Judged>)
    ensures
        tier_members(rs, vs, 0).len() + tier_members(rs, vs, 1).len() + tier_members(rs, vs, 2).len()
            + tier_members(rs, vs, 3).len() == vs.len(),
        forall|t: int, i: int|
            0 <= i < tier_members(rs, vs, t).len() ==> tier_of(rs, #[trigger] tier_members(rs, vs, t)[i]) == t,
    decreases vs.len(),
{
    if vs.len() > 0 {
        lemma_tiers_partition(rs, vs.drop_last());
        let t = tier_of(rs, vs.last());
        assert(0 <= t < 4);
        assert forall|c: int, i: int|
            0 <= i < tier_members(rs, vs, c).len() implies tier_of(rs, #[trigger] tier_members(rs, vs, c)[i]) == c by {
            let p = tier_members(rs, vs.drop_last(), c);
            if i < p.len() {
                assert(tier_members(rs, vs, c)[i] == p[i]);
            }
        }
    }
}

proof fn lemma_record_for_carries_id(rs: Seq<Record>, id: Seq<char>)
    ensures
        match record_for(rs, id) {
            Some(k) => 0 <= k < rs.len() && rs[k].evidence_id@ == id,
            None => forall|i: int| 0 <= i < rs.len() ==> #[trigger] rs[i].evidence_id@ != id,
        },
    decreases rs.len(),
{
    if rs.len() > 0 {
        lemma_record_for_carries_id(rs.drop_last(), id);
        if rs.last().evidence_id@ != id {
            assert forall|i: int| 0 <= i < rs.len() - 1 implies rs[i] == rs.drop_last()[i] by {}
        }
    }
}

/// Where a claim stands. A claim that is not admitted is excluded; an admitted claim that evidence
/// argues against is contested whenever no record with its id carries a
/// refuting check, whatever else its records say; the verified tier takes
/// only admitted, uncontested claims whose record carries an upheld check,
/// and an admitted, uncontested claim without any check is unverified.
pub proof fn lemma_tier_by_standing(rs: Seq<Record>, v: Judged)
    ensures
        !v.admitted ==> tier_of(rs, v) == 3,
        v.admitted && v.contested && (forall|i: int|
            0 <= i < rs.len() && #[trigger] rs[i].evidence_id@ == v.on@ ==> !(rs[i].check is Some
                && !rs[i].check->0.upheld)) ==> tier_of(rs, v) == 2,
        tier_of(rs, v) == 0 ==> v.admitted && !v.contested && exists|i: int|
            0 <= i < rs.len() && #[trigger] rs[i].evidence_id@ == v.on@ && rs[i].check is Some
                && rs[i].check->0.upheld,
        tier_of(rs, v) == 1 ==> v.admitted && !v.contested,
        0 <= tier_of(rs, v) <= 3,
        (exists|i: int| 0 <= i < rs.len() && #[trigger] rs[i].evidence_id@ == v.on@) && (forall|i: int|
            0 <= i < rs.len() && #[trigger] rs[i].evidence_id@ == v.on@ ==> rs[i].check is Some
                && !rs[i].check->0.upheld) ==> tier_of(rs, v) == 3,
        v.admitted && !v.contested && (exists|i: int| 0 <= i < rs.len() && #[trigger] rs[i].evidence_id@ == v.on@)
            && (forall|i: int|
            0 <= i < rs.len() && #[trigger] rs[i].evidence_id@ == v.on@ ==> rs[i].check is Some
                && rs[i].check->0.upheld) ==> tier_of(rs, v) == 0,
        v.admitted && !v.contested && (forall|i: int|
            0 <= i < rs.len() && #[trigger] rs[i].evidence_id@ == v.on@ ==> rs[i].check is None)
            ==> tier_of(rs, v) == 1,
{
    lemma_record_for_carries_id(rs, v.on@);
}

} // verus!
