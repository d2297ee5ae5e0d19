//! The logical layer's input: the records flattened into Datalog facts.
//!
//! Testimony bearings become `found(kind, target)` / `silent(kind, target)`,
//! other bearings `supports(source, target)` / `attacks(source, target)`;
//! a record's own check becomes `verified(e)` / `refuted(e)`, and the year
//! of its source becomes `dated(e, year)`. Evidence ids are not Datalog
//! atoms, so each is interned as `e0`, `e1`, ... in order of first use, and
//! the table maps back.
use vstd::prelude::*;
use vstd::string::StringExecFns;

use crate::claims::{
    lemma_dedup_first_appearance, counted_in, counted_positions, dedup, lemma_dedup, lemma_dedup_prefix, lemma_dedup_push,
    lemma_strs_push, lemma_take_next,
};
use crate::record::{counts, included, opt_view, strs, Polarity, Record};
use crate::text::{chars_of, decimal, push_decimal};

verus! {

/// Where the weight of a fact comes from: a bearing's own weight, by its
/// position, or the unit weight.
#[derive(Clone, Copy, Debug, PartialEq, Eq, Structural)]
pub enum FactWeight {
    Bearing { record: usize, bearing: usize },
    Unit,
}

/// One Datalog fact, with the source of its weight.
pub struct Fact {
    pub text: String,
    pub weight: FactWeight,
}

/// The program the logical layer saturates: the facts, joined by line
/// breaks, then the caller's rules; and the intern table, whose entry `k`
/// is the evidence id that the atom `e{k}` stands for.
pub struct LogicProgram {
    pub source: String,
    pub facts: Vec<Fact>,
    pub atoms: Vec<String>,
}

// ----------------------------------------------------------------------
// What the program is.

/// The trace kind that marks a testimony record.
pub open spec fn testimony_trace() -> Seq<char> {
    "path-testimony"@
}

/// The path kind of a testimony record: the `kind` step of a trace whose
/// kind is `path-testimony`.
pub open spec fn testimony_kind(r: Record) -> Option<Seq<char>> {
    match r.trace {
        Some(t) => if t.kind@ == testimony_trace() {
            opt_view(t.step_kind)
        } else {
            None
        },
        None => None,
    }
}

/// The ids that the bearings `bs` of record `id` intern, in order: each
/// counted bearing's target, then, outside testimony, the record itself.
pub open spec fn bearing_requests(
    bs: Seq<crate::record::Bearing>,
    bases: Seq<Seq<char>>,
    kind: Option<Seq<char>>,
    id: Seq<char>,
) -> Seq<Seq<char>>
    decreases bs.len(),
{
    if bs.len() == 0 {
        Seq::empty()
    } else {
        let rest = bearing_requests(bs.drop_last(), bases, kind, id);
        if counts(bases, opt_view(bs.last().basis)) {
            if kind is Some {
                rest.push(bs.last().on@)
            } else {
                rest.push(bs.last().on@).push(id)
            }
        } else {
            rest
        }
    }
}

/// The ids interned while flattening the bearings of `rs`.
pub open spec fn bearing_pass_requests(rs: Seq<Record>, bases: Seq<Seq<char>>) -> Seq<Seq<char>>
    decreases rs.len(),
{
    if rs.len() == 0 {
        Seq::empty()
    } else {
        bearing_pass_requests(rs.drop_last(), bases) + bearing_requests(
            rs.last().bearings@,
            bases,
            testimony_kind(rs.last()),
            rs.last().evidence_id@,
        )
    }
}

/// The ids of the records that carry a check.
pub open spec fn check_requests(rs: Seq<Record>) -> Seq<Seq<char>>
    decreases rs.len(),
{
    if rs.len() == 0 {
        Seq::empty()
    } else if rs.last().check is Some {
        check_requests(rs.drop_last()).push(rs.last().evidence_id@)
    } else {
        check_requests(rs.drop_last())
    }
}

/// Is `c` an ASCII decimal digit?
pub open spec fn is_digit(c: char) -> bool {
    48 <= c as u32 <= 57
}

/// The number that a string of decimal digits spells.
pub open spec fn digits_value(s: Seq<char>) -> int
    decreases s.len(),
{
    if s.len() == 0 {
        0
    } else {
        digits_value(s.drop_last()) * 10 + (s.last() as u32 - 48)
    }
}

pub open spec fn all_digits(s: Seq<char>) -> bool {
    forall|i: int| 0 <= i < s.len() ==> is_digit(#[trigger] s[i])
}

/// What `str::parse::<i64>` gives for a string of four characters: an
/// optional sign, then decimal digits only.
pub open spec fn parse_four(s: Seq<char>) -> Option<int> {
    if all_digits(s) {
        Some(digits_value(s))
    } else if s[0] == '+' && all_digits(s.skip(1)) {
        Some(digits_value(s.skip(1)))
    } else if s[0] == '-' && all_digits(s.skip(1)) {
        Some(-digits_value(s.skip(1)))
    } else {
        None
    }
}

/// The year of a timestamp: its first four characters, read as a signed
/// decimal number, when they are one. (Reading the first four bytes, as
/// the timestamp's text gives them, comes to the same: a non-ASCII
/// character among them is never part of a number.)
pub open spec fn year_of(t: Seq<char>) -> Option<int> {
    if t.len() >= 4 {
        parse_four(t.take(4))
    } else {
        None
    }
}

/// The year of a record's source, if its source carries a readable time.
pub open spec fn record_year(r: Record) -> Option<int> {
    match r.source_time {
        Some(t) => year_of(t@),
        None => None,
    }
}

/// The ids of the records whose source carries a year.
pub open spec fn dated_requests(rs: Seq<Record>) -> Seq<Seq<char>>
    decreases rs.len(),
{
    if rs.len() == 0 {
        Seq::empty()
    } else if record_year(rs.last()) is Some {
        dated_requests(rs.drop_last()).push(rs.last().evidence_id@)
    } else {
        dated_requests(rs.drop_last())
    }
}

/// Every id the program interns, in the order it is interned.
pub open spec fn requests(rs: Seq<Record>, bases: Seq<Seq<char>>) -> Seq<Seq<char>> {
    bearing_pass_requests(rs, bases) + check_requests(rs) + dated_requests(rs)
}

/// The intern table: each interned id once, in order of first use.
pub open spec fn atom_table(rs: Seq<Record>, bases: Seq<Seq<char>>) -> Seq<Seq<char>> {
    dedup(requests(rs, bases))
}

/// The atom that stands for id `x` in table `tbl`: `e` and its position.
pub open spec fn atom_of(tbl: Seq<Seq<char>>, x: Seq<char>) -> Seq<char> {
    seq!['e'] + decimal(tbl.index_of(x) as nat)
}

/// A decimal rendering with a minus sign for negative numbers.
pub open spec fn signed_decimal(y: int) -> Seq<char> {
    if y < 0 {
        seq!['-'] + decimal((-y) as nat)
    } else {
        decimal(y as nat)
    }
}

/// The text of the fact that a counted bearing of record `id`, targeting
/// `on`, becomes.
pub open spec fn bearing_fact_text(
    kind: Option<Seq<char>>,
    polarity: Polarity,
    id: Seq<char>,
    on: Seq<char>,
    tbl: Seq<Seq<char>>,
) -> Seq<char> {
    match kind {
        Some(k) => match polarity {
            Polarity::Promotes => "found("@ + k + ", "@ + atom_of(tbl, on) + ")."@,
            Polarity::Inhibits => "silent("@ + k + ", "@ + atom_of(tbl, on) + ")."@,
        },
        None => match polarity {
            Polarity::Promotes => "supports("@ + atom_of(tbl, id) + ", "@ + atom_of(tbl, on) + ")."@,
            Polarity::Inhibits => "attacks("@ + atom_of(tbl, id) + ", "@ + atom_of(tbl, on) + ")."@,
        },
    }
}

/// The facts that the bearings `bs` of record `i` become: text, and the
/// position of the bearing whose weight the fact carries.
pub open spec fn bearing_facts(
    bs: Seq<crate::record::Bearing>,
    bases: Seq<Seq<char>>,
    kind: Option<Seq<char>>,
    id: Seq<char>,
    i: int,
    tbl: Seq<Seq<char>>,
) -> Seq<(Seq<char>, Option<(int, int)>)>
    decreases bs.len(),
{
    if bs.len() == 0 {
        Seq::empty()
    } else {
        let rest = bearing_facts(bs.drop_last(), bases, kind, id, i, tbl);
        let b = bs.last();
        if counts(bases, opt_view(b.basis)) {
            rest.push((bearing_fact_text(kind, b.polarity, id, b.on@, tbl), Some((i, bs.len() - 1))))
        } else {
            rest
        }
    }
}

pub open spec fn bearing_pass_facts(rs: Seq<Record>, bases: Seq<Seq<char>>, tbl: Seq<Seq<char>>) -> Seq<
    (Seq<char>, Option<(int, int)>),
>
    decreases rs.len(),
{
    if rs.len() == 0 {
        Seq::empty()
    } else {
        let r = rs.last();
        bearing_pass_facts(rs.drop_last(), bases, tbl) + bearing_facts(
            r.bearings@,
            bases,
            testimony_kind(r),
            r.evidence_id@,
            rs.len() - 1,
            tbl,
        )
    }
}

/// `verified(e)` or `refuted(e)` for each record that carries a check.
pub open spec fn check_facts(rs: Seq<Record>, tbl: Seq<Seq<char>>) -> Seq<(Seq<char>, Option<(int, int)>)>
    decreases rs.len(),
{
    if rs.len() == 0 {
        Seq::empty()
    } else {
        let r = rs.last();
        let rest = check_facts(rs.drop_last(), tbl);
        match r.check {
            Some(c) => rest.push(
                (
                    if c.upheld {
                        "verified("@ + atom_of(tbl, r.evidence_id@) + ")."@
                    } else {
                        "refuted("@ + atom_of(tbl, r.evidence_id@) + ")."@
                    },
                    None,
                ),
            ),
            None => rest,
        }
    }
}

/// `dated(e, year)` for each record whose source carries a year.
pub open spec fn dated_facts(rs: Seq<Record>, tbl: Seq<Seq<char>>) -> Seq<(Seq<char>, Option<(int, int)>)>
    decreases rs.len(),
{
    if rs.len() == 0 {
        Seq::empty()
    } else {
        let r = rs.last();
        let rest = dated_facts(rs.drop_last(), tbl);
        match record_year(r) {
            Some(y) => rest.push(
                ("dated("@ + atom_of(tbl, r.evidence_id@) + ", "@ + signed_decimal(y) + ")."@, None),
            ),
            None => rest,
        }
    }
}

/// All facts of the program, in order.
pub open spec fn program_facts(rs: Seq<Record>, bases: Seq<Seq<char>>) -> Seq<(Seq<char>, Option<(int, int)>)> {
    let tbl = atom_table(rs, bases);
    bearing_pass_facts(rs, bases, tbl) + check_facts(rs, tbl) + dated_facts(rs, tbl)
}

/// Lines joined by line breaks.
pub open spec fn join_lines(ts: Seq<Seq<char>>) -> Seq<char>
    decreases ts.len(),
{
    if ts.len() == 0 {
        Seq::empty()
    } else if ts.len() == 1 {
        ts[0]
    } else {
        join_lines(ts.drop_last()) + seq!['\n'] + ts.last()
    }
}

/// The program text: the facts, one per line, a line break, the rules.
pub open spec fn program_text(rs: Seq<Record>, bases: Seq<Seq<char>>, rules: Seq<char>) -> Seq<char> {
    join_lines(program_facts(rs, bases).map_values(|f: (Seq<char>, Option<(int, int)>)| f.0)) + seq!['\n']
        + rules
}

pub open spec fn weight_view(w: FactWeight) -> Option<(int, int)> {
    match w {
        FactWeight::Bearing { record, bearing } => Some((record as int, bearing as int)),
        FactWeight::Unit => None,
    }
}

pub open spec fn facts_view(fs: Seq<Fact>) -> Seq<(Seq<char>, Option<(int, int)>)> {
    fs.map_values(|f: Fact| (f.text@, weight_view(f.weight)))
}

// ----------------------------------------------------------------------
// Sequence facts the construction rests on.

pub open spec fn is_prefix(a: Seq<Seq<char>>, b: Seq<Seq<char>>) -> bool {
    a.len() <= b.len() && b.take(a.len() as int) == a
}

proof fn lemma_prefix_trans(a: Seq<Seq<char>>, b: Seq<Seq<char>>, c: Seq<Seq<char>>)
    requires
        is_prefix(a, b),
        is_prefix(b, c),
    ensures
        is_prefix(a, c),
{
    assert(c.take(a.len() as int) =~= c.take(b.len() as int).take(a.len() as int));
}

proof fn lemma_prefix_append(a: Seq<Seq<char>>, b: Seq<Seq<char>>, c: Seq<Seq<char>>)
    requires
        is_prefix(b, c),
    ensures
        is_prefix(a + b, a + c),
{
    assert((a + c).take((a + b).len() as int) =~= a + c.take(b.len() as int));
}

proof fn lemma_prefix_concat(a: Seq<Seq<char>>, c: Seq<Seq<char>>)
    ensures
        is_prefix(a, a + c),
{
    assert((a + c).take(a.len() as int) =~= a);
}

/// A request that is interned already keeps its atom, whatever is
/// interned after it.
proof fn lemma_atom_stable(p: Seq<Seq<char>>, full: Seq<Seq<char>>, x: Seq<char>)
    requires
        is_prefix(p, full),
        dedup(p).contains(x),
    ensures
        atom_of(dedup(p), x) == atom_of(dedup(full), x),
{
    let rest = full.skip(p.len() as int);
    assert(full =~= p + rest);
    lemma_dedup_prefix(p, rest);
    lemma_dedup(p);
    lemma_dedup(full);
    let d = dedup(p);
    let k = choose|k: int| 0 <= k < d.len() && d[k] == x;
    lemma_index_of_unique(d, k, x);
    assert(dedup(full)[k] == d[k]);
    lemma_index_of_unique(dedup(full), k, x);
}

pub proof fn lemma_index_of_unique(s: Seq<Seq<char>>, k: int, x: Seq<char>)
    requires
        s.no_duplicates(),
        0 <= k < s.len(),
        s[k] == x,
    ensures
        s.index_of(x) == k,
{
    assert(s.contains(x));
    let i = s.index_of(x);
    assert(0 <= i < s.len() && s[i] == x);
}

proof fn lemma_bearing_requests_grow(
    bs: Seq<crate::record::Bearing>,
    bases: Seq<Seq<char>>,
    kind: Option<Seq<char>>,
    id: Seq<char>,
    j: int,
)
    requires
        0 <= j <= bs.len(),
    ensures
        is_prefix(bearing_requests(bs.take(j), bases, kind, id), bearing_requests(bs, bases, kind, id)),
    decreases bs.len() - j,
{
    if j == bs.len() {
        assert(bs.take(j) =~= bs);
        assert(bearing_requests(bs, bases, kind, id).take(bearing_requests(bs, bases, kind, id).len() as int)
            =~= bearing_requests(bs, bases, kind, id));
    } else {
        lemma_bearing_requests_grow(bs, bases, kind, id, j + 1);
        assert(bs.take(j + 1).drop_last() =~= bs.take(j));
        let a = bearing_requests(bs.take(j), bases, kind, id);
        let b = bearing_requests(bs.take(j + 1), bases, kind, id);
        assert(b.take(a.len() as int) =~= a);
        lemma_prefix_trans(a, b, bearing_requests(bs, bases, kind, id));
    }
}

proof fn lemma_bearing_pass_grows(rs: Seq<Record>, bases: Seq<Seq<char>>, i: int)
    requires
        0 <= i <= rs.len(),
    ensures
        is_prefix(bearing_pass_requests(rs.take(i), bases), bearing_pass_requests(rs, bases)),
    decreases rs.len() - i,
{
    if i == rs.len() {
        assert(rs.take(i) =~= rs);
        assert(bearing_pass_requests(rs, bases).take(bearing_pass_requests(rs, bases).len() as int)
            =~= bearing_pass_requests(rs, bases));
    } else {
        lemma_bearing_pass_grows(rs, bases, i + 1);
        assert(rs.take(i + 1).drop_last() =~= rs.take(i));
        let a = bearing_pass_requests(rs.take(i), bases);
        let b = bearing_pass_requests(rs.take(i + 1), bases);
        assert(b.take(a.len() as int) =~= a);
        lemma_prefix_trans(a, b, bearing_pass_requests(rs, bases));
    }
}

proof fn lemma_check_requests_grow(rs: Seq<Record>, i: int)
    requires
        0 <= i <= rs.len(),
    ensures
        is_prefix(check_requests(rs.take(i)), check_requests(rs)),
    decreases rs.len() - i,
{
    if i == rs.len() {
        assert(rs.take(i) =~= rs);
        assert(check_requests(rs).take(check_requests(rs).len() as int) =~= check_requests(rs));
    } else {
        lemma_check_requests_grow(rs, i + 1);
        assert(rs.take(i + 1).drop_last() =~= rs.take(i));
        let a = check_requests(rs.take(i));
        let b = check_requests(rs.take(i + 1));
        assert(b.take(a.len() as int) =~= a);
        lemma_prefix_trans(a, b, check_requests(rs));
    }
}

proof fn lemma_dated_requests_grow(rs: Seq<Record>, i: int)
    requires
        0 <= i <= rs.len(),
    ensures
        is_prefix(dated_requests(rs.take(i)), dated_requests(rs)),
    decreases rs.len() - i,
{
    if i == rs.len() {
        assert(rs.take(i) =~= rs);
        assert(dated_requests(rs).take(dated_requests(rs).len() as int) =~= dated_requests(rs));
    } else {
        lemma_dated_requests_grow(rs, i + 1);
        assert(rs.take(i + 1).drop_last() =~= rs.take(i));
        let a = dated_requests(rs.take(i));
        let b = dated_requests(rs.take(i + 1));
        assert(b.take(a.len() as int) =~= a);
        lemma_prefix_trans(a, b, dated_requests(rs));
    }
}

proof fn lemma_pass_prefix(rs: Seq<Record>, bases: Seq<Seq<char>>, i: int, j: int)
    requires
        0 <= i < rs.len(),
        0 <= j <= rs[i].bearings@.len(),
    ensures
        is_prefix(
            bearing_pass_requests(rs.take(i), bases) + bearing_requests(
                rs[i].bearings@.take(j),
                bases,
                testimony_kind(rs[i]),
                rs[i].evidence_id@,
            ),
            requests(rs, bases),
        ),
{
    let r = rs[i];
    let a = bearing_pass_requests(rs.take(i), bases);
    let b = bearing_requests(r.bearings@.take(j), bases, testimony_kind(r), r.evidence_id@);
    let c = bearing_requests(r.bearings@, bases, testimony_kind(r), r.evidence_id@);
    lemma_bearing_requests_grow(r.bearings@, bases, testimony_kind(r), r.evidence_id@, j);
    lemma_prefix_append(a, b, c);
    lemma_take_next(rs, i);
    assert(bearing_pass_requests(rs.take(i + 1), bases) == a + c);
    lemma_bearing_pass_grows(rs, bases, i + 1);
    lemma_prefix_trans(a + b, a + c, bearing_pass_requests(rs, bases));
    let rest = check_requests(rs) + dated_requests(rs);
    assert(requests(rs, bases) =~= bearing_pass_requests(rs, bases) + rest);
    lemma_prefix_concat(bearing_pass_requests(rs, bases), rest);
    lemma_prefix_trans(a + b, bearing_pass_requests(rs, bases), requests(rs, bases));
}

proof fn lemma_check_prefix(rs: Seq<Record>, bases: Seq<Seq<char>>, i: int)
    requires
        0 <= i <= rs.len(),
    ensures
        is_prefix(bearing_pass_requests(rs, bases) + check_requests(rs.take(i)), requests(rs, bases)),
{
    let a = bearing_pass_requests(rs, bases);
    lemma_check_requests_grow(rs, i);
    lemma_prefix_append(a, check_requests(rs.take(i)), check_requests(rs));
    lemma_prefix_concat(a + check_requests(rs), dated_requests(rs));
    lemma_prefix_trans(a + check_requests(rs.take(i)), a + check_requests(rs), requests(rs, bases));
}

proof fn lemma_dated_prefix(rs: Seq<Record>, bases: Seq<Seq<char>>, i: int)
    requires
        0 <= i <= rs.len(),
    ensures
        is_prefix(
            bearing_pass_requests(rs, bases) + check_requests(rs) + dated_requests(rs.take(i)),
            requests(rs, bases),
        ),
{
    lemma_dated_requests_grow(rs, i);
    lemma_prefix_append(
        bearing_pass_requests(rs, bases) + check_requests(rs),
        dated_requests(rs.take(i)),
        dated_requests(rs),
    );
}

// ----------------------------------------------------------------------
// Building it.

/// The atom `e{k}`.
fn atom_name(k: usize) -> (a: String)
    ensures
        a@ == seq!['e'] + decimal(k as nat),
{
    let mut a = String::new();
    crate::text::push_char(&mut a, 'e');
    push_decimal(&mut a, k);
    a
}

/// Interns `x`: its atom in the table, after adding it if it is new.
fn intern(atoms: &mut Vec<String>, x: &String) -> (a: String)
    requires
        strs(old(atoms)@).no_duplicates(),
    ensures
        strs(final(atoms)@) == (if strs(old(atoms)@).contains(x@) {
            strs(old(atoms)@)
        } else {
            strs(old(atoms)@).push(x@)
        }),
        strs(final(atoms)@).no_duplicates(),
        strs(final(atoms)@).contains(x@),
        a@ == atom_of(strs(final(atoms)@), x@),
{
    let mut k: usize = 0;
    while k < atoms.len()
        invariant
            k <= atoms.len(),
            atoms@ == old(atoms)@,
            strs(atoms@).no_duplicates(),
            forall|m: int| 0 <= m < k ==> atoms@[m]@ != x@,
        decreases atoms.len() - k,
    {
        if atoms[k] == *x {
            proof {
                assert(strs(atoms@)[k as int] == x@);
                lemma_index_of_unique(strs(atoms@), k as int, x@);
            }
            return atom_name(k);
        }
        k = k + 1;
    }
    proof {
        if strs(atoms@).contains(x@) {
            let m = choose|m: int| 0 <= m < strs(atoms@).len() && strs(atoms@)[m] == x@;
            assert(atoms@[m]@ == x@);
        }
        lemma_strs_push(atoms@, *x);
    }
    let n = atoms.len();
    atoms.push(x.clone());
    proof {
        let t = strs(atoms@);
        assert(t[n as int] == x@);
        assert forall|i: int, j: int| 0 <= i < t.len() && 0 <= j < t.len() && i != j implies t[i] != t[j] by {
            if i < n && j < n {
                assert(strs(old(atoms)@)[i] == t[i]);
                assert(strs(old(atoms)@)[j] == t[j]);
            } else if i < n {
                assert(atoms@[i]@ == t[i]);
            } else if j < n {
                assert(atoms@[j]@ == t[j]);
            }
        }
        lemma_index_of_unique(t, n as int, x@);
    }
    atom_name(n)
}

/// The path kind of a testimony record.
fn testimony_kind_of(r: &Record) -> (k: Option<&String>)
    ensures
        match k {
            Some(s) => testimony_kind(*r) == Some(s@),
            None => testimony_kind(*r) is None,
        },
{
    match &r.trace {
        Some(t) => {
            let marker = String::from_str("path-testimony");
            if t.kind == marker {
                match &t.step_kind {
                    Some(k) => Some(k),
                    None => None,
                }
            } else {
                None
            }
        },
        None => None,
    }
}

/// The year of a timestamp, as `year_of` reads it.
pub fn year_from_time(t: &String) -> (y: Option<i64>)
    ensures
        match y {
            Some(v) => year_of(t@) == Some(v as int) && -1000 < v < 10000,
            None => year_of(t@) is None,
        },
{
    let cs = chars_of(t.as_str());
    if cs.len() < 4 {
        return None;
    }
    let ghost s = t@.take(4);
    let c0 = cs[0];
    let negative = c0 == '-';
    let start: usize = if c0 == '+' || c0 == '-' {
        1
    } else {
        0
    };
    let mut v: i64 = 0;
    let mut k: usize = start;
    proof {
        assert(s.subrange(start as int, start as int) =~= Seq::<char>::empty());
    }
    while k < 4
        invariant
            cs@ == t@,
            cs@.len() >= 4,
            s == t@.take(4),
            start <= k <= 4,
            start <= 1,
            start == 1 <==> (s[0] == '+' || s[0] == '-'),
            all_digits(s.subrange(start as int, k as int)),
            v == digits_value(s.subrange(start as int, k as int)),
            0 <= v,
            k - start == 0 ==> v < 1,
            k - start == 1 ==> v < 10,
            k - start == 2 ==> v < 100,
            k - start == 3 ==> v < 1000,
            k - start == 4 ==> v < 10000,
        decreases 4 - k,
    {
        let c = cs[k];
        let u = c as u32;
        if !(48 <= u && u <= 57) {
            proof {
                assert(s[k as int] == c);
                assert(!is_digit(s[k as int]));
                assert(!all_digits(s));
                if start == 1 {
                    assert(s.skip(1)[k - 1] == s[k as int]);
                    assert(!all_digits(s.skip(1)));
                } else {
                    assert(s[0] != '+' && s[0] != '-');
                }
            }
            return None;
        }
        proof {
            let sub = s.subrange(start as int, k + 1);
            assert(sub.drop_last() =~= s.subrange(start as int, k as int));
            assert(sub.last() == c);
        }
        v = v * 10 + ((u - 48) as i64);
        k = k + 1;
    }
    proof {
        assert(s.subrange(start as int, 4) =~= if start == 1 { s.skip(1) } else { s });
        if start == 1 {
            assert(!is_digit(s[0]));
            assert(!all_digits(s));
            assert(v < 1000);
        }
    }
    if negative {
        Some(-v)
    } else {
        Some(v)
    }
}

/// Appends a decimal rendering of `y`, with a minus sign when negative.
fn push_signed_decimal(s: &mut String, y: i64)
    requires
        -1000 < y < 10000,
    ensures
        final(s)@ == old(s)@ + signed_decimal(y as int),
{
    if y < 0 {
        crate::text::push_char(s, '-');
        push_decimal(s, (-y) as usize);
        proof {
            assert(final(s)@ =~= old(s)@ + signed_decimal(y as int));
        }
    } else {
        push_decimal(s, y as usize);
    }
}

proof fn lemma_facts_push(fs: Seq<Fact>, f: Fact)
    ensures
        facts_view(fs.push(f)) == facts_view(fs).push((f.text@, weight_view(f.weight))),
{
    assert(facts_view(fs.push(f)) =~= facts_view(fs).push((f.text@, weight_view(f.weight))));
}

/// The text of the fact for bearing `b` of a record: `found`/`silent` over
/// the record's path kind for testimony, `supports`/`attacks` from the
/// record's atom otherwise.
fn bearing_fact(kind: Option<&String>, polarity: Polarity, id_atom: &String, on_atom: &String) -> (t: String)
    ensures
        t@ == match kind {
            Some(k) => match polarity {
                Polarity::Promotes => "found("@ + k@ + ", "@ + on_atom@ + ")."@,
                Polarity::Inhibits => "silent("@ + k@ + ", "@ + on_atom@ + ")."@,
            },
            None => match polarity {
                Polarity::Promotes => "supports("@ + id_atom@ + ", "@ + on_atom@ + ")."@,
                Polarity::Inhibits => "attacks("@ + id_atom@ + ", "@ + on_atom@ + ")."@,
            },
        },
{
    let mut t = String::new();
    match kind {
        Some(k) => {
            match polarity {
                Polarity::Promotes => t.append("found("),
                Polarity::Inhibits => t.append("silent("),
            }
            t.append(k.as_str());
        },
        None => {
            match polarity {
                Polarity::Promotes => t.append("supports("),
                Polarity::Inhibits => t.append("attacks("),
            }
            t.append(id_atom.as_str());
        },
    }
    t.append(", ");
    t.append(on_atom.as_str());
    t.append(").");
    t
}

/// Flattens `records` into the Datalog program that the logical layer
/// saturates, with `rules` after the facts.
///
/// The facts come in three passes over the records. First the counted
/// bearings: a testimony record's become `found(kind, target).` and
/// `silent(kind, target).`, any other record's `supports(record, target).`
/// and `attacks(record, target).`, each weighted by its bearing. Then each
/// record's check: `verified(record).` or `refuted(record).`, at unit
/// weight. Then each record whose source carries a year: `dated(record,
/// year).`, at unit weight. Ids become atoms in order of first use.
pub fn logic_program(records: &Vec<Record>, bases: &Vec<String>, rules: &String) -> (p: LogicProgram)
    ensures
        strs(p.atoms@) == atom_table(records@, strs(bases@)),
        facts_view(p.facts@) == program_facts(records@, strs(bases@)),
        p.source@ == program_text(records@, strs(bases@), rules@),
{
    let ghost rs = records@;
    let ghost bv = strs(bases@);
    let ghost full = requests(rs, bv);
    let ghost tbl = dedup(full);
    let mut atoms: Vec<String> = Vec::new();
    let mut facts: Vec<Fact> = Vec::new();
    let n = records.len();
    proof {
        assert(rs.take(0) =~= Seq::<Record>::empty());
    }
    // Bearings.
    for i in 0..n
        invariant
            n == rs.len(),
            rs == records@,
            bv == strs(bases@),
            full == requests(rs, bv),
            tbl == dedup(full),
            strs(atoms@) == dedup(bearing_pass_requests(rs.take(i as int), bv)),
            facts_view(facts@) == bearing_pass_facts(rs.take(i as int), bv, tbl),
    {
        let r = &records[i];
        let m = r.bearings.len();
        let kind = testimony_kind_of(r);
        let ghost gkind = testimony_kind(*r);
        let ghost id = r.evidence_id@;
        proof {
            lemma_take_next(rs, i as int);
            assert(r.bearings@.take(0) =~= Seq::<crate::record::Bearing>::empty());
            assert(bearing_pass_requests(rs.take(i as int), bv) + bearing_requests(
                r.bearings@.take(0),
                bv,
                gkind,
                id,
            ) =~= bearing_pass_requests(rs.take(i as int), bv));
            assert(bearing_pass_facts(rs.take(i as int), bv, tbl) + bearing_facts(
                r.bearings@.take(0),
                bv,
                gkind,
                id,
                i as int,
                tbl,
            ) =~= bearing_pass_facts(rs.take(i as int), bv, tbl));
        }
        for j in 0..m
            invariant
                n == rs.len(),
                rs == records@,
                bv == strs(bases@),
                full == requests(rs, bv),
                tbl == dedup(full),
                i < n,
                *r == rs[i as int],
                m == r.bearings@.len(),
                gkind == testimony_kind(*r),
                id == r.evidence_id@,
                match kind {
                    Some(k) => gkind == Some(k@),
                    None => gkind is None,
                },
                strs(atoms@) == dedup(
                    bearing_pass_requests(rs.take(i as int), bv) + bearing_requests(
                        r.bearings@.take(j as int),
                        bv,
                        gkind,
                        id,
                    ),
                ),
                facts_view(facts@) == bearing_pass_facts(rs.take(i as int), bv, tbl) + bearing_facts(
                    r.bearings@.take(j as int),
                    bv,
                    gkind,
                    id,
                    i as int,
                    tbl,
                ),
        {
            let b = &r.bearings[j];
            let ghost a = bearing_pass_requests(rs.take(i as int), bv);
            let ghost before = bearing_requests(r.bearings@.take(j as int), bv, gkind, id);
            let ghost fa = bearing_pass_facts(rs.take(i as int), bv, tbl);
            let ghost fbefore = bearing_facts(r.bearings@.take(j as int), bv, gkind, id, i as int, tbl);
            proof {
                lemma_take_next(r.bearings@, j as int);
                lemma_pass_prefix(rs, bv, i as int, j as int + 1);
                lemma_dedup(a + before);
            }
            if included(bases, &b.basis) {
                let on_atom = intern(&mut atoms, &b.on);
                proof {
                    assert(a + before.push(b.on@) =~= (a + before).push(b.on@));
                    lemma_dedup_push(a + before, b.on@);
                }
                let id_atom = match kind {
                    Some(_) => String::new(),
                    None => intern(&mut atoms, &r.evidence_id),
                };
                proof {
                    let p1 = a + bearing_requests(r.bearings@.take(j + 1), bv, gkind, id);
                    let pon = (a + before).push(b.on@);
                    if kind is None {
                        assert(p1 =~= pon.push(id));
                        lemma_dedup_push(pon, id);
                        assert(pon =~= p1.take(pon.len() as int));
                        lemma_prefix_trans(pon, p1, full);
                        lemma_atom_stable(pon, full, b.on@);
                        lemma_atom_stable(p1, full, id);
                    } else {
                        assert(p1 =~= pon);
                        lemma_atom_stable(pon, full, b.on@);
                    }
                }
                let text = bearing_fact(kind, b.polarity, &id_atom, &on_atom);
                let fact = Fact { text, weight: FactWeight::Bearing { record: i, bearing: j } };
                proof {
                    lemma_facts_push(facts@, fact);
                    assert(fa + fbefore.push((fact.text@, Some((i as int, j as int)))) =~= (fa + fbefore).push(
                        (fact.text@, Some((i as int, j as int))),
                    ));
                }
                facts.push(fact);
            } else {
                proof {
                    assert(a + bearing_requests(r.bearings@.take(j + 1), bv, gkind, id) == a + before);
                }
            }
        }
        proof {
            assert(r.bearings@.take(m as int) =~= r.bearings@);
        }
    }
    proof {
        assert(rs.take(n as int) =~= rs);
        assert(bearing_pass_requests(rs, bv) + check_requests(rs.take(0)) =~= bearing_pass_requests(rs, bv));
        assert(bearing_pass_facts(rs, bv, tbl) + check_facts(rs.take(0), tbl) =~= bearing_pass_facts(rs, bv, tbl));
    }
    // Checks.
    for i in 0..n
        invariant
            n == rs.len(),
            rs == records@,
            bv == strs(bases@),
            full == requests(rs, bv),
            tbl == dedup(full),
            strs(atoms@) == dedup(bearing_pass_requests(rs, bv) + check_requests(rs.take(i as int))),
            facts_view(facts@) == bearing_pass_facts(rs, bv, tbl) + check_facts(rs.take(i as int), tbl),
    {
        let r = &records[i];
        let ghost a = bearing_pass_requests(rs, bv);
        let ghost before = check_requests(rs.take(i as int));
        let ghost fa = bearing_pass_facts(rs, bv, tbl);
        let ghost fbefore = check_facts(rs.take(i as int), tbl);
        proof {
            lemma_take_next(rs, i as int);
            lemma_check_prefix(rs, bv, i as int + 1);
            lemma_dedup(a + before);
        }
        match &r.check {
            Some(c) => {
                let atom = intern(&mut atoms, &r.evidence_id);
                proof {
                    assert(a + before.push(r.evidence_id@) =~= (a + before).push(r.evidence_id@));
                    lemma_dedup_push(a + before, r.evidence_id@);
                    lemma_atom_stable(a + before.push(r.evidence_id@), full, r.evidence_id@);
                }
                let mut text = String::new();
                if c.upheld {
                    text.append("verified(");
                } else {
                    text.append("refuted(");
                }
                text.append(atom.as_str());
                text.append(").");
                let fact = Fact { text, weight: FactWeight::Unit };
                proof {
                    lemma_facts_push(facts@, fact);
                    assert(fa + fbefore.push((fact.text@, None)) =~= (fa + fbefore).push((fact.text@, None)));
                }
                facts.push(fact);
            },
            None => {},
        }
    }
    proof {
        assert(rs.take(n as int) =~= rs);
        assert(bearing_pass_requests(rs, bv) + check_requests(rs) + dated_requests(rs.take(0))
            =~= bearing_pass_requests(rs, bv) + check_requests(rs));
        assert(bearing_pass_facts(rs, bv, tbl) + check_facts(rs, tbl) + dated_facts(rs.take(0), tbl)
            =~= bearing_pass_facts(rs, bv, tbl) + check_facts(rs, tbl));
    }
    // Dates.
    for i in 0..n
        invariant
            n == rs.len(),
            rs == records@,
            bv == strs(bases@),
            full == requests(rs, bv),
            tbl == dedup(full),
            strs(atoms@) == dedup(
                bearing_pass_requests(rs, bv) + check_requests(rs) + dated_requests(rs.take(i as int)),
            ),
            facts_view(facts@) == bearing_pass_facts(rs, bv, tbl) + check_facts(rs, tbl) + dated_facts(
                rs.take(i as int),
                tbl,
            ),
    {
        let r = &records[i];
        let ghost a = bearing_pass_requests(rs, bv) + check_requests(rs);
        let ghost before = dated_requests(rs.take(i as int));
        let ghost fa = bearing_pass_facts(rs, bv, tbl) + check_facts(rs, tbl);
        let ghost fbefore = dated_facts(rs.take(i as int), tbl);
        proof {
            lemma_take_next(rs, i as int);
            lemma_dated_prefix(rs, bv, i as int + 1);
            lemma_dedup(a + before);
        }
        let year = match &r.source_time {
            Some(t) => year_from_time(t),
            None => None,
        };
        match year {
            Some(y) => {
                let atom = intern(&mut atoms, &r.evidence_id);
                proof {
                    assert(a + before.push(r.evidence_id@) =~= (a + before).push(r.evidence_id@));
                    lemma_dedup_push(a + before, r.evidence_id@);
                    lemma_atom_stable(a + before.push(r.evidence_id@), full, r.evidence_id@);
                }
                let mut text = String::new();
                text.append("dated(");
                text.append(atom.as_str());
                text.append(", ");
                push_signed_decimal(&mut text, y);
                text.append(").");
                let fact = Fact { text, weight: FactWeight::Unit };
                proof {
                    lemma_facts_push(facts@, fact);
                    assert(fa + fbefore.push((fact.text@, None)) =~= (fa + fbefore).push((fact.text@, None)));
                }
                facts.push(fact);
            },
            None => {},
        }
    }
    proof {
        assert(rs.take(n as int) =~= rs);
    }
    let ghost texts = facts_view(facts@).map_values(|f: (Seq<char>, Option<(int, int)>)| f.0);
    let mut source = String::new();
    let nf = facts.len();
    proof {
        assert(texts.take(0) =~= Seq::<Seq<char>>::empty());
    }
    for k in 0..nf
        invariant
            nf == facts@.len(),
            texts == facts_view(facts@).map_values(|f: (Seq<char>, Option<(int, int)>)| f.0),
            source@ == join_lines(texts.take(k as int)),
    {
        proof {
            lemma_take_next(texts, k as int);
            assert(texts[k as int] == facts@[k as int].text@);
        }
        if k > 0 {
            crate::text::push_char(&mut source, '\n');
        }
        source.append(facts[k].text.as_str());
        proof {
            if k == 0 {
                assert(source@ =~= texts.take(1)[0]);
            }
        }
    }
    proof {
        assert(texts.take(nf as int) =~= texts);
    }
    crate::text::push_char(&mut source, '\n');
    source.append(rules.as_str());
    LogicProgram { source, facts, atoms }
}

// ----------------------------------------------------------------------
// Laws of the program.

proof fn lemma_decimal_nonempty(n: nat)
    ensures
        decimal(n).len() >= 1,
        n >= 10 ==> decimal(n).len() >= 2,
    decreases n,
{
    if n >= 10 {
        lemma_decimal_nonempty(n / 10);
    }
}

proof fn lemma_decimal_injective(n: nat, m: nat)
    requires
        decimal(n) == decimal(m),
    ensures
        n == m,
    decreases n,
{
    lemma_decimal_nonempty(n);
    lemma_decimal_nonempty(m);
    if n >= 10 && m >= 10 {
        assert(decimal(n).drop_last() == decimal(n / 10));
        assert(decimal(m).drop_last() == decimal(m / 10));
        lemma_decimal_injective(n / 10, m / 10);
        assert(decimal(n).last() == digit_char_of(n % 10));
        assert(decimal(m).last() == digit_char_of(m % 10));
        lemma_digit_char_injective(n % 10, m % 10);
    } else if n < 10 && m < 10 {
        assert(decimal(n) == seq![digit_char_of(n)]);
        assert(decimal(m) == seq![digit_char_of(m)]);
        assert(seq![digit_char_of(n)][0] == digit_char_of(n));
        assert(seq![digit_char_of(m)][0] == digit_char_of(m));
        assert(decimal(n)[0] == decimal(m)[0]);
        lemma_digit_char_injective(n, m);
    }
}

spec fn digit_char_of(d: nat) -> char {
    crate::text::digit_char(d)
}

proof fn lemma_digit_char_injective(a: nat, b: nat)
    requires
        a < 10,
        b < 10,
        digit_char_of(a) == digit_char_of(b),
    ensures
        a == b,
{
    assert(digit_char_of(a) as u32 == 48 + a);
    assert(digit_char_of(b) as u32 == 48 + b);
}

/// The intern table maps back: distinct ids of the table get distinct
/// atoms, and each atom names the id at its position.
pub proof fn lemma_atoms_identify_ids(rs: Seq<Record>, bases: Seq<Seq<char>>, x: Seq<char>, y: Seq<char>)
    requires
        atom_table(rs, bases).contains(x),
        atom_table(rs, bases).contains(y),
    ensures
        atom_of(atom_table(rs, bases), x) == atom_of(atom_table(rs, bases), y) ==> x == y,
        atom_table(rs, bases)[atom_table(rs, bases).index_of(x)] == x,
{
    let tbl = atom_table(rs, bases);
    lemma_dedup(requests(rs, bases));
    let i = tbl.index_of(x);
    let j = tbl.index_of(y);
    if atom_of(tbl, x) == atom_of(tbl, y) {
        assert(decimal(i as nat) =~= atom_of(tbl, x).skip(1));
        assert(decimal(j as nat) =~= atom_of(tbl, y).skip(1));
        lemma_decimal_injective(i as nat, j as nat);
    }
}

/// The fact that record `r`'s check becomes.
pub open spec fn check_fact(r: Record, tbl: Seq<Seq<char>>) -> (Seq<char>, Option<(int, int)>) {
    (
        if r.check->0.upheld {
            "verified("@ + atom_of(tbl, r.evidence_id@) + ")."@
        } else {
            "refuted("@ + atom_of(tbl, r.evidence_id@) + ")."@
        },
        None,
    )
}

/// The fact that record `r`'s dated source becomes.
pub open spec fn dated_fact(r: Record, tbl: Seq<Seq<char>>) -> (Seq<char>, Option<(int, int)>) {
    ("dated("@ + atom_of(tbl, r.evidence_id@) + ", "@ + signed_decimal(record_year(r)->0) + ")."@, None)
}

proof fn lemma_check_facts_member(rs: Seq<Record>, tbl: Seq<Seq<char>>, i: int)
    requires
        0 <= i < rs.len(),
        rs[i].check is Some,
    ensures
        check_facts(rs, tbl).contains(check_fact(rs[i], tbl)),
    decreases rs.len(),
{
    let p = rs.drop_last();
    if i < rs.len() - 1 {
        assert(p[i] == rs[i]);
        lemma_check_facts_member(p, tbl, i);
        let c = check_facts(p, tbl);
        let k = choose|k: int| 0 <= k < c.len() && c[k] == check_fact(rs[i], tbl);
        assert(check_facts(rs, tbl)[k] == c[k]);
    } else {
        assert(check_facts(rs, tbl).last() == check_fact(rs[i], tbl));
    }
}

proof fn lemma_dated_facts_member(rs: Seq<Record>, tbl: Seq<Seq<char>>, i: int)
    requires
        0 <= i < rs.len(),
        record_year(rs[i]) is Some,
    ensures
        dated_facts(rs, tbl).contains(dated_fact(rs[i], tbl)),
    decreases rs.len(),
{
    let p = rs.drop_last();
    if i < rs.len() - 1 {
        assert(p[i] == rs[i]);
        lemma_dated_facts_member(p, tbl, i);
        let c = dated_facts(p, tbl);
        let k = choose|k: int| 0 <= k < c.len() && c[k] == dated_fact(rs[i], tbl);
        assert(dated_facts(rs, tbl)[k] == c[k]);
    } else {
        assert(dated_facts(rs, tbl).last() == dated_fact(rs[i], tbl));
    }
}

/// A record's own check surfaces to the rules: a record with an upheld
/// check yields `verified(e).`, one with a rejected check `refuted(e).`,
/// at unit weight.
pub proof fn lemma_checks_surface_as_facts(rs: Seq<Record>, bases: Seq<Seq<char>>, i: int)
    requires
        0 <= i < rs.len(),
        rs[i].check is Some,
    ensures
        program_facts(rs, bases).contains(check_fact(rs[i], atom_table(rs, bases))),
{
    let tbl = atom_table(rs, bases);
    lemma_check_facts_member(rs, tbl, i);
    let a = bearing_pass_facts(rs, bases, tbl);
    let c = check_facts(rs, tbl);
    let d = dated_facts(rs, tbl);
    let k = choose|k: int| 0 <= k < c.len() && c[k] == check_fact(rs[i], tbl);
    assert((a + c + d)[a.len() + k] == c[k]);
}

/// A record whose source carries a year surfaces to the rules as
/// `dated(e, year).`, at unit weight.
pub proof fn lemma_dated_sources_surface_as_facts(rs: Seq<Record>, bases: Seq<Seq<char>>, i: int)
    requires
        0 <= i < rs.len(),
        record_year(rs[i]) is Some,
    ensures
        program_facts(rs, bases).contains(dated_fact(rs[i], atom_table(rs, bases))),
{
    let tbl = atom_table(rs, bases);
    lemma_dated_facts_member(rs, tbl, i);
    let a = bearing_pass_facts(rs, bases, tbl);
    let c = check_facts(rs, tbl);
    let d = dated_facts(rs, tbl);
    let k = choose|k: int| 0 <= k < d.len() && d[k] == dated_fact(rs[i], tbl);
    assert((a + c + d)[a.len() + c.len() + k] == d[k]);
}

/// The bearing positions that the facts `fs` take their weights from, in
/// order; facts of unit weight are left out.
pub open spec fn weighted_positions(fs: Seq<(Seq<char>, Option<(int, int)>)>) -> Seq<(int, int)>
    decreases fs.len(),
{
    if fs.len() == 0 {
        Seq::empty()
    } else {
        match fs.last().1 {
            Some(pos) => weighted_positions(fs.drop_last()).push(pos),
            None => weighted_positions(fs.drop_last()),
        }
    }
}

proof fn lemma_weighted_positions_concat(a: Seq<(Seq<char>, Option<(int, int)>)>, b: Seq<(Seq<char>, Option<(int, int)>)>)
    ensures
        weighted_positions(a + b) == weighted_positions(a) + weighted_positions(b),
    decreases b.len(),
{
    if b.len() == 0 {
        assert(a + b =~= a);
        assert(weighted_positions(a) + weighted_positions(b) =~= weighted_positions(a));
    } else {
        lemma_weighted_positions_concat(a, b.drop_last());
        assert((a + b).drop_last() =~= a + b.drop_last());
        match b.last().1 {
            Some(pos) => {
                assert(weighted_positions(a) + weighted_positions(b.drop_last()).push(pos) =~= (
                weighted_positions(a) + weighted_positions(b.drop_last())).push(pos));
            },
            None => {},
        }
    }
}

proof fn lemma_bearing_facts_positions(
    bs: Seq<crate::record::Bearing>,
    bases: Seq<Seq<char>>,
    kind: Option<Seq<char>>,
    id: Seq<char>,
    i: int,
    tbl: Seq<Seq<char>>,
)
    ensures
        weighted_positions(bearing_facts(bs, bases, kind, id, i, tbl)) == counted_in(bs, bases, i),
    decreases bs.len(),
{
    if bs.len() > 0 {
        lemma_bearing_facts_positions(bs.drop_last(), bases, kind, id, i, tbl);
        let rest = bearing_facts(bs.drop_last(), bases, kind, id, i, tbl);
        let b = bs.last();
        let f = (bearing_fact_text(kind, b.polarity, id, b.on@, tbl), Some((i, bs.len() - 1)));
        assert(rest.push(f).drop_last() =~= rest);
    }
}

proof fn lemma_bearing_pass_positions(rs: Seq<Record>, bases: Seq<Seq<char>>, tbl: Seq<Seq<char>>)
    ensures
        weighted_positions(bearing_pass_facts(rs, bases, tbl)) == counted_positions(rs, bases),
    decreases rs.len(),
{
    if rs.len() > 0 {
        let r = rs.last();
        lemma_bearing_pass_positions(rs.drop_last(), bases, tbl);
        lemma_bearing_facts_positions(r.bearings@, bases, testimony_kind(r), r.evidence_id@, rs.len() - 1, tbl);
        lemma_weighted_positions_concat(
            bearing_pass_facts(rs.drop_last(), bases, tbl),
            bearing_facts(r.bearings@, bases, testimony_kind(r), r.evidence_id@, rs.len() - 1, tbl),
        );
    }
}

proof fn lemma_unit_facts(rs: Seq<Record>, tbl: Seq<Seq<char>>)
    ensures
        weighted_positions(check_facts(rs, tbl)) == Seq::<(int, int)>::empty(),
        weighted_positions(dated_facts(rs, tbl)) == Seq::<(int, int)>::empty(),
    decreases rs.len(),
{
    if rs.len() > 0 {
        lemma_unit_facts(rs.drop_last(), tbl);
        let r = rs.last();
        let c = check_facts(rs.drop_last(), tbl);
        let d = dated_facts(rs.drop_last(), tbl);
        if r.check is Some {
            assert(c.push(check_fact(r, tbl)).drop_last() =~= c);
            assert(check_facts(rs, tbl) == c.push(check_fact(r, tbl)));
        }
        if record_year(r) is Some {
            assert(d.push(dated_fact(r, tbl)).drop_last() =~= d);
            assert(dated_facts(rs, tbl) == d.push(dated_fact(r, tbl)));
        }
    }
}

/// The facts that carry a bearing's weight are exactly the edges of the
/// bipolar graph, one fact per counted bearing, in the same order; every
/// other fact (a check, a date) carries unit weight.
pub proof fn lemma_weighted_facts_are_the_edges(rs: Seq<Record>, bases: Seq<Seq<char>>)
    ensures
        weighted_positions(program_facts(rs, bases)) == counted_positions(rs, bases),
{
    let tbl = atom_table(rs, bases);
    let a = bearing_pass_facts(rs, bases, tbl);
    let c = check_facts(rs, tbl);
    let d = dated_facts(rs, tbl);
    lemma_bearing_pass_positions(rs, bases, tbl);
    lemma_unit_facts(rs, tbl);
    lemma_weighted_positions_concat(a, c);
    lemma_weighted_positions_concat(a + c, d);
    assert(counted_positions(rs, bases) + Seq::<(int, int)>::empty() + Seq::<(int, int)>::empty() =~= counted_positions(rs, bases));
}

/// A record's source time, and only that, dates it: a record whose source
/// carries a time `t` with year `y` yields `dated(e, y).`, and when no
/// record's source carries a time there is no dated fact at all, whatever
/// the records' own recording times.
pub proof fn lemma_dates_come_from_source_times(rs: Seq<Record>, bases: Seq<Seq<char>>, i: int, t: String, y: int)
    requires
        0 <= i < rs.len(),
        rs[i].source_time == Some(t),
        year_of(t@) == Some(y),
    ensures
        program_facts(rs, bases).contains(
            (
                "dated("@ + atom_of(atom_table(rs, bases), rs[i].evidence_id@) + ", "@ + signed_decimal(y)
                    + ")."@,
                None,
            ),
        ),
{
    lemma_dated_sources_surface_as_facts(rs, bases, i);
}

/// Without any source time, no record is dated.
pub proof fn lemma_no_source_time_no_dates(rs: Seq<Record>, tbl: Seq<Seq<char>>)
    requires
        forall|i: int| 0 <= i < rs.len() ==> (#[trigger] rs[i]).source_time is None,
    ensures
        dated_facts(rs, tbl).len() == 0,
        dated_requests(rs).len() == 0,
    decreases rs.len(),
{
    if rs.len() > 0 {
        assert forall|i: int| 0 <= i < rs.len() - 1 implies (#[trigger] rs.drop_last()[i]).source_time is None by {
            assert(rs.drop_last()[i] == rs[i]);
        }
        lemma_no_source_time_no_dates(rs.drop_last(), tbl);
        assert(rs.last().source_time is None);
    }
}

/// Do two records agree on everything the program reads of them: id,
/// bearings, trace, check and source time?
pub open spec fn agree_for_program(a: Record, b: Record) -> bool {
    &&& a.evidence_id@ == b.evidence_id@
    &&& a.bearings@ == b.bearings@
    &&& a.trace == b.trace
    &&& a.check == b.check
    &&& opt_view(a.source_time) == opt_view(b.source_time)
}

proof fn lemma_agree_parts(rs1: Seq<Record>, rs2: Seq<Record>, bases: Seq<Seq<char>>, tbl: Seq<Seq<char>>)
    requires
        rs1.len() == rs2.len(),
        forall|i: int| 0 <= i < rs1.len() ==> agree_for_program(#[trigger] rs1[i], rs2[i]),
    ensures
        bearing_pass_requests(rs1, bases) == bearing_pass_requests(rs2, bases),
        check_requests(rs1) == check_requests(rs2),
        dated_requests(rs1) == dated_requests(rs2),
        bearing_pass_facts(rs1, bases, tbl) == bearing_pass_facts(rs2, bases, tbl),
        check_facts(rs1, tbl) == check_facts(rs2, tbl),
        dated_facts(rs1, tbl) == dated_facts(rs2, tbl),
    decreases rs1.len(),
{
    if rs1.len() > 0 {
        let (p1, p2) = (rs1.drop_last(), rs2.drop_last());
        assert forall|i: int| 0 <= i < p1.len() implies agree_for_program(#[trigger] p1[i], p2[i]) by {
            assert(p1[i] == rs1[i] && p2[i] == rs2[i]);
        }
        lemma_agree_parts(p1, p2, bases, tbl);
        let (a, b) = (rs1.last(), rs2.last());
        assert(agree_for_program(a, b));
        assert(testimony_kind(a) == testimony_kind(b));
        assert(record_year(a) == record_year(b));
    }
}

/// The program reads only what records argue, check and date: records
/// that differ only in their claim text or their own recording time give
/// the same intern table, facts and program text.
pub proof fn lemma_program_ignores_claim_and_recording_time(
    rs1: Seq<Record>,
    rs2: Seq<Record>,
    bases: Seq<Seq<char>>,
    rules: Seq<char>,
)
    requires
        rs1.len() == rs2.len(),
        forall|i: int| 0 <= i < rs1.len() ==> agree_for_program(#[trigger] rs1[i], rs2[i]),
    ensures
        atom_table(rs1, bases) == atom_table(rs2, bases),
        program_facts(rs1, bases) == program_facts(rs2, bases),
        program_text(rs1, bases, rules) == program_text(rs2, bases, rules),
{
    lemma_agree_parts(rs1, rs2, bases, atom_table(rs1, bases));
    assert(requests(rs1, bases) == requests(rs2, bases));
    lemma_agree_parts(rs1, rs2, bases, atom_table(rs1, bases));
}

/// The year of a timestamp that opens with four ASCII digits is the number
/// they spell; one that opens with a sign and three digits is that number,
/// negated for a minus; one that opens with fewer than four characters, or
/// with anything else, has none.
pub proof fn lemma_year_reads_four_characters(t: Seq<char>)
    ensures
        t.len() < 4 ==> year_of(t) is None,
        t.len() >= 4 && (forall|i: int| 0 <= i < 4 ==> 48 <= #[trigger] (t[i] as u32) <= 57) ==> year_of(t)
            == Some(
            1000 * (t[0] as u32 - 48) + 100 * (t[1] as u32 - 48) + 10 * (t[2] as u32 - 48) + (t[3] as u32 - 48),
        ),
        t.len() >= 4 && (t[0] == '+' || t[0] == '-') && (forall|i: int|
            1 <= i < 4 ==> 48 <= #[trigger] (t[i] as u32) <= 57) ==> year_of(t) == Some(
            if t[0] == '-' {
                -(100 * (t[1] as u32 - 48) + 10 * (t[2] as u32 - 48) + (t[3] as u32 - 48))
            } else {
                100 * (t[1] as u32 - 48) + 10 * (t[2] as u32 - 48) + (t[3] as u32 - 48)
            },
        ),
        t.len() >= 4 && !(48 <= (t[0] as u32) <= 57) && t[0] != '+' && t[0] != '-' ==> year_of(t) is None,
{
    if t.len() >= 4 {
        let s = t.take(4);
        let s1 = s.skip(1);
        assert(s.drop_last().drop_last().drop_last().drop_last() =~= Seq::<char>::empty());
        assert(s1.drop_last().drop_last().drop_last() =~= Seq::<char>::empty());
        assert(s.drop_last().drop_last().drop_last().last() == t[0]);
        assert(s.drop_last().drop_last().last() == t[1]);
        assert(s.drop_last().last() == t[2]);
        assert(s.last() == t[3]);
        assert(s1.drop_last().drop_last().last() == t[1]);
        assert(s1.drop_last().last() == t[2]);
        assert(s1.last() == t[3]);
        reveal_with_fuel(digits_value, 5);
        if !(48 <= (t[0] as u32) <= 57) {
            assert(!is_digit(s[0]));
        }
        if t[0] == '+' || t[0] == '-' {
            assert(!is_digit(s[0]));
        }
        if forall|i: int| 1 <= i < 4 ==> 48 <= #[trigger] (t[i] as u32) <= 57 {
            assert forall|i: int| 0 <= i < s1.len() implies is_digit(#[trigger] s1[i]) by {
                assert(s1[i] == t[i + 1]);
            }
        }
        if forall|i: int| 0 <= i < 4 ==> 48 <= #[trigger] (t[i] as u32) <= 57 {
            assert forall|i: int| 0 <= i < s.len() implies is_digit(#[trigger] s[i]) by {
                assert(s[i] == t[i]);
            }
        }
    }
}

/// Atoms are numbered in order of first use: ids are interned as the
/// bearing pass, then the check pass, then the date pass reach them, and
/// wherever the id of a later atom is interned, the id of each earlier atom
/// has been interned before.
pub proof fn lemma_atoms_in_order_of_first_use(rs: Seq<Record>, bases: Seq<Seq<char>>, a: int, b: int, j: int)
    requires
        0 <= a < b < atom_table(rs, bases).len(),
        0 <= j < (bearing_pass_requests(rs, bases) + check_requests(rs) + dated_requests(rs)).len(),
        (bearing_pass_requests(rs, bases) + check_requests(rs) + dated_requests(rs))[j] == atom_table(rs, bases)[b],
    ensures
        exists|i: int|
            0 <= i < j && (bearing_pass_requests(rs, bases) + check_requests(rs) + dated_requests(rs))[i]
                == atom_table(rs, bases)[a],
{
    lemma_dedup_first_appearance(requests(rs, bases), a, b, j);
}

} // verus!
