//! Which records are claims, and which bearings argue about them.
//!
//! A record ARGUES or IS ARGUED ABOUT: anything a counted bearing targets
//! is a claim, and any record carrying no bearings of its own is a claim
//! too.
use vstd::prelude::*;

use crate::record::{contains_string, counts, included, opt_view, strs, Bearing, Record};

verus! {

/// `s` with every element after its first occurrence left out.
pub open spec fn dedup(s: Seq<Seq<char>>) -> Seq<Seq<char>>
    decreases s.len(),
{
    if s.len() == 0 {
        Seq::empty()
    } else {
        let d = dedup(s.drop_last());
        if d.contains(s.last()) {
            d
        } else {
            d.push(s.last())
        }
    }
}

/// The targets of the counted bearings among `bs`, in order, repeats kept.
pub open spec fn counted_targets(bs: Seq<Bearing>, bases: Seq<Seq<char>>) -> Seq<Seq<char>>
    decreases bs.len(),
{
    if bs.len() == 0 {
        Seq::empty()
    } else {
        let rest = counted_targets(bs.drop_last(), bases);
        if counts(bases, opt_view(bs.last().basis)) {
            rest.push(bs.last().on@)
        } else {
            rest
        }
    }
}

/// The targets of all counted bearings of `rs`, record by record.
pub open spec fn targeted(rs: Seq<Record>, bases: Seq<Seq<char>>) -> Seq<Seq<char>>
    decreases rs.len(),
{
    if rs.len() == 0 {
        Seq::empty()
    } else {
        targeted(rs.drop_last(), bases) + counted_targets(rs.last().bearings@, bases)
    }
}

/// The ids of the records that carry no bearings, in order.
pub open spec fn standalone(rs: Seq<Record>) -> Seq<Seq<char>>
    decreases rs.len(),
{
    if rs.len() == 0 {
        Seq::empty()
    } else if rs.last().bearings@.len() == 0 {
        standalone(rs.drop_last()).push(rs.last().evidence_id@)
    } else {
        standalone(rs.drop_last())
    }
}

/// The claims of `rs` under `bases`: every counted bearing target, then
/// every bearing-less record, each once, in order of first appearance.
pub open spec fn claims(rs: Seq<Record>, bases: Seq<Seq<char>>) -> Seq<Seq<char>> {
    dedup(targeted(rs, bases) + standalone(rs))
}

/// Does `rs` hold a counted bearing, at record `i` and bearing `j`, that
/// targets `x`?
pub open spec fn is_counted_target(rs: Seq<Record>, bases: Seq<Seq<char>>, x: Seq<char>) -> bool {
    exists|i: int, j: int|
        0 <= i < rs.len() && 0 <= j < rs[i].bearings@.len() && #[trigger] rs[i].bearings@[j].on@
            == x && counts(bases, opt_view(rs[i].bearings@[j].basis))
}

/// Is `x` the id of a record of `rs` that carries no bearings?
pub open spec fn is_standalone(rs: Seq<Record>, x: Seq<char>) -> bool {
    exists|i: int| 0 <= i < rs.len() && #[trigger] rs[i].evidence_id@ == x && rs[i].bearings@.len() == 0
}

pub proof fn lemma_dedup_push(s: Seq<Seq<char>>, x: Seq<char>)
    ensures
        dedup(s.push(x)) == (if dedup(s).contains(x) { dedup(s) } else { dedup(s).push(x) }),
{
    assert(s.push(x).drop_last() =~= s);
}

/// `dedup` keeps exactly the elements of its input, each once.
pub proof fn lemma_dedup(s: Seq<Seq<char>>)
    ensures
        dedup(s).no_duplicates(),
        forall|x: Seq<char>| #[trigger] dedup(s).contains(x) <==> s.contains(x),
    decreases s.len(),
{
    if s.len() > 0 {
        let p = s.drop_last();
        let d = dedup(p);
        lemma_dedup(p);
        assert forall|x: Seq<char>| dedup(s).contains(x) <==> s.contains(x) by {
            if s.contains(x) {
                let k = choose|k: int| 0 <= k < s.len() && s[k] == x;
                if k < s.len() - 1 {
                    assert(p[k] == x);
                    assert(p.contains(x));
                    assert(d.contains(x));
                    let m = choose|m: int| 0 <= m < d.len() && d[m] == x;
                    if !d.contains(s.last()) {
                        assert(d.push(s.last())[m] == x);
                    }
                } else {
                    if !d.contains(s.last()) {
                        assert(d.push(s.last())[d.len() as int] == x);
                    }
                }
            }
            if dedup(s).contains(x) {
                let m = choose|m: int| 0 <= m < dedup(s).len() && dedup(s)[m] == x;
                if m < d.len() {
                    assert(d[m] == x);
                    assert(d.contains(x));
                    let k = choose|k: int| 0 <= k < p.len() && p[k] == x;
                    assert(s[k] == x);
                } else {
                    assert(s[s.len() - 1] == x);
                }
            }
        }
    }
}

/// Whatever `dedup` keeps of a prefix, it keeps at the same place.
pub proof fn lemma_dedup_prefix(s: Seq<Seq<char>>, t: Seq<Seq<char>>)
    ensures
        dedup(s).len() <= dedup(s + t).len(),
        dedup(s) == dedup(s + t).take(dedup(s).len() as int),
    decreases t.len(),
{
    if t.len() == 0 {
        assert(s + t =~= s);
        assert(dedup(s) =~= dedup(s).take(dedup(s).len() as int));
    } else {
        lemma_dedup_prefix(s, t.drop_last());
        assert((s + t).drop_last() =~= s + t.drop_last());
        let d = dedup(s + t.drop_last());
        assert(d.push(t.last()).take(dedup(s).len() as int) =~= d.take(dedup(s).len() as int));
    }
}

proof fn lemma_counted_targets_member(bs: Seq<Bearing>, bases: Seq<Seq<char>>, x: Seq<char>)
    ensures
        counted_targets(bs, bases).contains(x) <==> exists|j: int|
            0 <= j < bs.len() && #[trigger] bs[j].on@ == x && counts(bases, opt_view(bs[j].basis)),
    decreases bs.len(),
{
    if bs.len() > 0 {
        let p = bs.drop_last();
        lemma_counted_targets_member(p, bases, x);
        if counted_targets(bs, bases).contains(x) {
            if counted_targets(p, bases).contains(x) {
                let j = choose|j: int|
                    0 <= j < p.len() && #[trigger] p[j].on@ == x && counts(bases, opt_view(p[j].basis));
                assert(bs[j] == p[j]);
            } else {
                assert(bs[bs.len() - 1].on@ == x);
            }
        }
        if exists|j: int|
            0 <= j < bs.len() && #[trigger] bs[j].on@ == x && counts(bases, opt_view(bs[j].basis)) {
            let j = choose|j: int|
                0 <= j < bs.len() && #[trigger] bs[j].on@ == x && counts(bases, opt_view(bs[j].basis));
            if j < bs.len() - 1 {
                assert(p[j] == bs[j]);
                let k = choose|k: int| 0 <= k < counted_targets(p, bases).len() && counted_targets(p, bases)[k] == x;
                let r = counted_targets(p, bases);
                if counts(bases, opt_view(bs.last().basis)) {
                    assert(r.push(bs.last().on@)[k] == x);
                }
            } else {
                assert(counted_targets(bs, bases).last() == x);
            }
        }
    }
}

proof fn lemma_targeted_member(rs: Seq<Record>, bases: Seq<Seq<char>>, x: Seq<char>)
    ensures
        targeted(rs, bases).contains(x) <==> is_counted_target(rs, bases, x),
    decreases rs.len(),
{
    if rs.len() > 0 {
        let p = rs.drop_last();
        let last = rs.last();
        lemma_targeted_member(p, bases, x);
        lemma_counted_targets_member(last.bearings@, bases, x);
        let a = targeted(p, bases);
        let b = counted_targets(last.bearings@, bases);
        if targeted(rs, bases).contains(x) {
            let k = choose|k: int| 0 <= k < (a + b).len() && (a + b)[k] == x;
            if k < a.len() {
                assert(a[k] == x);
                let (i, j) = choose|i: int, j: int|
                    0 <= i < p.len() && 0 <= j < p[i].bearings@.len() && #[trigger] p[i].bearings@[j].on@
                        == x && counts(bases, opt_view(p[i].bearings@[j].basis));
                assert(rs[i] == p[i]);
                assert(rs[i].bearings@[j].on@ == x);
            } else {
                assert(b[k - a.len()] == x);
                let j = choose|j: int|
                    0 <= j < last.bearings@.len() && #[trigger] last.bearings@[j].on@ == x && counts(
                        bases,
                        opt_view(last.bearings@[j].basis),
                    );
                assert(rs[rs.len() - 1].bearings@[j].on@ == x);
            }
        }
        if is_counted_target(rs, bases, x) {
            let (i, j) = choose|i: int, j: int|
                0 <= i < rs.len() && 0 <= j < rs[i].bearings@.len() && #[trigger] rs[i].bearings@[j].on@
                    == x && counts(bases, opt_view(rs[i].bearings@[j].basis));
            if i < rs.len() - 1 {
                assert(p[i] == rs[i]);
                assert(p[i].bearings@[j].on@ == x);
                let k = choose|k: int| 0 <= k < a.len() && a[k] == x;
                assert((a + b)[k] == x);
            } else {
                assert(last.bearings@[j].on@ == x);
                let k = choose|k: int| 0 <= k < b.len() && b[k] == x;
                assert((a + b)[a.len() + k] == x);
            }
        }
    }
}

proof fn lemma_standalone_member(rs: Seq<Record>, x: Seq<char>)
    ensures
        standalone(rs).contains(x) <==> is_standalone(rs, x),
    decreases rs.len(),
{
    if rs.len() > 0 {
        let p = rs.drop_last();
        lemma_standalone_member(p, x);
        if standalone(rs).contains(x) {
            if standalone(p).contains(x) {
                let i = choose|i: int| 0 <= i < p.len() && #[trigger] p[i].evidence_id@ == x && p[i].bearings@.len() == 0;
                assert(rs[i] == p[i]);
            } else {
                assert(rs[rs.len() - 1].evidence_id@ == x);
            }
        }
        if is_standalone(rs, x) {
            let i = choose|i: int| 0 <= i < rs.len() && #[trigger] rs[i].evidence_id@ == x && rs[i].bearings@.len() == 0;
            if i < rs.len() - 1 {
                assert(p[i] == rs[i]);
                assert(p[i].evidence_id@ == x);
                let k = choose|k: int| 0 <= k < standalone(p).len() && standalone(p)[k] == x;
                if rs.last().bearings@.len() == 0 {
                    assert(standalone(rs)[k] == x);
                }
            } else {
                assert(standalone(rs).last() == x);
            }
        }
    }
}

/// A record argues, or is argued about: a string is a claim exactly when a
/// counted bearing targets it or a bearing-less record carries it as its
/// id; and no claim is listed twice.
pub proof fn lemma_claims_are_targets_and_standalone_records(rs: Seq<Record>, bases: Seq<Seq<char>>)
    ensures
        claims(rs, bases).no_duplicates(),
        forall|x: Seq<char>|
            #[trigger] claims(rs, bases).contains(x) <==> (is_counted_target(rs, bases, x) || is_standalone(rs, x)),
{
    let a = targeted(rs, bases);
    let b = standalone(rs);
    lemma_dedup(a + b);
    assert forall|x: Seq<char>|
        #[trigger] claims(rs, bases).contains(x) <==> (is_counted_target(rs, bases, x) || is_standalone(rs, x)) by {
        lemma_targeted_member(rs, bases, x);
        lemma_standalone_member(rs, x);
        if (a + b).contains(x) {
            let k = choose|k: int| 0 <= k < (a + b).len() && (a + b)[k] == x;
            if k < a.len() {
                assert(a[k] == x);
            } else {
                assert(b[k - a.len()] == x);
            }
        }
        if a.contains(x) {
            let k = choose|k: int| 0 <= k < a.len() && a[k] == x;
            assert((a + b)[k] == x);
        }
        if b.contains(x) {
            let k = choose|k: int| 0 <= k < b.len() && b[k] == x;
            assert((a + b)[a.len() + k] == x);
        }
    }
}

/// The positions `(record, bearing)` of the counted bearings among `bs`,
/// the bearings of record `i`, in order.
pub open spec fn counted_in(bs: Seq<Bearing>, bases: Seq<Seq<char>>, i: int) -> Seq<(int, int)>
    decreases bs.len(),
{
    if bs.len() == 0 {
        Seq::empty()
    } else {
        let rest = counted_in(bs.drop_last(), bases, i);
        if counts(bases, opt_view(bs.last().basis)) {
            rest.push((i, bs.len() - 1))
        } else {
            rest
        }
    }
}

/// The positions of all counted bearings of `rs`, in record order: the
/// edges of the bipolar graph, arguer to target.
pub open spec fn counted_positions(rs: Seq<Record>, bases: Seq<Seq<char>>) -> Seq<(int, int)>
    decreases rs.len(),
{
    if rs.len() == 0 {
        Seq::empty()
    } else {
        counted_positions(rs.drop_last(), bases) + counted_in(rs.last().bearings@, bases, rs.len() - 1)
    }
}

/// The integer view of a list of positions.
pub open spec fn positions(v: Seq<(usize, usize)>) -> Seq<(int, int)> {
    v.map_values(|p: (usize, usize)| (p.0 as int, p.1 as int))
}

pub proof fn lemma_take_next<A>(s: Seq<A>, i: int)
    requires
        0 <= i < s.len(),
    ensures
        s.take(i + 1).drop_last() == s.take(i),
        s.take(i + 1).last() == s[i],
        s.take(i + 1).len() == i + 1,
{
    assert(s.take(i + 1).drop_last() =~= s.take(i));
}

pub proof fn lemma_strs_push(v: Seq<String>, s: String)
    ensures
        strs(v.push(s)) == strs(v).push(s@),
{
    assert(strs(v.push(s)) =~= strs(v).push(s@));
}

/// The claims of `records`: the strings that a counted bearing targets,
/// then the ids of the records without bearings, each once, in order of
/// first appearance.
pub fn claim_targets(records: &Vec<Record>, bases: &Vec<String>) -> (targets: Vec<String>)
    ensures
        strs(targets@) == claims(records@, strs(bases@)),
{
    let ghost rs = records@;
    let ghost bv = strs(bases@);
    let mut targets: Vec<String> = Vec::new();
    let n = records.len();
    for i in 0..n
        invariant
            n == rs.len(),
            rs == records@,
            bv == strs(bases@),
            strs(targets@) == dedup(targeted(rs.take(i as int), bv)),
    {
        let r = &records[i];
        let m = r.bearings.len();
        proof {
            lemma_take_next(rs, i as int);
            assert(targeted(rs.take(i as int), bv) + counted_targets(r.bearings@.take(0), bv) =~= targeted(
                rs.take(i as int),
                bv,
            ));
        }
        for j in 0..m
            invariant
                n == rs.len(),
                rs == records@,
                bv == strs(bases@),
                i < n,
                *r == rs[i as int],
                m == r.bearings@.len(),
                strs(targets@) == dedup(
                    targeted(rs.take(i as int), bv) + counted_targets(r.bearings@.take(j as int), bv),
                ),
        {
            let b = &r.bearings[j];
            let ghost a = targeted(rs.take(i as int), bv);
            let ghost before = counted_targets(r.bearings@.take(j as int), bv);
            proof {
                lemma_take_next(r.bearings@, j as int);
            }
            if included(bases, &b.basis) {
                proof {
                    assert(a + before.push(b.on@) =~= (a + before).push(b.on@));
                    lemma_dedup_push(a + before, b.on@);
                }
                if !contains_string(&targets, &b.on) {
                    proof {
                        lemma_strs_push(targets@, b.on);
                    }
                    targets.push(b.on.clone());
                }
            }
        }
        proof {
            assert(r.bearings@.take(m as int) =~= r.bearings@);
        }
    }
    proof {
        assert(rs.take(n as int) =~= rs);
        assert(targeted(rs, bv) + standalone(rs.take(0)) =~= targeted(rs, bv));
    }
    for i in 0..n
        invariant
            n == rs.len(),
            rs == records@,
            bv == strs(bases@),
            strs(targets@) == dedup(targeted(rs, bv) + standalone(rs.take(i as int))),
    {
        let r = &records[i];
        let ghost a = targeted(rs, bv);
        let ghost before = standalone(rs.take(i as int));
        proof {
            lemma_take_next(rs, i as int);
        }
        if r.bearings.len() == 0 {
            proof {
                assert(a + before.push(r.evidence_id@) =~= (a + before).push(r.evidence_id@));
                lemma_dedup_push(a + before, r.evidence_id@);
            }
            if !contains_string(&targets, &r.evidence_id) {
                proof {
                    lemma_strs_push(targets@, r.evidence_id);
                }
                targets.push(r.evidence_id.clone());
            }
        }
    }
    proof {
        assert(rs.take(n as int) =~= rs);
    }
    targets
}

/// The edges of the bipolar graph: the position of every counted bearing,
/// record by record, bearing by bearing.
pub fn counted_bearings(records: &Vec<Record>, bases: &Vec<String>) -> (edges: Vec<(usize, usize)>)
    ensures
        positions(edges@) == counted_positions(records@, strs(bases@)),
{
    let ghost rs = records@;
    let ghost bv = strs(bases@);
    let mut edges: Vec<(usize, usize)> = Vec::new();
    let n = records.len();
    for i in 0..n
        invariant
            n == rs.len(),
            rs == records@,
            bv == strs(bases@),
            positions(edges@) == counted_positions(rs.take(i as int), bv),
    {
        let r = &records[i];
        let m = r.bearings.len();
        proof {
            lemma_take_next(rs, i as int);
            assert(counted_positions(rs.take(i as int), bv) + counted_in(r.bearings@.take(0), bv, i as int)
                =~= counted_positions(rs.take(i as int), bv));
        }
        for j in 0..m
            invariant
                n == rs.len(),
                rs == records@,
                bv == strs(bases@),
                i < n,
                *r == rs[i as int],
                m == r.bearings@.len(),
                positions(edges@) == counted_positions(rs.take(i as int), bv) + counted_in(
                    r.bearings@.take(j as int),
                    bv,
                    i as int,
                ),
        {
            proof {
                lemma_take_next(r.bearings@, j as int);
            }
            if included(bases, &r.bearings[j].basis) {
                proof {
                    assert(positions(edges@.push((i, j))) =~= positions(edges@).push((i as int, j as int)));
                }
                edges.push((i, j));
            }
        }
        proof {
            assert(r.bearings@.take(m as int) =~= r.bearings@);
        }
    }
    proof {
        assert(rs.take(n as int) =~= rs);
    }
    edges
}

/// A record that bears on others is an arguer, not a claim, unless a
/// counted bearing argues about it.
pub proof fn lemma_arguers_are_not_claims(rs: Seq<Record>, bases: Seq<Seq<char>>, i: int)
    requires
        0 <= i < rs.len(),
        rs[i].bearings@.len() > 0,
        !is_counted_target(rs, bases, rs[i].evidence_id@),
        forall|k: int| 0 <= k < rs.len() && #[trigger] rs[k].evidence_id@ == rs[i].evidence_id@ ==> rs[k].bearings@.len() > 0,
    ensures
        !claims(rs, bases).contains(rs[i].evidence_id@),
{
    lemma_claims_are_targets_and_standalone_records(rs, bases);
}

/// `dedup` keeps elements in order of first appearance: every occurrence
/// in `s` of a later element of `dedup(s)` comes after an occurrence of each
/// earlier one.
pub proof fn lemma_dedup_first_appearance(s: Seq<Seq<char>>, a: int, b: int, j: int)
    requires
        0 <= a < b < dedup(s).len(),
        0 <= j < s.len(),
        s[j] == dedup(s)[b],
    ensures
        exists|i: int| 0 <= i < j && s[i] == dedup(s)[a],
    decreases s.len(),
{
    let p = s.drop_last();
    let d = dedup(p);
    lemma_dedup(p);
    lemma_dedup(s);
    if b < d.len() {
        assert(dedup(s)[a] == d[a] && dedup(s)[b] == d[b]);
        if j < s.len() - 1 {
            assert(p[j] == s[j]);
            lemma_dedup_first_appearance(p, a, b, j);
            let i = choose|i: int| 0 <= i < j && p[i] == d[a];
            assert(s[i] == p[i]);
        } else {
            assert(d.contains(d[b]));
            assert(p.contains(d[b]));
            let j2 = choose|j2: int| 0 <= j2 < p.len() && p[j2] == d[b];
            lemma_dedup_first_appearance(p, a, b, j2);
            let i = choose|i: int| 0 <= i < j2 && p[i] == d[a];
            assert(s[i] == p[i]);
        }
    } else {
        assert(!d.contains(s.last()));
        assert(dedup(s) == d.push(s.last()));
        assert(dedup(s)[b] == s.last());
        if j < s.len() - 1 {
            assert(p[j] == s[j]);
            assert(p.contains(s.last()));
            assert(false);
        }
        assert(dedup(s)[a] == d[a]);
        assert(d.contains(d[a]));
        assert(p.contains(d[a]));
        let i = choose|i: int| 0 <= i < p.len() && p[i] == d[a];
        assert(s[i] == p[i]);
    }
}

/// Claims come in order of first appearance: the targets of the counted
/// bearings, record by record, then the bearing-less records. Wherever a
/// later claim appears in that sequence, each earlier claim has appeared
/// before it.
pub proof fn lemma_claims_in_order_of_first_appearance(rs: Seq<Record>, bases: Seq<Seq<char>>, a: int, b: int, j: int)
    requires
        0 <= a < b < claims(rs, bases).len(),
        0 <= j < (targeted(rs, bases) + standalone(rs)).len(),
        (targeted(rs, bases) + standalone(rs))[j] == claims(rs, bases)[b],
    ensures
        exists|i: int| 0 <= i < j && (targeted(rs, bases) + standalone(rs))[i] == claims(rs, bases)[a],
{
    lemma_dedup_first_appearance(targeted(rs, bases) + standalone(rs), a, b, j);
}

} // verus!
