//! The evidence records that reed judges, held as the plain values the
//! judging logic reads.
//!
//! A bearing's weight is a float; it stays with the caller, at the same
//! record and bearing position, and everything here refers to it by that
//! position.
use vstd::prelude::*;

use crate::{Semantics, SemiringChoice};

verus! {

/// Whether a bearing argues for or against its target.
#[derive(Clone, Copy, Debug, PartialEq, Eq, Structural)]
pub enum Polarity {
    Promotes,
    Inhibits,
}

/// One record arguing about a claim: it promotes or inhibits the record
/// whose `evidence_id` is `on`, under an optional signal class `basis`.
pub struct Bearing {
    pub on: String,
    pub polarity: Polarity,
    pub basis: Option<String>,
}

/// What a record's trace says of how it was produced: the trace's `kind`,
/// and the string under the `kind` key of its steps, if there is one.
pub struct Trace {
    pub kind: String,
    pub step_kind: Option<String>,
}

/// A record's own verification status.
pub struct Check {
    pub upheld: bool,
    /// Who ruled.
    pub by: String,
    /// How it was checked, as the report prints it.
    pub method: String,
    pub reason: Option<String>,
}

/// One evidence record.
pub struct Record {
    pub evidence_id: String,
    /// The text of the claim the record makes.
    pub claim: String,
    pub bearings: Vec<Bearing>,
    pub trace: Option<Trace>,
    pub check: Option<Check>,
    /// When the record's source was generated (PROV-O `generatedAtTime`).
    pub source_time: Option<String>,
    /// When the record itself was generated.
    pub recorded_at: Option<String>,
}

/// The experimental knobs of one judging run, as far as the judging logic
/// reads them. Per-basis scale factors are floats; the caller keeps them,
/// position for position with `scaled_bases`. Signals are selected by
/// basis; there is no selection by argument scheme, which would need the
/// evidence-core registry of schemes.
pub struct Config {
    /// Signal classes (bearing `basis` values) that count. Empty = all.
    pub bases: Vec<String>,
    /// The bases that carry a scale factor, in the order the factors are
    /// listed. The first entry naming a basis is the one that applies.
    pub scaled_bases: Vec<String>,
    /// Caller Datalog policy. Blank = no logical layer.
    pub rules: String,
    /// The predicate whose derivation admits a claim. `None` admits every
    /// claim.
    pub admit_predicate: Option<String>,
    pub semiring: SemiringChoice,
    pub semantics: Semantics,
}

/// The characters of an optional string.
pub open spec fn opt_view(o: Option<String>) -> Option<Seq<char>> {
    match o {
        Some(s) => Some(s@),
        None => None,
    }
}

/// The characters of each string of a sequence.
pub open spec fn strs(v: Seq<String>) -> Seq<Seq<char>> {
    v.map_values(|s: String| s@)
}

/// Does a bearing of class `basis` count under the configured `bases`?
/// An empty list counts every bearing; otherwise the basis must be present
/// and listed.
pub open spec fn counts(bases: Seq<Seq<char>>, basis: Option<Seq<char>>) -> bool {
    bases.len() == 0 || (basis is Some && bases.contains(basis->0))
}

/// Is `x` one of the strings of `v`?
pub fn contains_string(v: &Vec<String>, x: &String) -> (r: bool)
    ensures
        r == strs(v@).contains(x@),
{
    let mut i: usize = 0;
    while i < v.len()
        invariant
            i <= v.len(),
            forall|k: int| 0 <= k < i ==> v@[k]@ != x@,
        decreases v.len() - i,
    {
        if v[i] == *x {
            assert(strs(v@)[i as int] == x@);
            return true;
        }
        i = i + 1;
    }
    proof {
        if strs(v@).contains(x@) {
            let k = choose|k: int| 0 <= k < strs(v@).len() && strs(v@)[k] == x@;
            assert(v@[k]@ == x@);
        }
    }
    false
}

/// Does a bearing of class `basis` count under `bases`?
pub fn included(bases: &Vec<String>, basis: &Option<String>) -> (r: bool)
    ensures
        r == counts(strs(bases@), opt_view(*basis)),
{
    if bases.len() == 0 {
        return true;
    }
    match basis {
        Some(b) => contains_string(bases, b),
        None => false,
    }
}

/// The position of the first entry of `names` equal to `basis`, if any:
/// the scale factor that applies to a bearing of that class. A bearing
/// without a basis, or of an unlisted basis, keeps factor 1.
pub fn scale_entry(names: &Vec<String>, basis: &Option<String>) -> (r: Option<usize>)
    ensures
        match r {
            Some(k) => {
                &&& basis is Some
                &&& k < names@.len()
                &&& names@[k as int]@ == opt_view(*basis)->0
                &&& forall|m: int| 0 <= m < k ==> names@[m]@ != opt_view(*basis)->0
            },
            None => basis is None || !strs(names@).contains(opt_view(*basis)->0),
        },
{
    match basis {
        None => None,
        Some(b) => {
            let mut i: usize = 0;
            while i < names.len()
                invariant
                    i <= names.len(),
                    opt_view(*basis) == Some(b@),
                    forall|m: int| 0 <= m < i ==> names@[m]@ != b@,
                decreases names.len() - i,
            {
                if names[i] == *b {
                    return Some(i);
                }
                i = i + 1;
            }
            proof {
                if strs(names@).contains(b@) {
                    let k = choose|k: int| 0 <= k < strs(names@).len() && strs(names@)[k] == b@;
                    assert(names@[k]@ == b@);
                }
            }
            None
        },
    }
}

/// Basis selection: with no bases listed every bearing counts; otherwise
/// a bearing counts exactly when its basis equals one of the listed bases,
/// any of them.
pub proof fn lemma_listed_bases_count(bases: Seq<Seq<char>>, basis: Option<Seq<char>>)
    ensures
        bases.len() == 0 ==> counts(bases, basis),
        forall|k: int| 0 <= k < bases.len() ==> counts(bases, Some(#[trigger] bases[k])),
        bases.len() > 0 ==> (counts(bases, basis) <==> exists|k: int|
            0 <= k < bases.len() && basis == Some(#[trigger] bases[k])),
{
    assert forall|k: int| 0 <= k < bases.len() implies counts(bases, Some(#[trigger] bases[k])) by {
        assert(bases.contains(bases[k]));
    }
    if bases.len() > 0 && counts(bases, basis) {
        let k = choose|k: int| 0 <= k < bases.len() && bases[k] == basis->0;
        assert(basis == Some(bases[k]));
    }
}

} // verus!
