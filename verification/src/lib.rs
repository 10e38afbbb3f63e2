//! Fair-proportion ranking of the leaves of a weighted tree.
//!
//! A JSON document describes a tree whose nodes carry branch lengths and
//! whose leaves carry names. Every leaf receives, from each edge on its path
//! to the root, that edge's length divided by the number of leaves sharing
//! the edge; the sum is the leaf's score, an exact rational. `solve` parses
//! the document, computes every leaf's score and returns a ranked set that
//! drains in descending score order, ties broken by name.

use vstd::prelude::*;

pub mod json;
pub mod rat;
pub mod scores;
pub mod tree;

verus! {

use crate::json::sp_doc;
use vstd::string::StringSliceAdditionalSpecFns;
use crate::rat::{rat_eq, Rat};
use crate::scores::{all_wf, bytes_lt, sorted_asc, spec_sort, ScoreSet};
use crate::tree::walk_scores;

/// Why `solve` failed. Both are terminal: no partial result is returned.
#[derive(Clone, Copy, Debug)]
pub enum SolveError {
    /// The input is not valid JSON, or does not describe a tree of the
    /// expected shape.
    Parse,
    /// A computed value cannot be represented exactly: some score or leaf
    /// count exceeds its machine type.
    Domain,
}

impl SolveError {
    /// A human-readable description of the failure.
    pub fn message(&self) -> (r: &'static str)
        ensures
            self is Parse ==> r@ == "the input is not a well-formed tree document"@,
            self is Domain ==> r@ == "a computed score is not exactly representable"@,
    {
        match self {
            SolveError::Parse => "the input is not a well-formed tree document",
            SolveError::Domain => "a computed score is not exactly representable",
        }
    }
}

/// The outcome `solve` denotes on the given input bytes: the parsed tree's
/// leaf scores, sorted ascending in the entry order (so that draining from
/// the top is descending); `Parse` when the document is not a well-formed
/// tree, `Domain` when a score or leaf count is not exactly representable.
pub open spec fn solve_spec(s: Seq<u8>) -> Result<Seq<(Rat, Seq<u8>)>, SolveError> {
    match sp_doc(s) {
        None => Err(SolveError::Parse),
        Some(t) => match walk_scores(t, Rat { num: 0, den: 1 }) {
            None => Err(SolveError::Domain),
            Some(pairs) => Ok(spec_sort(pairs)),
        },
    }
}

/// Parses the JSON document, scores every leaf of the tree it describes and
/// ranks the results. The outcome is exactly `solve_spec` of the input
/// bytes — a function of the input alone — and a returned set is sorted
/// with every score a well-defined rational.
pub fn solve(json: &str) -> (r: Result<ScoreSet, SolveError>)
    ensures
        match r {
            Ok(set) => solve_spec(json.spec_bytes()) == Ok::<_, SolveError>(set@) && sorted_asc(
                set@,
            ) && all_wf(set@),
            Err(e) => solve_spec(json.spec_bytes()) == Err::<Seq<(Rat, Seq<u8>)>, _>(e),
        },
{
    let bytes = vstd::slice::slice_to_vec(json.as_bytes());
    let tree = match crate::json::p_doc(&bytes) {
        Some(t) => t,
        None => {
            return Err(SolveError::Parse);
        },
    };
    let pairs = match tree.walk(Rat::zero()) {
        Some(p) => p,
        None => {
            return Err(SolveError::Domain);
        },
    };
    proof {
        crate::json::lemma_sp_doc_wf(bytes@);
        crate::tree::lemma_walk_scores_wf(crate::tree::tree_view(tree), Rat { num: 0, den: 1 });
        crate::scores::lemma_spec_sort_sorted(crate::tree::pairs_view(pairs@));
    }
    Ok(ScoreSet::from_pairs(pairs))
}

/// Determinism: the outcome of `solve` is a function of the input text
/// alone, so two runs on identical input yield identical ranked output.
pub proof fn lemma_solve_deterministic(
    s: Seq<u8>,
    r1: Result<Seq<(Rat, Seq<u8>)>, SolveError>,
    r2: Result<Seq<(Rat, Seq<u8>)>, SolveError>,
)
    requires
        r1 == solve_spec(s),
        r2 == solve_spec(s),
    ensures
        r1 == r2,
{
}

/// Tie-break determinism: wherever two entries of a ranked result carry
/// equal scores, the later entry of the ascending view — the one extracted
/// earlier when draining — has the lexicographically greater (or equal)
/// name, so equal-scored leaves always drain in the same relative order.
pub proof fn lemma_solve_tie_break(
    s: Seq<u8>,
    out: Seq<(Rat, Seq<u8>)>,
    k1: int,
    k2: int,
)
    requires
        solve_spec(s) == Ok::<_, SolveError>(out),
        0 <= k1 < k2 < out.len(),
        rat_eq(out[k1].0, out[k2].0),
    ensures
        out[k1].1 == out[k2].1 || bytes_lt(out[k1].1, out[k2].1),
{
    let t = sp_doc(s)->Some_0;
    let pairs = walk_scores(t, Rat { num: 0, den: 1 })->Some_0;
    crate::json::lemma_sp_doc_wf(s);
    crate::tree::lemma_walk_scores_wf(t, Rat { num: 0, den: 1 });
    crate::scores::lemma_spec_sort_sorted(pairs);
    assert(crate::scores::pair_le(out[k1], out[k2]));
}

/// Completeness of the ranking: a successful `solve` returns exactly the
/// walk's result pairs — one entry per leaf of the parsed tree, nothing
/// dropped, nothing invented — merely rearranged into the entry order.
pub proof fn lemma_solve_one_entry_per_leaf(s: Seq<u8>, out: Seq<(Rat, Seq<u8>)>)
    requires
        solve_spec(s) == Ok::<_, SolveError>(out),
    ensures
        ({
            let t = sp_doc(s)->Some_0;
            let pairs = walk_scores(t, Rat { num: 0, den: 1 })->Some_0;
            out.to_multiset() == pairs.to_multiset() && out.len() == crate::tree::leaf_count(t)
        }),
{
    broadcast use vstd::seq_lib::group_to_multiset_ensures;

    let t = sp_doc(s)->Some_0;
    let pairs = walk_scores(t, Rat { num: 0, den: 1 })->Some_0;
    crate::scores::lemma_spec_sort_multiset(pairs);
    crate::tree::lemma_walk_scores_len(t, Rat { num: 0, den: 1 });
    assert(out.len() == out.to_multiset().len());
    assert(pairs.len() == pairs.to_multiset().len());
}

/// A file the presentation shell has loaded: its display name and its text
/// content, handed to `solve` as is.
pub struct FileDetails {
    pub name: String,
    pub data: String,
}

} // verus!
