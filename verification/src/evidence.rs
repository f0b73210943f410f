//! Lookups in the attribution-evidence store: append-only, FK-free witness
//! snapshots captured at the moment an attribution decision is made.
//!
//! A snapshot names its subject by one or two ids (`subject_a`, and
//! `subject_b` for pair kinds such as an emitter association). A lookup by a
//! pair matches the pair in either stored direction; a lookup by a single id
//! matches only single-subject snapshots.

use vstd::prelude::*;

verus! {

/// The store of witness snapshots.
pub struct AttributionEvidenceRepo;

/// Which snapshots a lookup selects.
#[derive(Debug, Clone, Copy, PartialEq, Eq)]
pub enum SubjectFilter {
    /// Snapshots about the pair `{a, b}`, stored as `(a, b)` or as `(b, a)`.
    Pair { a: u128, b: u128 },
    /// Snapshots about `a` alone (no second subject).
    Single { a: u128 },
}

impl SubjectFilter {
    /// Whether a snapshot stored with subjects `(row_a, row_b)` is selected.
    pub open spec fn admits(self, row_a: u128, row_b: Option<u128>) -> bool {
        match self {
            SubjectFilter::Pair { a, b } => (row_a == a && row_b == Some(b)) || (row_a == b
                && row_b == Some(a)),
            SubjectFilter::Single { a } => row_a == a && row_b is None,
        }
    }

    /// The query parameters, in the order the lookup binds them: `a`, then
    /// `b` for a pair.
    pub open spec fn bind_values(self) -> Seq<u128> {
        match self {
            SubjectFilter::Pair { a, b } => seq![a, b],
            SubjectFilter::Single { a } => seq![a],
        }
    }

    /// Whether the lookup is by a pair of subjects.
    pub fn is_pair(&self) -> (r: bool)
        ensures
            r == (*self is Pair),
    {
        match self {
            SubjectFilter::Pair { .. } => true,
            SubjectFilter::Single { .. } => false,
        }
    }

    /// The query parameters of the lookup, in binding order.
    pub fn binds(&self) -> (r: Vec<u128>)
        ensures
            r@ == self.bind_values(),
    {
        let mut r: Vec<u128> = Vec::new();
        match self {
            SubjectFilter::Pair { a, b } => {
                r.push(*a);
                r.push(*b);
            },
            SubjectFilter::Single { a } => {
                r.push(*a);
            },
        }
        assert(r@ =~= self.bind_values());
        r
    }
}

/// The filter that selects the snapshots about `subject_a` and, when given, `subject_b`.
pub open spec fn filter_for(subject_a: u128, subject_b: Option<u128>) -> SubjectFilter {
    match subject_b {
        Some(b) => SubjectFilter::Pair { a: subject_a, b },
        None => SubjectFilter::Single { a: subject_a },
    }
}

impl AttributionEvidenceRepo {
    /// The filter of a lookup of all snapshots for a subject. With
    /// `subject_b`, the pair matches in either stored direction; without it,
    /// only snapshots with no second subject match.
    pub fn subject_filter(subject_a: u128, subject_b: Option<u128>) -> (f: SubjectFilter)
        ensures
            f == filter_for(subject_a, subject_b),
    {
        match subject_b {
            Some(b) => SubjectFilter::Pair { a: subject_a, b },
            None => SubjectFilter::Single { a: subject_a },
        }
    }
}

/// A snapshot is found again by the subjects it was recorded with.
pub proof fn lemma_recorded_subject_is_found(subject_a: u128, subject_b: Option<u128>)
    ensures
        filter_for(subject_a, subject_b).admits(subject_a, subject_b),
{
}

/// A pair lookup selects the same snapshots whichever emitter of the pair it
/// names first; so a snapshot about a pair is found from either emitter.
pub proof fn lemma_pair_lookup_either_direction(
    a: u128,
    b: u128,
    row_a: u128,
    row_b: Option<u128>,
)
    ensures
        filter_for(a, Some(b)).admits(row_a, row_b) == filter_for(b, Some(a)).admits(
            row_a,
            row_b,
        ),
        filter_for(b, Some(a)).admits(a, Some(b)),
{
}

/// A single-subject lookup selects exactly the snapshots about that subject
/// with no second subject, never a snapshot about a pair.
pub proof fn lemma_single_lookup_ignores_pairs(a: u128, row_a: u128, row_b: Option<u128>)
    ensures
        filter_for(a, None).admits(row_a, row_b) <==> (row_a == a && row_b is None),
{
}

/// A pair lookup selects the snapshots stored as `(a, b)` or as `(b, a)` and
/// no others, and binds `a` then `b`; a single lookup binds `a` alone.
pub proof fn lemma_lookup_matches_and_binds(a: u128, b: u128, row_a: u128, row_b: Option<u128>)
    ensures
        filter_for(a, Some(b)).admits(row_a, row_b) <==> ((row_a == a && row_b == Some(b)) || (
        row_a == b && row_b == Some(a))),
        filter_for(a, Some(b)).bind_values() == seq![a, b],
        filter_for(a, None).bind_values() == seq![a],
        filter_for(a, Some(b)) is Pair,
        filter_for(a, None) is Single,
{
}

} // verus!
