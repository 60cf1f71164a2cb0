//! Scoring of candidate contributions.
//!
//! The score orders candidates for one level: a candidate outside the
//! level's admissible set is unusable and scores 0, a duplicate of the
//! current best scores 0, and any other candidate scores its number of
//! contributors, so candidates with more contributors score higher and the
//! all-peers contribution scores highest. The store replaces its best only
//! for a strictly higher score.

use vstd::prelude::*;

use crate::bitset::{count_ones, lemma_count_le_len, lemma_count_subset, subset_of, BitSet};
use crate::contribution::Contribution;

verus! {

/// Score of a candidate with contributor set `c` against the admissible set
/// `adm` and the current best's contributor set, if any.
pub open spec fn score_spec(c: Seq<bool>, adm: Seq<bool>, best: Option<Seq<bool>>) -> int {
    if !subset_of(c, adm) {
        0
    } else if best == Some(c) {
        0
    } else {
        count_ones(c) as int
    }
}

/// Evaluates one candidate for a level whose admissible set is `adm`,
/// against the current best contribution of that level.
pub fn score(c: &Contribution, adm: &BitSet, best: &Option<Contribution>) -> (r: i64)
    requires
        adm@.len() <= i64::MAX,
    ensures
        r == score_spec(c@.contributors, adm@, match best {
            Some(b) => Some(b@.contributors),
            None => None,
        }),
{
    if !c.contributors_ref().is_subset(adm) {
        return 0;
    }
    match best {
        Some(b) => {
            if c.contributors_ref() == b.contributors_ref() {
                return 0;
            }
        },
        None => {},
    }
    proof {
        lemma_count_subset(c@.contributors, adm@);
        lemma_count_le_len(adm@);
    }
    c.num_contributors() as i64
}

/// The score ordering coincides with comparing contributor counts, for
/// admissible, non-duplicate candidates: this is what the store's
/// replacement rule compares.
pub proof fn lemma_score_is_count(c: Seq<bool>, adm: Seq<bool>, best: Option<Seq<bool>>)
    requires
        subset_of(c, adm),
        best != Some(c),
    ensures
        score_spec(c, adm, best) == count_ones(c),
{
}

} // verus!
