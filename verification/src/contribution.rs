//! Contributions: a contributor bit set plus an opaque signature payload.
//!
//! The aggregation core never interprets the payload; defining the signature
//! scheme is outside its scope. Merging two contributions juxtaposes the two
//! payloads and takes the union of the two contributor sets, and is allowed
//! only when the sets are disjoint.

use vstd::prelude::*;

use crate::bitset::{count_ones, disjoint_bits, union_bits, singleton_bits, BitSet};
use crate::error::ContributionError;

verus! {

/// Mathematical value of a contribution.
pub struct ContributionView {
    pub contributors: Seq<bool>,
    pub signature: Seq<u8>,
}

/// A partial aggregate: which committee members' shares it carries, and the
/// aggregated signature payload, opaque to the core.
pub struct Contribution {
    contributors: BitSet,
    signature: Vec<u8>,
}

impl View for Contribution {
    type V = ContributionView;

    closed spec fn view(&self) -> ContributionView {
        ContributionView { contributors: self.contributors@, signature: self.signature@ }
    }
}

impl Contribution {
    /// Assembles a contribution from its parts.
    pub fn new(contributors: BitSet, signature: Vec<u8>) -> (r: Contribution)
        ensures
            r@.contributors == contributors@,
            r@.signature == signature@,
    {
        Contribution { contributors, signature }
    }

    /// The singleton contribution of committee member `i` of a committee of
    /// `n`, with the member's own signature payload.
    pub fn individual(n: usize, i: usize, signature: Vec<u8>) -> (r: Contribution)
        requires
            i < n,
        ensures
            r@.contributors =~= singleton_bits(n as nat, i as int),
            r@.signature == signature@,
    {
        Contribution { contributors: BitSet::singleton(n, i), signature }
    }

    /// The contributor set, as a fresh bit set.
    pub fn contributors(&self) -> (r: BitSet)
        ensures
            r@ =~= self@.contributors,
    {
        self.contributors.copied()
    }

    /// A shared view of the contributor set.
    pub fn contributors_ref(&self) -> (r: &BitSet)
        ensures
            r@ == self@.contributors,
    {
        &self.contributors
    }

    /// Number of committee members whose shares the contribution carries.
    pub fn num_contributors(&self) -> (r: usize)
        ensures
            r == count_ones(self@.contributors),
    {
        self.contributors.count_ones()
    }

    /// The committee size the contribution was made for.
    pub fn width(&self) -> (r: usize)
        ensures
            r == self@.contributors.len(),
    {
        self.contributors.len()
    }

    /// The aggregated signature payload.
    pub fn signature(&self) -> (r: &Vec<u8>)
        ensures
            r@ == self@.signature,
    {
        &self.signature
    }

    /// Merges `other` into `self`. Succeeds exactly when the two contributor
    /// sets have the same width and are disjoint; on failure `self` is left
    /// unchanged.
    pub fn combine(&mut self, other: &Contribution) -> (r: Result<(), ContributionError>)
        ensures
            r is Ok <==> (old(self)@.contributors.len() == other@.contributors.len()
                && disjoint_bits(old(self)@.contributors, other@.contributors)),
            r is Ok ==> final(self)@.contributors =~= union_bits(
                old(self)@.contributors,
                other@.contributors,
            ) && final(self)@.signature =~= old(self)@.signature + other@.signature,
            r is Err ==> final(self)@ == old(self)@,
            r == Err::<(), ContributionError>(ContributionError::WidthMismatch) <==> old(
                self,
            )@.contributors.len() != other@.contributors.len(),
    {
        if self.contributors.len() != other.contributors.len() {
            return Err(ContributionError::WidthMismatch);
        }
        if !self.contributors.is_disjoint(&other.contributors) {
            return Err(ContributionError::Overlap);
        }
        self.contributors.union_with(&other.contributors);
        let mut signature: Vec<u8> = Vec::new();
        let a = self.signature.len();
        let b = other.signature.len();
        let mut k: usize = 0;
        while k < a
            invariant
                k <= a,
                a == self@.signature.len(),
                signature@ =~= self@.signature.take(k as int),
            decreases a - k,
        {
            signature.push(self.signature[k]);
            k = k + 1;
        }
        assert(signature@ =~= self@.signature);
        let mut j: usize = 0;
        while j < b
            invariant
                j <= b,
                b == other@.signature.len(),
                signature@ =~= self@.signature + other@.signature.take(j as int),
            decreases b - j,
        {
            signature.push(other.signature[j]);
            j = j + 1;
        }
        assert(signature@ =~= self@.signature + other@.signature);
        self.signature = signature;
        Ok(())
    }

    /// An exact copy of the contribution.
    pub fn copied(&self) -> (r: Contribution)
        ensures
            r@.contributors =~= self@.contributors,
            r@.signature =~= self@.signature,
    {
        let mut signature: Vec<u8> = Vec::new();
        let n = self.signature.len();
        let mut k: usize = 0;
        while k < n
            invariant
                k <= n,
                n == self@.signature.len(),
                signature@ =~= self@.signature.take(k as int),
            decreases n - k,
        {
            signature.push(self.signature[k]);
            k = k + 1;
        }
        assert(signature@ =~= self@.signature);
        Contribution { contributors: self.contributors.copied(), signature }
    }
}

impl Clone for Contribution {
    fn clone(&self) -> (r: Self)
        ensures
            r@.contributors =~= self@.contributors,
            r@.signature =~= self@.signature,
    {
        self.copied()
    }
}

impl PartialEq for Contribution {
    fn eq(&self, other: &Self) -> (r: bool) {
        let ce = self.contributors == other.contributors;
        let se = self.signature == other.signature;
        proof {
            if se {
                assert(self.signature@ =~= other.signature@);
            } else {
                assert(!(self.signature@ =~= other.signature@));
            }
        }
        ce && se
    }
}

impl Eq for Contribution {
}

impl vstd::std_specs::cmp::PartialEqSpecImpl for Contribution {
    open spec fn obeys_eq_spec() -> bool {
        true
    }

    open spec fn eq_spec(&self, other: &Self) -> bool {
        self@.contributors == other@.contributors && self@.signature == other@.signature
    }
}

} // verus!
