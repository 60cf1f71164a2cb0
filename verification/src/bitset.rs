//! Fixed-width bit sets over committee indices `0..n`.
//!
//! A `BitSet` records which committee members' shares are present in a
//! contribution. Its mathematical view is a `Seq<bool>` of length `n`,
//! where index `i` is true iff committee member `i` is in the set.

use vstd::prelude::*;

verus! {

/// Number of `true` entries of a boolean sequence.
pub open spec fn count_ones(s: Seq<bool>) -> nat
    decreases s.len(),
{
    if s.len() == 0 {
        0
    } else {
        count_ones(s.drop_last()) + if s.last() {
            1nat
        } else {
            0nat
        }
    }
}

/// `a` and `b` have the same width and every member of `a` is a member of `b`.
pub open spec fn subset_of(a: Seq<bool>, b: Seq<bool>) -> bool {
    &&& a.len() == b.len()
    &&& forall|i: int| 0 <= i < a.len() && a[i] ==> b[i]
}

/// No index is a member of both `a` and `b`.
pub open spec fn disjoint_bits(a: Seq<bool>, b: Seq<bool>) -> bool {
    forall|i: int| 0 <= i < a.len() && 0 <= i < b.len() ==> !(a[i] && b[i])
}

/// Pointwise disjunction of two sequences of the same width.
pub open spec fn union_bits(a: Seq<bool>, b: Seq<bool>) -> Seq<bool> {
    Seq::new(a.len(), |i: int| a[i] || b[i])
}

/// Width-`n` sequence whose only member is `i`.
pub open spec fn singleton_bits(n: nat, i: int) -> Seq<bool> {
    Seq::new(n, |j: int| j == i)
}

/// Width-`n` sequence with no members.
pub open spec fn empty_bits(n: nat) -> Seq<bool> {
    Seq::new(n, |j: int| false)
}

pub proof fn lemma_count_le_len(s: Seq<bool>)
    ensures
        count_ones(s) <= s.len(),
    decreases s.len(),
{
    if s.len() > 0 {
        lemma_count_le_len(s.drop_last());
    }
}

pub proof fn lemma_count_subset(a: Seq<bool>, b: Seq<bool>)
    requires
        subset_of(a, b),
    ensures
        count_ones(a) <= count_ones(b),
    decreases a.len(),
{
    if a.len() > 0 {
        assert(subset_of(a.drop_last(), b.drop_last()));
        lemma_count_subset(a.drop_last(), b.drop_last());
    }
}

pub proof fn lemma_count_union_disjoint(a: Seq<bool>, b: Seq<bool>)
    requires
        a.len() == b.len(),
        disjoint_bits(a, b),
    ensures
        count_ones(union_bits(a, b)) == count_ones(a) + count_ones(b),
    decreases a.len(),
{
    if a.len() > 0 {
        assert(union_bits(a, b).drop_last() =~= union_bits(a.drop_last(), b.drop_last()));
        assert(disjoint_bits(a.drop_last(), b.drop_last()));
        lemma_count_union_disjoint(a.drop_last(), b.drop_last());
        assert(union_bits(a, b).last() == (a.last() || b.last()));
    }
}

pub proof fn lemma_count_singleton(n: nat, i: int)
    requires
        0 <= i < n,
    ensures
        count_ones(singleton_bits(n, i)) == 1,
    decreases n,
{
    if n > 0 {
        if i == n - 1 {
            assert(singleton_bits(n, i).drop_last() =~= empty_bits((n - 1) as nat));
            lemma_count_empty((n - 1) as nat);
        } else {
            assert(singleton_bits(n, i).drop_last() =~= singleton_bits((n - 1) as nat, i));
            lemma_count_singleton((n - 1) as nat, i);
        }
    }
}

pub proof fn lemma_count_empty(n: nat)
    ensures
        count_ones(empty_bits(n)) == 0,
    decreases n,
{
    if n > 0 {
        assert(empty_bits(n).drop_last() =~= empty_bits((n - 1) as nat));
        lemma_count_empty((n - 1) as nat);
    }
}

/// The union of two subsets of a set is a subset of it.
pub proof fn lemma_union_subset(a: Seq<bool>, b: Seq<bool>, c: Seq<bool>)
    requires
        subset_of(a, c),
        subset_of(b, c),
    ensures
        subset_of(union_bits(a, b), c),
{
}

/// Each operand is contained in the union.
pub proof fn lemma_subset_of_union(a: Seq<bool>, b: Seq<bool>)
    requires
        a.len() == b.len(),
    ensures
        subset_of(a, union_bits(a, b)),
        subset_of(b, union_bits(a, b)),
{
}

pub proof fn lemma_subset_transitive(a: Seq<bool>, b: Seq<bool>, c: Seq<bool>)
    requires
        subset_of(a, b),
        subset_of(b, c),
    ensures
        subset_of(a, c),
{
}

/// A member's singleton is contained in any set holding the member.
pub proof fn lemma_singleton_subset(n: nat, i: int, s: Seq<bool>)
    requires
        s.len() == n,
        0 <= i < n,
        s[i],
    ensures
        subset_of(singleton_bits(n, i), s),
{
}

/// A subset with the same count as its superset is the superset.
pub proof fn lemma_count_subset_full(a: Seq<bool>, b: Seq<bool>)
    requires
        subset_of(a, b),
        count_ones(a) == count_ones(b),
    ensures
        a =~= b,
    decreases a.len(),
{
    if a.len() > 0 {
        assert(subset_of(a.drop_last(), b.drop_last()));
        if a.last() != b.last() {
            lemma_count_subset(a.drop_last(), b.drop_last());
            assert(false);
        }
        lemma_count_subset_full(a.drop_last(), b.drop_last());
        assert(a =~= a.drop_last().push(a.last()));
        assert(b =~= b.drop_last().push(b.last()));
    }
}

/// Fixed-width set of committee indices.
pub struct BitSet {
    bits: Vec<bool>,
}

impl View for BitSet {
    type V = Seq<bool>;

    closed spec fn view(&self) -> Seq<bool> {
        self.bits@
    }
}

impl BitSet {
    /// The empty set over indices `0..n`.
    pub fn new(n: usize) -> (r: BitSet)
        ensures
            r@ =~= empty_bits(n as nat),
    {
        let mut bits: Vec<bool> = Vec::new();
        let mut k: usize = 0;
        while k < n
            invariant
                k <= n,
                bits@.len() == k,
                forall|j: int| 0 <= j < k ==> !bits@[j],
            decreases n - k,
        {
            bits.push(false);
            k = k + 1;
        }
        BitSet { bits }
    }

    /// The set `{i}` over indices `0..n`.
    pub fn singleton(n: usize, i: usize) -> (r: BitSet)
        requires
            i < n,
        ensures
            r@ =~= singleton_bits(n as nat, i as int),
    {
        let mut s = BitSet::new(n);
        s.insert(i);
        assert(s@ =~= singleton_bits(n as nat, i as int));
        s
    }

    /// The set whose members are the true positions of `bits`.
    pub fn from_bools(bits: Vec<bool>) -> (r: BitSet)
        ensures
            r@ == bits@,
    {
        BitSet { bits }
    }

    /// Width of the set (the committee size it was made for).
    pub fn len(&self) -> (r: usize)
        ensures
            r == self@.len(),
    {
        self.bits.len()
    }

    /// Whether index `i` is a member. Out-of-range indices are not members.
    pub fn contains(&self, i: usize) -> (r: bool)
        ensures
            r == (i < self@.len() && self@[i as int]),
    {
        if i < self.bits.len() {
            self.bits[i]
        } else {
            false
        }
    }

    /// Adds index `i` to the set.
    pub fn insert(&mut self, i: usize)
        requires
            i < old(self)@.len(),
        ensures
            final(self)@ == old(self)@.update(i as int, true),
    {
        self.bits[i] = true;
    }

    /// Replaces the set by its union with `other` (same width).
    pub fn union_with(&mut self, other: &BitSet)
        requires
            old(self)@.len() == other@.len(),
        ensures
            final(self)@ =~= union_bits(old(self)@, other@),
    {
        let n = self.bits.len();
        let mut bits: Vec<bool> = Vec::new();
        let mut k: usize = 0;
        while k < n
            invariant
                k <= n,
                n == self@.len(),
                other@.len() == self@.len(),
                bits@.len() == k,
                forall|j: int| 0 <= j < k ==> bits@[j] == (self@[j] || other@[j]),
            decreases n - k,
        {
            let b = self.bits[k] || other.contains(k);
            bits.push(b);
            k = k + 1;
        }
        self.bits = bits;
    }

    /// Whether the two sets share no member.
    pub fn is_disjoint(&self, other: &BitSet) -> (r: bool)
        ensures
            r == disjoint_bits(self@, other@),
    {
        let n = if self.bits.len() < other.bits.len() {
            self.bits.len()
        } else {
            other.bits.len()
        };
        let mut k: usize = 0;
        while k < n
            invariant
                k <= n,
                n <= self@.len(),
                n <= other@.len(),
                n == self@.len() || n == other@.len(),
                forall|j: int| 0 <= j < k ==> !(self@[j] && other@[j]),
            decreases n - k,
        {
            if self.bits[k] && other.contains(k) {
                return false;
            }
            k = k + 1;
        }
        true
    }

    /// Whether every member of `self` is a member of `other`, with equal widths.
    pub fn is_subset(&self, other: &BitSet) -> (r: bool)
        ensures
            r == subset_of(self@, other@),
    {
        if self.bits.len() != other.bits.len() {
            return false;
        }
        let n = self.bits.len();
        let mut k: usize = 0;
        while k < n
            invariant
                k <= n,
                n == self@.len(),
                n == other@.len(),
                forall|j: int| 0 <= j < k && self@[j] ==> other@[j],
            decreases n - k,
        {
            if self.bits[k] && !other.contains(k) {
                return false;
            }
            k = k + 1;
        }
        true
    }

    /// Number of members of the set.
    pub fn count_ones(&self) -> (r: usize)
        ensures
            r == count_ones(self@),
    {
        let n = self.bits.len();
        let mut count: usize = 0;
        let mut k: usize = 0;
        proof {
            assert(self@.take(0) =~= Seq::<bool>::empty());
        }
        while k < n
            invariant
                k <= n,
                n == self@.len(),
                count == count_ones(self@.take(k as int)),
                count <= k,
            decreases n - k,
        {
            proof {
                assert(self@.take(k + 1).drop_last() =~= self@.take(k as int));
                assert(self@.take(k + 1).last() == self@[k as int]);
            }
            if self.bits[k] {
                count = count + 1;
            }
            k = k + 1;
        }
        proof {
            assert(self@.take(n as int) =~= self@);
        }
        count
    }

    /// Index of the first member, if the set is non-empty.
    pub fn first_member(&self) -> (r: Option<usize>)
        ensures
            match r {
                Some(i) => i < self@.len() && self@[i as int] && forall|j: int|
                    0 <= j < i ==> !self@[j],
                None => forall|j: int| 0 <= j < self@.len() ==> !self@[j],
            },
    {
        let n = self.bits.len();
        let mut k: usize = 0;
        while k < n
            invariant
                k <= n,
                n == self@.len(),
                forall|j: int| 0 <= j < k ==> !self@[j],
            decreases n - k,
        {
            if self.bits[k] {
                return Some(k);
            }
            k = k + 1;
        }
        None
    }

    /// An exact copy of the set.
    pub fn copied(&self) -> (r: BitSet)
        ensures
            r@ =~= self@,
    {
        let n = self.bits.len();
        let mut bits: Vec<bool> = Vec::new();
        let mut k: usize = 0;
        while k < n
            invariant
                k <= n,
                n == self@.len(),
                bits@.len() == k,
                forall|j: int| 0 <= j < k ==> bits@[j] == self@[j],
            decreases n - k,
        {
            bits.push(self.bits[k]);
            k = k + 1;
        }
        BitSet { bits }
    }
}

impl Clone for BitSet {
    fn clone(&self) -> (r: Self)
        ensures
            r@ =~= self@,
    {
        self.copied()
    }
}

impl PartialEq for BitSet {
    fn eq(&self, other: &Self) -> (r: bool) {
        if self.bits.len() != other.bits.len() {
            return false;
        }
        let n = self.bits.len();
        let mut k: usize = 0;
        while k < n
            invariant
                k <= n,
                n == self@.len(),
                n == other@.len(),
                forall|j: int| 0 <= j < k ==> self@[j] == other@[j],
            decreases n - k,
        {
            if self.bits[k] != other.contains(k) {
                return false;
            }
            k = k + 1;
        }
        proof {
            assert(self@ =~= other@);
        }
        true
    }
}

impl Eq for BitSet {
}

impl vstd::std_specs::cmp::PartialEqSpecImpl for BitSet {
    open spec fn obeys_eq_spec() -> bool {
        true
    }

    open spec fn eq_spec(&self, other: &Self) -> bool {
        self@ == other@
    }
}

} // verus!
