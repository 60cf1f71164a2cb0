//! Per-level contribution store: individual (singleton) contributions,
//! per-peer best incoming combined contributions, and the level's best
//! cumulative contribution, ranked by contributor count and deduplicated by
//! contributor set.
//!
//! Invariants kept by every operation:
//! - every stored contribution's contributor set is contained in its level's
//!   admissible set (the union of the peer sets of levels 1 up to it);
//! - contributions are only ever merged when their contributor sets are
//!   disjoint;
//! - a level's best is replaced only by a strictly higher-scored candidate,
//!   so its contributor count never decreases and a complete level's best is
//!   immutable.

use vstd::prelude::*;

use crate::bitset::{
    count_ones, disjoint_bits, empty_bits, lemma_count_empty, lemma_count_subset_full,
    lemma_count_union_disjoint, singleton_bits, subset_of, union_bits, BitSet,
};
use crate::contribution::{Contribution, ContributionView};
use crate::error::{ConfigurationError, StoreError};
use crate::level::levels_consecutive_from;
use crate::partitioner::{level_range, spec_levels, BinomialPartitioner};

verus! {

/// Pointwise union of two contributions: union of the contributor sets,
/// juxtaposition of the payloads.
pub open spec fn combine_view(a: ContributionView, b: ContributionView) -> ContributionView {
    ContributionView {
        contributors: union_bits(a.contributors, b.contributors),
        signature: a.signature + b.signature,
    }
}

/// Greedy extension of a candidate by the stored individual contributions
/// with indices below `k`, in index order, skipping any that overlaps the
/// running contributor set.
pub open spec fn extend_with_individuals(
    cand: ContributionView,
    inds: Seq<Option<Contribution>>,
    k: int,
) -> ContributionView
    decreases k,
{
    if k <= 0 {
        cand
    } else {
        let prev = extend_with_individuals(cand, inds, k - 1);
        match inds[k - 1] {
            Some(ind) => {
                if prev.contributors.len() == ind@.contributors.len() && disjoint_bits(
                    prev.contributors,
                    ind@.contributors,
                ) {
                    combine_view(prev, ind@)
                } else {
                    prev
                }
            },
            None => prev,
        }
    }
}

/// Greedy extension of a candidate by a lower level's best contribution,
/// skipped when it overlaps.
pub open spec fn extend_with_lower(
    cand: ContributionView,
    lower: Option<Contribution>,
) -> ContributionView {
    match lower {
        Some(lb) => {
            if cand.contributors.len() == lb@.contributors.len() && disjoint_bits(
                cand.contributors,
                lb@.contributors,
            ) {
                combine_view(cand, lb@)
            } else {
                cand
            }
        },
        None => cand,
    }
}

/// Mathematical view of an optional contribution.
pub open spec fn view_opt(c: Option<Contribution>) -> Option<ContributionView> {
    match c {
        Some(c) => Some(c@),
        None => None,
    }
}

/// The candidate that an incoming contribution `c` yields for a level's
/// best: `c` extended greedily by the level's stored singletons and then by
/// the lower level's best.
pub open spec fn candidate_spec(s: Store, level: int, c: ContributionView) -> ContributionView {
    extend_with_lower(
        extend_with_individuals(c, s.spec_individual(level), s.spec_size()),
        if level >= 2 {
            s.spec_best(level - 1)
        } else {
            None
        },
    )
}

/// Greedy merge of the level bests from `j` down to 1, then the node's own
/// contribution, onto an accumulator.
pub open spec fn combined_acc(s: Store, j: int, acc: Option<ContributionView>) -> Option<
    ContributionView,
>
    decreases j + 1,
{
    if j <= 0 {
        match s.spec_own() {
            None => acc,
            Some(o) => match acc {
                None => Some(o@),
                Some(a) => {
                    if a.contributors.len() == o@.contributors.len() && disjoint_bits(
                        a.contributors,
                        o@.contributors,
                    ) {
                        Some(combine_view(a, o@))
                    } else {
                        Some(a)
                    }
                },
            },
        }
    } else {
        let acc2 = match s.spec_best(j) {
            None => acc,
            Some(b) => match acc {
                None => Some(b@),
                Some(a) => {
                    if a.contributors.len() == b@.contributors.len() && disjoint_bits(
                        a.contributors,
                        b@.contributors,
                    ) {
                        Some(combine_view(a, b@))
                    } else {
                        Some(a)
                    }
                },
            },
        };
        combined_acc(s, j - 1, acc2)
    }
}

/// The outbound contribution derived from levels 0 up to `level`.
pub open spec fn combined_spec(s: Store, level: int) -> Option<ContributionView> {
    combined_acc(s, level, None)
}

/// Contributor count of an optional contribution; absent counts as -1 so
/// that any contribution beats it.
pub open spec fn best_count(b: Option<Contribution>) -> int {
    match b {
        Some(c) => count_ones(c@.contributors) as int,
        None => -1,
    }
}

/// Everything one level keeps.
pub struct LevelStore {
    /// This level's peer set, one bit per committee index.
    peers: BitSet,
    /// Union of the peer sets of levels 1 up to this one.
    admissible: BitSet,
    /// Contributor count of a full best: `count_ones(admissible)`.
    expected: usize,
    /// Singleton contribution received from each committee index, if any.
    individual: Vec<Option<Contribution>>,
    /// Best combined contribution received from each committee index.
    best_incoming: Vec<Option<Contribution>>,
    /// Best cumulative contribution of this level.
    best: Option<Contribution>,
}

/// Contribution store of one aggregation: the local node's own singleton
/// plus one `LevelStore` per level.
pub struct Store {
    size: usize,
    node_id: usize,
    own: Option<Contribution>,
    levels: Vec<LevelStore>,
}

impl Store {
    pub closed spec fn spec_size(&self) -> int {
        self.size as int
    }

    pub closed spec fn spec_node_id(&self) -> int {
        self.node_id as int
    }

    pub closed spec fn spec_own(&self) -> Option<Contribution> {
        self.own
    }

    pub closed spec fn spec_num_levels(&self) -> int {
        self.levels@.len() as int
    }

    pub closed spec fn spec_levels_val(&self) -> Seq<LevelStore> {
        self.levels@
    }

    pub closed spec fn spec_peers(&self, l: int) -> Seq<bool> {
        self.levels@[l].peers@
    }

    pub closed spec fn spec_admissible(&self, l: int) -> Seq<bool> {
        self.levels@[l].admissible@
    }

    pub closed spec fn spec_expected(&self, l: int) -> int {
        self.levels@[l].expected as int
    }

    pub closed spec fn spec_individual(&self, l: int) -> Seq<Option<Contribution>> {
        self.levels@[l].individual@
    }

    pub closed spec fn spec_best_incoming(&self, l: int) -> Seq<Option<Contribution>> {
        self.levels@[l].best_incoming@
    }

    pub closed spec fn spec_best(&self, l: int) -> Option<Contribution> {
        self.levels@[l].best
    }

    spec fn level_wf(ls: LevelStore, size: int, node: int) -> bool {
        &&& ls.peers@.len() == size
        &&& ls.admissible@.len() == size
        &&& !ls.admissible@[node]
        &&& subset_of(ls.peers@, ls.admissible@)
        &&& ls.expected == count_ones(ls.admissible@)
        &&& ls.individual@.len() == size
        &&& ls.best_incoming@.len() == size
        &&& forall|p: int|
            0 <= p < size && (#[trigger] ls.individual@[p]) is Some ==> ls.peers@[p] && (
            ls.individual@[p]->Some_0)@.contributors =~= singleton_bits(size as nat, p)
        &&& forall|p: int|
            0 <= p < size && (#[trigger] ls.best_incoming@[p]) is Some ==> subset_of(
                (ls.best_incoming@[p]->Some_0)@.contributors,
                ls.admissible@,
            )
        &&& ls.best is Some ==> subset_of((ls.best->Some_0)@.contributors, ls.admissible@)
    }

    /// Well-formedness of the whole store; established by the constructor
    /// and preserved by every operation.
    pub closed spec fn inv(&self) -> bool {
        &&& self.size >= 1
        &&& self.node_id < self.size
        &&& self.levels@.len() >= 1
        &&& forall|l: int|
            0 <= l < self.levels@.len() ==> Self::level_wf(
                #[trigger] self.levels@[l],
                self.size as int,
                self.node_id as int,
            )
        &&& self.levels@[0].peers@ == empty_bits(self.size as nat)
        &&& self.levels@[0].admissible@ == empty_bits(self.size as nat)
        &&& forall|l: int|
            1 <= l < self.levels@.len() ==> (#[trigger] self.levels@[l].admissible@) == union_bits(
                self.levels@[l - 1].admissible@,
                self.levels@[l].peers@,
            ) && disjoint_bits(self.levels@[l - 1].admissible@, self.levels@[l].peers@)
        &&& self.own is Some ==> (self.own->Some_0)@.contributors =~= singleton_bits(
            self.size as nat,
            self.node_id as int,
        )
    }

    /// Sum of the levels' peer counts from level 1 up to and including `l`.
    pub open spec fn sum_peer_counts(&self, l: int) -> int
        decreases l,
    {
        if l <= 0 {
            0
        } else {
            self.sum_peer_counts(l - 1) + count_ones(self.spec_peers(l)) as int
        }
    }

    /// A level's expected count is the sum of the peer counts below it:
    /// completeness compares the best's contributor count against exactly
    /// the number of peers of levels 1 up to the level.
    pub proof fn lemma_expected_is_sum(&self, l: int)
        requires
            self.inv(),
            0 <= l < self.spec_num_levels(),
        ensures
            self.spec_expected(l) == self.sum_peer_counts(l),
        decreases l,
    {
        if l == 0 {
            lemma_count_empty(self.size as nat);
        } else {
            self.lemma_expected_is_sum(l - 1);
            lemma_count_union_disjoint(self.levels@[l - 1].admissible@, self.levels@[l].peers@);
        }
    }

    /// Every stored contribution lies inside its level's admissible set.
    pub proof fn lemma_stored_admissible(&self, l: int)
        requires
            self.inv(),
            0 <= l < self.spec_num_levels(),
        ensures
            self.spec_best(l) is Some ==> subset_of(
                (self.spec_best(l)->Some_0)@.contributors,
                self.spec_admissible(l),
            ),
            forall|p: int|
                0 <= p < self.spec_size() && (#[trigger] self.spec_best_incoming(l)[p]) is Some
                    ==> subset_of(
                    (self.spec_best_incoming(l)[p]->Some_0)@.contributors,
                    self.spec_admissible(l),
                ),
            forall|p: int|
                0 <= p < self.spec_size() && (#[trigger] self.spec_individual(l)[p]) is Some
                    ==> subset_of(
                    (self.spec_individual(l)[p]->Some_0)@.contributors,
                    self.spec_admissible(l),
                ),
    {
        assert forall|p: int|
            0 <= p < self.spec_size() && (#[trigger] self.spec_individual(l)[p]) is Some
                implies subset_of(
            (self.spec_individual(l)[p]->Some_0)@.contributors,
            self.spec_admissible(l),
        ) by {
            assert(Self::level_wf(self.levels@[l], self.size as int, self.node_id as int));
        }
    }

    /// Builds the store for one aggregation: one level per depth reported by
    /// the partitioner, each holding its peer set and cumulative admissible
    /// set, with nothing stored yet. Fails only when two successive
    /// non-empty ranges are not consecutive.
    pub fn new(partitioner: &BinomialPartitioner) -> (r: Result<Store, ConfigurationError>)
        requires
            partitioner.wf(),
        ensures
            ({
                let node = partitioner.node_id_spec();
                let size = partitioner.size_spec();
                let nl = spec_levels(size as nat) as int;
                &&& (r is Ok <==> levels_consecutive_from(node, size, 1, nl, node, node + 1))
                &&& (r is Err ==> r->Err_0 == ConfigurationError::NonConsecutiveRanges)
                &&& r is Ok ==> {
                    let s = r->Ok_0;
                    &&& s.inv()
                    &&& s.spec_size() == size
                    &&& s.spec_node_id() == node
                    &&& s.spec_own() is None
                    &&& s.spec_num_levels() == nl
                    &&& forall|l: int, p: int|
                        1 <= l < nl && 0 <= p < size ==> (#[trigger] s.spec_peers(l)[p]
                            <==> match level_range(node, size, l) {
                            Some((lo, hi)) => lo <= p <= hi,
                            None => false,
                        })
                    &&& forall|l: int|
                        0 <= l < nl ==> (#[trigger] s.spec_best(l)) is None
                    &&& forall|l: int, p: int|
                        0 <= l < nl && 0 <= p < size ==> (#[trigger] s.spec_individual(l)[p])
                            is None && (#[trigger] s.spec_best_incoming(l)[p]) is None
                }
            }),
    {
        let ghost node = partitioner.node_id_spec();
        let ghost size_g = partitioner.size_spec();
        let num_levels = partitioner.levels();
        let ghost nl = num_levels as int;
        let node_id = partitioner.node_id();
        let size = partitioner.size();

        let mut levels: Vec<LevelStore> = Vec::new();
        let mut admissible = BitSet::new(size);
        let mut ls: usize = node_id;
        let mut le: usize = node_id + 1;

        // Level 0: nothing is ever stored here; the node's own contribution
        // lives beside the levels.
        levels.push(
            LevelStore {
                peers: BitSet::new(size),
                admissible: admissible.copied(),
                expected: 0,
                individual: none_row(size),
                best_incoming: none_row(size),
                best: None,
            },
        );
        proof {
            lemma_count_empty(size as nat);
        }

        let mut i: usize = 1;
        while i < num_levels
            invariant
                partitioner.wf(),
                node == partitioner.node_id_spec(),
                size_g == partitioner.size_spec(),
                node_id as int == node,
                size as int == size_g,
                nl == spec_levels(size_g as nat) as int,
                num_levels as int == nl,
                1 <= i <= num_levels,
                ls <= node_id < le <= size,
                levels@.len() == i,
                admissible@.len() == size,
                forall|p: int| 0 <= p < size && #[trigger] admissible@[p] ==> ls <= p < le,
                !admissible@[node_id as int],
                levels@[0].peers@ == empty_bits(size as nat),
                levels@[0].admissible@ == empty_bits(size as nat),
                levels@[i - 1].admissible@ == admissible@,
                forall|l: int|
                    0 <= l < i ==> Self::level_wf(
                        #[trigger] levels@[l],
                        size as int,
                        node_id as int,
                    ),
                forall|l: int|
                    1 <= l < i ==> (#[trigger] levels@[l].admissible@) == union_bits(
                        levels@[l - 1].admissible@,
                        levels@[l].peers@,
                    ) && disjoint_bits(levels@[l - 1].admissible@, levels@[l].peers@),
                forall|l: int, p: int|
                    1 <= l < i && 0 <= p < size ==> (#[trigger] levels@[l].peers@[p]
                        <==> match level_range(node, size_g, l) {
                        Some((lo, hi)) => lo <= p <= hi,
                        None => false,
                    }),
                forall|l: int|
                    0 <= l < i ==> (#[trigger] levels@[l].best) is None,
                forall|l: int, p: int|
                    0 <= l < i && 0 <= p < size ==> (#[trigger] levels@[l].individual@[p]) is None
                        && (#[trigger] levels@[l].best_incoming@[p]) is None,
                levels_consecutive_from(node, size_g, 1, nl, node, node + 1)
                    == levels_consecutive_from(node, size_g, i as int, nl, ls as int, le as int),
            decreases num_levels - i,
        {
            match partitioner.range(i) {
                Ok((s, e)) => {
                    let mut peers = BitSet::new(size);
                    let mut p = s;
                    while p <= e
                        invariant
                            s <= p <= e + 1,
                            e < size,
                            peers@.len() == size,
                            forall|q: int|
                                0 <= q < size ==> (#[trigger] peers@[q] <==> s <= q < p),
                        decreases e + 1 - p,
                    {
                        peers.insert(p);
                        p = p + 1;
                    }
                    // Consecutiveness keeps every new range outside the
                    // own-side interval, hence disjoint from what is
                    // admissible so far.
                    if e + 1 == ls {
                        ls = s;
                    } else if s == le {
                        le = e + 1;
                    } else {
                        return Err(ConfigurationError::NonConsecutiveRanges);
                    }
                    admissible.union_with(&peers);
                    let expected = admissible.count_ones();
                    levels.push(
                        LevelStore {
                            peers,
                            admissible: admissible.copied(),
                            expected,
                            individual: none_row(size),
                            best_incoming: none_row(size),
                            best: None,
                        },
                    );
                },
                Err(_) => {
                    levels.push(
                        LevelStore {
                            peers: BitSet::new(size),
                            admissible: admissible.copied(),
                            expected: admissible.count_ones(),
                            individual: none_row(size),
                            best_incoming: none_row(size),
                            best: None,
                        },
                    );
                },
            }
            i = i + 1;
        }
        Ok(Store { size, node_id, own: None, levels })
    }

    /// Records the local node's own singleton contribution. Succeeds exactly
    /// when the contribution's contributor set is the singleton of the local
    /// node; the first recorded contribution is kept.
    pub fn set_own(&mut self, c: Contribution) -> (r: Result<(), StoreError>)
        requires
            old(self).inv(),
        ensures
            final(self).inv(),
            r is Ok <==> c@.contributors =~= singleton_bits(
                old(self).spec_size() as nat,
                old(self).spec_node_id(),
            ),
            r is Err ==> *final(self) == *old(self) && r->Err_0
                == StoreError::MalformedIndividual,
            r is Ok ==> final(self).spec_own() == if old(self).spec_own() is Some {
                old(self).spec_own()
            } else {
                Some(c)
            },
            final(self).spec_size() == old(self).spec_size(),
            final(self).spec_node_id() == old(self).spec_node_id(),
            final(self).spec_levels_val() == old(self).spec_levels_val(),
    {
        let s = BitSet::singleton(self.size, self.node_id);
        if !(*c.contributors_ref() == s) {
            return Err(StoreError::MalformedIndividual);
        }
        if self.own.is_none() {
            self.own = Some(c);
        }
        Ok(())
    }

    /// The local node's own contribution, if already submitted.
    pub fn own(&self) -> (r: &Option<Contribution>)
        ensures
            *r == self.spec_own(),
    {
        &self.own
    }

    /// Number of levels.
    pub fn num_levels(&self) -> (r: usize)
        ensures
            r == self.spec_num_levels(),
    {
        self.levels.len()
    }

    /// The committee size.
    pub fn size(&self) -> (r: usize)
        ensures
            r == self.spec_size(),
    {
        self.size
    }

    /// The level's best cumulative contribution, if any.
    pub fn best(&self, level: usize) -> (r: Option<Contribution>)
        requires
            level < self.spec_num_levels(),
        ensures
            match r {
                Some(b) => self.spec_best(level as int) is Some && b@ == (self.spec_best(
                    level as int,
                )->Some_0)@,
                None => self.spec_best(level as int) is None,
            },
    {
        match &self.levels[level].best {
            Some(b) => {
                let r = b.copied();
                proof {
                    assert(r@.contributors == b@.contributors);
                    assert(r@.signature == b@.signature);
                }
                Some(r)
            },
            None => None,
        }
    }

    /// Whether the level has an empty admissible set.
    pub fn is_empty_level(&self, level: usize) -> (r: bool)
        requires
            level < self.spec_num_levels(),
        ensures
            r == (self.spec_expected(level as int) == 0),
    {
        self.levels[level].expected == 0
    }

    /// Whether committee member `p` is one of the level's peers.
    pub fn is_peer(&self, level: usize, p: usize) -> (r: bool)
        requires
            self.inv(),
            level < self.spec_num_levels(),
        ensures
            r == (p < self.spec_size() && self.spec_peers(level as int)[p as int]),
    {
        p < self.size && self.levels[level].peers.contains(p)
    }

    /// Whether the contribution's contributor set lies inside the level's
    /// admissible set.
    pub fn is_admissible(&self, level: usize, c: &Contribution) -> (r: bool)
        requires
            level < self.spec_num_levels(),
        ensures
            r == subset_of(c@.contributors, self.spec_admissible(level as int)),
    {
        c.contributors_ref().is_subset(&self.levels[level].admissible)
    }

    /// Whether the level is complete: level 0 once the own contribution is
    /// in; a higher level once its best covers its whole admissible set. A
    /// level with an empty admissible set has nothing to collect and is
    /// complete from the start.
    pub fn is_complete(&self, level: usize) -> (r: bool)
        requires
            self.inv(),
            level < self.spec_num_levels(),
        ensures
            level == 0 ==> r == self.spec_own() is Some,
            level >= 1 ==> r == (match self.spec_best(level as int) {
                Some(b) => count_ones(b@.contributors) == self.spec_expected(level as int),
                None => self.spec_expected(level as int) == 0,
            }),
    {
        if level == 0 {
            return self.own.is_some();
        }
        match &self.levels[level].best {
            Some(b) => b.num_contributors() == self.levels[level].expected,
            None => self.levels[level].expected == 0,
        }
    }

    /// Stores a singleton contribution of committee member `peer` for a
    /// level. Succeeds exactly when the level can receive, the contributor
    /// set is the singleton of `peer`, and `peer` lives on the level; the
    /// first stored singleton of a peer is kept.
    pub fn put_individual(&mut self, level: usize, peer: usize, c: Contribution) -> (r: Result<
        (),
        StoreError,
    >)
        requires
            old(self).inv(),
        ensures
            final(self).inv(),
            r is Ok <==> (1 <= level < old(self).spec_num_levels() && peer < old(self).spec_size()
                && c@.contributors =~= singleton_bits(old(self).spec_size() as nat, peer as int)
                && old(self).spec_peers(level as int)[peer as int]),
            r is Err ==> *final(self) == *old(self),
            r == Err::<(), StoreError>(StoreError::InvalidLevel) <==> !(1 <= level < old(self).spec_num_levels()),
            r is Ok ==> final(self).spec_individual(level as int) == (if old(self).spec_individual(level as int)[peer as int] is Some {
                old(self).spec_individual(level as int)
            } else {
                old(self).spec_individual(level as int).update(peer as int, Some(c))
            }),
            r is Ok ==> final(self).spec_individual(level as int)[peer as int] is Some,
            r is Ok && old(self).spec_individual(level as int)[peer as int] is Some ==> *final(self)
                == *old(self),
            final(self).spec_size() == old(self).spec_size(),
            final(self).spec_node_id() == old(self).spec_node_id(),
            final(self).spec_own() == old(self).spec_own(),
            final(self).spec_num_levels() == old(self).spec_num_levels(),
            forall|l: int|
                0 <= l < old(self).spec_num_levels() && l != level ==> final(self).spec_levels_val()[l] == old(self).spec_levels_val()[l],
            final(self).spec_peers(level as int) == old(self).spec_peers(level as int),
            final(self).spec_admissible(level as int) == old(self).spec_admissible(level as int),
            final(self).spec_expected(level as int) == old(self).spec_expected(level as int),
            final(self).spec_best(level as int) == old(self).spec_best(level as int),
            final(self).spec_best_incoming(level as int) == old(self).spec_best_incoming(
                level as int,
            ),
    {
        if level == 0 || level >= self.levels.len() {
            return Err(StoreError::InvalidLevel);
        }
        if peer >= self.size {
            return Err(StoreError::MalformedIndividual);
        }
        let s = BitSet::singleton(self.size, peer);
        if !(*c.contributors_ref() == s) {
            return Err(StoreError::MalformedIndividual);
        }
        if !self.levels[level].peers.contains(peer) {
            return Err(StoreError::MalformedIndividual);
        }
        let ghost old_levels = self.levels@;
        if self.levels[level].individual[peer].is_none() {
            let lvl = &mut self.levels[level];
            lvl.individual[peer] = Some(c);
        }
        proof {
            assert forall|l: int|
                0 <= l < self.levels@.len() implies Self::level_wf(
                #[trigger] self.levels@[l],
                self.size as int,
                self.node_id as int,
            ) by {
                assert(Self::level_wf(old_levels[l], self.size as int, self.node_id as int));
                if l == level {
                    assert(forall|p: int|
                        0 <= p < self.size as int && p != peer
                            ==> self.levels@[l].individual@[p] == old_levels[l].individual@[p]);
                }
            }
        }
        Ok(())
    }

    /// Records an incoming combined contribution from `from` at a level:
    /// keeps it as the peer's best incoming when it strictly improves it,
    /// then derives a candidate for the level's best by greedily merging the
    /// stored disjoint singletons and the lower level's best, and replaces
    /// the level's best when the candidate strictly improves its score. The
    /// best's contributor count never decreases.
    pub fn put_combined(&mut self, level: usize, from: usize, c: Contribution) -> (r: Result<
        (),
        StoreError,
    >)
        requires
            old(self).inv(),
        ensures
            final(self).inv(),
            r is Ok <==> (1 <= level < old(self).spec_num_levels() && from < old(self).spec_size()
                && old(self).spec_peers(level as int)[from as int] && subset_of(
                c@.contributors,
                old(self).spec_admissible(level as int),
            )),
            r is Err ==> *final(self) == *old(self),
            r == Err::<(), StoreError>(StoreError::InvalidLevel) <==> !(1 <= level < old(self).spec_num_levels()),
            r == Err::<(), StoreError>(StoreError::UnknownPeer) <==> (1 <= level < old(self).spec_num_levels() && !(from < old(self).spec_size() && old(self).spec_peers(
                level as int,
            )[from as int])),
            r is Ok ==> ({
                let cand = candidate_spec(*old(self), level as int, c@);
                let impr_in = match old(self).spec_best_incoming(level as int)[from as int] {
                    None => true,
                    Some(b) => count_ones(c@.contributors) > count_ones(b@.contributors),
                };
                let impr_best = best_count(old(self).spec_best(level as int)) < count_ones(
                    cand.contributors,
                );
                &&& final(self).spec_best_incoming(level as int) == (if impr_in {
                    old(self).spec_best_incoming(level as int).update(from as int, Some(c))
                } else {
                    old(self).spec_best_incoming(level as int)
                })
                &&& (impr_best ==> final(self).spec_best(level as int) is Some && (final(self).spec_best(level as int)->Some_0)@ == cand)
                &&& (!impr_best ==> final(self).spec_best(level as int) == old(self).spec_best(
                    level as int,
                ))
                &&& best_count(final(self).spec_best(level as int)) >= best_count(
                    old(self).spec_best(level as int),
                )
                &&& (!impr_in && !impr_best ==> *final(self) == *old(self))
                &&& subset_of(cand.contributors, old(self).spec_admissible(level as int))
            }),
            final(self).spec_size() == old(self).spec_size(),
            final(self).spec_node_id() == old(self).spec_node_id(),
            final(self).spec_own() == old(self).spec_own(),
            final(self).spec_num_levels() == old(self).spec_num_levels(),
            forall|l: int|
                0 <= l < old(self).spec_num_levels() && l != level ==> final(self).spec_levels_val()[l] == old(self).spec_levels_val()[l],
            final(self).spec_peers(level as int) == old(self).spec_peers(level as int),
            final(self).spec_admissible(level as int) == old(self).spec_admissible(level as int),
            final(self).spec_expected(level as int) == old(self).spec_expected(level as int),
            final(self).spec_individual(level as int) == old(self).spec_individual(level as int),
    {
        if level == 0 || level >= self.levels.len() {
            return Err(StoreError::InvalidLevel);
        }
        if from >= self.size || !self.levels[level].peers.contains(from) {
            return Err(StoreError::UnknownPeer);
        }
        if !c.contributors_ref().is_subset(&self.levels[level].admissible) {
            return Err(StoreError::NotAdmissible);
        }
        let size = self.size;
        let ghost c_view = c@;
        let ghost adm = self.levels@[level as int].admissible@;

        // Does the incoming strictly improve the sender's best incoming?
        let c_count = c.num_contributors();
        let impr_in = match &self.levels[level].best_incoming[from] {
            None => true,
            Some(b) => c_count > b.num_contributors(),
        };

        // Derive the candidate: the incoming extended greedily by every
        // disjoint stored singleton of the level, in index order.
        let mut cand = c.copied();
        let mut p: usize = 0;
        while p < size
            invariant
                p <= size,
                size == self.spec_size(),
                1 <= level < self.spec_num_levels(),
                self.inv(),
                adm == self.spec_admissible(level as int),
                cand@ == extend_with_individuals(
                    c_view,
                    self.spec_individual(level as int),
                    p as int,
                ),
                subset_of(cand@.contributors, adm),
            decreases size - p,
        {
            let ghost prev = cand@;
            match &self.levels[level].individual[p] {
                Some(ind) => {
                    if cand.contributors_ref().is_disjoint(ind.contributors_ref()) {
                        let res = cand.combine(ind);
                        proof {
                            if res is Ok {
                                assert(cand@.contributors == union_bits(
                                    prev.contributors,
                                    ind@.contributors,
                                ));
                                assert(cand@.signature == prev.signature + ind@.signature);
                                assert(cand@ == combine_view(prev, ind@));
                                assert(Self::level_wf(
                                    self.levels@[level as int],
                                    self.size as int,
                                    self.node_id as int,
                                ));
                                crate::bitset::lemma_singleton_subset(
                                    size as nat,
                                    p as int,
                                    adm,
                                );
                                crate::bitset::lemma_union_subset(
                                    prev.contributors,
                                    ind@.contributors,
                                    adm,
                                );
                            }
                        }
                    }
                },
                None => {},
            }
            p = p + 1;
        }
        // Extend by the lower level's best, which covers lower levels only
        // and is therefore admissible here as well.
        if level >= 2 {
            let ghost prev = cand@;
            match &self.levels[level - 1].best {
                Some(lb) => {
                    proof {
                        assert(Self::level_wf(
                            self.levels@[level - 1],
                            self.size as int,
                            self.node_id as int,
                        ));
                        crate::bitset::lemma_subset_of_union(
                            self.levels@[level - 1].admissible@,
                            self.levels@[level as int].peers@,
                        );
                        crate::bitset::lemma_subset_transitive(
                            lb@.contributors,
                            self.levels@[level - 1].admissible@,
                            adm,
                        );
                    }
                    if cand.contributors_ref().is_disjoint(lb.contributors_ref()) {
                        let res = cand.combine(lb);
                        proof {
                            if res is Ok {
                                assert(cand@.contributors == union_bits(
                                    prev.contributors,
                                    lb@.contributors,
                                ));
                                assert(cand@.signature == prev.signature + lb@.signature);
                                assert(cand@ == combine_view(prev, lb@));
                                crate::bitset::lemma_union_subset(
                                    prev.contributors,
                                    lb@.contributors,
                                    adm,
                                );
                            }
                        }
                    }
                },
                None => {},
            }
        }
        proof {
            assert(cand@ == candidate_spec(*self, level as int, c_view));
        }

        // Does the candidate strictly improve the level's best?
        let cand_count = cand.num_contributors();
        let impr_best = match &self.levels[level].best {
            None => true,
            Some(b) => cand_count > b.num_contributors(),
        };

        let ghost old_levels = self.levels@;
        if impr_in || impr_best {
            let lvl = &mut self.levels[level];
            if impr_in {
                lvl.best_incoming[from] = Some(c);
            }
            if impr_best {
                lvl.best = Some(cand);
            }
        }
        proof {
            assert forall|l: int|
                0 <= l < self.levels@.len() implies Self::level_wf(
                #[trigger] self.levels@[l],
                self.size as int,
                self.node_id as int,
            ) by {
                assert(Self::level_wf(old_levels[l], self.size as int, self.node_id as int));
                if l == level {
                    assert(forall|q: int|
                        0 <= q < self.size as int && q != from
                            ==> self.levels@[l].best_incoming@[q]
                            == old_levels[l].best_incoming@[q]);
                }
            }
        }
        Ok(())
    }

    /// The best-known contribution covering the node's whole own-side
    /// subtree up through `level`: the greedy merge of the level bests from
    /// `level` down to 1 and then the node's own contribution, skipping any
    /// that overlaps the running set.
    pub fn combined(&self, level: usize) -> (r: Option<Contribution>)
        requires
            self.inv(),
            level < self.spec_num_levels(),
        ensures
            match r {
                Some(c) => combined_spec(*self, level as int) == Some(c@),
                None => combined_spec(*self, level as int) is None,
            },
    {
        let mut acc: Option<Contribution> = None;
        let mut j = level;
        while j >= 1
            invariant
                j <= level < self.spec_num_levels(),
                self.inv(),
                combined_acc(*self, j as int, view_opt(acc)) == combined_spec(
                    *self,
                    level as int,
                ),
            decreases j,
        {
            let ghost acc_pre = view_opt(acc);
            match &self.levels[j].best {
                Some(b) => {
                    acc = match acc {
                        None => Some(b.copied()),
                        Some(mut a) => {
                            let ghost prev = a@;
                            if a.contributors_ref().is_disjoint(b.contributors_ref()) {
                                let res = a.combine(b);
                                proof {
                                    if res is Ok {
                                        assert(a@.contributors == union_bits(
                                            prev.contributors,
                                            b@.contributors,
                                        ));
                                        assert(a@.signature == prev.signature + b@.signature);
                                        assert(a@ == combine_view(prev, b@));
                                    }
                                }
                            }
                            Some(a)
                        },
                    };
                },
                None => {},
            }
            j = j - 1;
        }
        match &self.own {
            Some(o) => {
                match acc {
                    None => Some(o.copied()),
                    Some(mut a) => {
                        let ghost prev = a@;
                        if a.contributors_ref().is_disjoint(o.contributors_ref()) {
                            let res = a.combine(o);
                            proof {
                                if res is Ok {
                                    assert(a@.contributors == union_bits(
                                        prev.contributors,
                                        o@.contributors,
                                    ));
                                    assert(a@.signature == prev.signature + o@.signature);
                                    assert(a@ == combine_view(prev, o@));
                                }
                            }
                        }
                        Some(a)
                    },
                }
            },
            None => acc,
        }
    }

    /// Two stores agreeing on one level's data agree on that level's views.
    pub proof fn lemma_same_level_row(a: &Store, b: &Store, l: int)
        requires
            0 <= l < a.spec_num_levels(),
            0 <= l < b.spec_num_levels(),
            a.spec_levels_val()[l] == b.spec_levels_val()[l],
        ensures
            a.spec_best(l) == b.spec_best(l),
            a.spec_peers(l) == b.spec_peers(l),
            a.spec_admissible(l) == b.spec_admissible(l),
            a.spec_expected(l) == b.spec_expected(l),
            a.spec_individual(l) == b.spec_individual(l),
            a.spec_best_incoming(l) == b.spec_best_incoming(l),
    {
    }

    /// Facts of one level that every operation keeps.
    pub proof fn lemma_level_facts(&self, l: int)
        requires
            self.inv(),
            0 <= l < self.spec_num_levels(),
        ensures
            self.spec_admissible(l).len() == self.spec_size(),
            self.spec_peers(l).len() == self.spec_size(),
            !self.spec_admissible(l)[self.spec_node_id()],
            subset_of(self.spec_peers(l), self.spec_admissible(l)),
            self.spec_expected(l) == count_ones(self.spec_admissible(l)),
            self.spec_individual(l).len() == self.spec_size(),
            self.spec_best_incoming(l).len() == self.spec_size(),
    {
        assert(Self::level_wf(self.levels@[l], self.size as int, self.node_id as int));
    }

    /// Two stores with the same level data agree on every per-level view.
    pub proof fn lemma_same_levels(a: &Store, b: &Store)
        requires
            a.spec_levels_val() == b.spec_levels_val(),
        ensures
            a.spec_num_levels() == b.spec_num_levels(),
            forall|l: int|
                0 <= l < a.spec_num_levels() ==> #[trigger] a.spec_best(l) == b.spec_best(l)
                    && a.spec_peers(l) == b.spec_peers(l) && a.spec_admissible(l)
                    == b.spec_admissible(l) && a.spec_expected(l) == b.spec_expected(l)
                    && a.spec_individual(l) == b.spec_individual(l) && a.spec_best_incoming(l)
                    == b.spec_best_incoming(l),
    {
    }

    /// A complete level's best covers exactly the admissible set.
    pub proof fn lemma_complete_best_full(&self, l: int)
        requires
            self.inv(),
            1 <= l < self.spec_num_levels(),
            self.spec_best(l) is Some,
            count_ones((self.spec_best(l)->Some_0)@.contributors) == self.spec_expected(l),
        ensures
            (self.spec_best(l)->Some_0)@.contributors =~= self.spec_admissible(l),
    {
        lemma_count_subset_full(
            (self.spec_best(l)->Some_0)@.contributors,
            self.spec_admissible(l),
        );
    }
}

/// A row of `n` empty slots.
fn none_row(n: usize) -> (r: Vec<Option<Contribution>>)
    ensures
        r@.len() == n,
        forall|p: int| 0 <= p < n ==> (#[trigger] r@[p]) is None,
{
    let mut row: Vec<Option<Contribution>> = Vec::new();
    let mut k: usize = 0;
    while k < n
        invariant
            k <= n,
            row@.len() == k,
            forall|p: int| 0 <= p < k ==> (#[trigger] row@[p]) is None,
        decreases n - k,
    {
        row.push(None);
        k = k + 1;
    }
    row
}

} // verus!
