//! The aggregation protocol: orchestrates the levels and the store, driven
//! by a periodic tick and by inbound updates, until the top level's best
//! covers the whole committee.
//!
//! All time is measured in ticks of the caller's periodic driver. Level `i`
//! is started once every lower level is complete, or once its start timeout
//! of `(i + 1) * level_start_delay_ticks` ticks has elapsed, whichever comes
//! first. On every tick each started, non-complete level picks its next
//! peers round-robin and emits the best known contribution covering the
//! node's own side of the tree below that level.

use vstd::prelude::*;

use crate::bitset::count_ones;
use crate::contribution::{Contribution, ContributionView};
use crate::error::{ConfigurationError, StoreError};
use crate::level::{wrap_index, Level};
use crate::partitioner::BinomialPartitioner;
use crate::store::{best_count, candidate_spec, combined_spec, Store};

verus! {

/// Pure protocol parameters.
#[derive(Clone, Copy, Debug)]
pub struct Config {
    /// How many peers each started level contacts per tick.
    pub peers_per_tick: usize,
    /// Level `i` starts no later than `(i + 1) * level_start_delay_ticks`.
    pub level_start_delay_ticks: u64,
    /// After this many ticks the protocol stops sending and `result`
    /// returns the best known aggregate.
    pub overall_timeout_ticks: u64,
}

/// One outbound update: send `contribution` to committee member `to` for
/// level `level`.
pub struct Update {
    pub to: usize,
    pub level: usize,
    pub contribution: Contribution,
}

/// Start deadline of level `i`, in ticks since protocol start.
pub open spec fn level_deadline(cfg: Config, i: int) -> int {
    (i + 1) * cfg.level_start_delay_ticks
}

/// Whether the store reports level `l` complete: level 0 once the own
/// contribution is in, a higher level once its best covers its admissible
/// set; a level with an empty admissible set is complete from the start.
pub open spec fn store_complete(s: Store, l: int) -> bool {
    if l == 0 {
        s.spec_own() is Some
    } else {
        match s.spec_best(l) {
            Some(b) => count_ones(b@.contributors) == s.spec_expected(l),
            None => s.spec_expected(l) == 0,
        }
    }
}

/// One aggregation instance.
pub struct Aggregation {
    node_id: usize,
    size: usize,
    levels: Vec<Level>,
    store: Store,
    config: Config,
    ticks: u64,
    aborted: bool,
}

impl Aggregation {
    pub closed spec fn spec_node_id(&self) -> int {
        self.node_id as int
    }

    pub closed spec fn spec_size(&self) -> int {
        self.size as int
    }

    pub closed spec fn spec_levels(&self) -> Seq<Level> {
        self.levels@
    }

    pub closed spec fn spec_store(&self) -> Store {
        self.store
    }

    pub closed spec fn spec_config(&self) -> Config {
        self.config
    }

    pub closed spec fn spec_ticks(&self) -> int {
        self.ticks as int
    }

    pub closed spec fn spec_aborted(&self) -> bool {
        self.aborted
    }

    pub open spec fn spec_num_levels(&self) -> int {
        self.spec_levels().len() as int
    }

    /// Whether every level below `i` is complete.
    pub open spec fn all_below_complete(&self, i: int) -> bool {
        forall|j: int| 0 <= j < i ==> (#[trigger] self.spec_levels()[j]).state.complete
    }

    /// Well-formedness: the store is coherent with the level vector, and
    /// each level's complete flag mirrors the store.
    pub closed spec fn inv(&self) -> bool {
        &&& self.store.inv()
        &&& self.store.spec_size() == self.size as int
        &&& self.store.spec_node_id() == self.node_id as int
        &&& self.node_id < self.size
        &&& self.levels@.len() == self.store.spec_num_levels()
        &&& self.levels@.len() >= 1
        &&& forall|l: int| 0 <= l < self.levels@.len() ==> (#[trigger] self.levels@[l]).id == l
        &&& forall|l: int|
            0 <= l < self.levels@.len() ==> (#[trigger] self.levels@[l]).state.next_peer_index
                < self.levels@[l].peer_ids@.len() || self.levels@[l].state.next_peer_index == 0
        &&& forall|l: int|
            0 <= l < self.levels@.len() ==> ((#[trigger] self.levels@[l]).state.complete
                <==> store_complete(self.store, l))
        &&& self.levels@[0].state.started
    }

    /// The invariant, made public so callers can carry it.
    pub proof fn lemma_inv_facts(&self)
        requires
            self.inv(),
        ensures
            self.spec_num_levels() >= 1,
            self.spec_num_levels() == self.spec_store().spec_num_levels(),
            self.spec_store().inv(),
            forall|l: int|
                0 <= l < self.spec_num_levels() ==> ((#[trigger] self.spec_levels()[l]).state.complete
                    <==> store_complete(self.spec_store(), l)),
    {
    }

    /// A complete level's best carries exactly as many contributors as all
    /// the peer sets of levels 1 up to it together hold.
    pub proof fn lemma_complete_level_is_saturated(&self, l: int)
        requires
            self.inv(),
            1 <= l < self.spec_num_levels(),
            self.spec_levels()[l].state.complete,
            self.spec_store().spec_best(l) is Some,
        ensures
            count_ones((self.spec_store().spec_best(l)->Some_0)@.contributors)
                == self.spec_store().sum_peer_counts(l),
            (self.spec_store().spec_best(l)->Some_0)@.contributors
                =~= self.spec_store().spec_admissible(l),
    {
        self.store.lemma_expected_is_sum(l);
        self.store.lemma_complete_best_full(l);
    }

    /// Builds one aggregation instance for a committee of `size` with the
    /// local node at `node_id`. Fails exactly when the node lies outside the
    /// committee: the binomial partitioner's ranges are always consecutive,
    /// so no other configuration error can arise.
    pub fn new(node_id: usize, size: usize, config: Config) -> (r: Result<
        Aggregation,
        ConfigurationError,
    >)
        ensures
            r is Ok <==> node_id < size,
            r is Err ==> r->Err_0 == ConfigurationError::NodeIdOutOfBounds,
            r is Ok ==> ({
                let a = r->Ok_0;
                &&& a.inv()
                &&& a.spec_node_id() == node_id
                &&& a.spec_size() == size
                &&& a.spec_config() == config
                &&& a.spec_ticks() == 0
                &&& !a.spec_aborted()
                &&& a.spec_store().spec_own() is None
                &&& forall|l: int|
                    0 <= l < a.spec_num_levels() ==> (#[trigger] a.spec_store().spec_best(l))
                        is None
                &&& forall|l: int|
                    0 <= l < a.spec_num_levels() ==> ((#[trigger] a.spec_levels()[l]).state.started
                        <==> l == 0)
                &&& forall|l: int|
                    0 <= l < a.spec_num_levels() ==> ((#[trigger] a.spec_levels()[l]).state.complete
                        <==> l >= 1 && a.spec_store().spec_expected(l) == 0)
            }),
    {
        let partitioner = match BinomialPartitioner::new(node_id, size) {
            Ok(p) => p,
            Err(e) => {
                return Err(e);
            },
        };
        proof {
            crate::level::lemma_partition_always_consecutive(
                node_id as int,
                size as int,
                crate::partitioner::spec_levels(size as nat) as int,
            );
        }
        let levels = match Level::create_levels(&partitioner) {
            Ok(ls) => ls,
            Err(e) => {
                return Err(e);
            },
        };
        let store = match Store::new(&partitioner) {
            Ok(s) => s,
            Err(e) => {
                return Err(e);
            },
        };
        let mut a = Aggregation { node_id, size, levels, store, config, ticks: 0, aborted: false };
        // A level with no peers below it to collect is complete from the
        // start, so it never blocks the start rule.
        let num_levels = a.levels.len();
        let mut i: usize = 1;
        while i < num_levels
            invariant
                1 <= i <= num_levels,
                num_levels == a.levels@.len(),
                a.levels@.len() == a.store.spec_num_levels(),
                a.store.inv(),
                forall|l: int|
                    0 <= l < i ==> ((#[trigger] a.levels@[l]).state.complete <==> l >= 1
                        && a.store.spec_expected(l) == 0),
                forall|l: int|
                    0 <= l < num_levels ==> (#[trigger] a.levels@[l]).id == l
                        && (a.levels@[l].state.next_peer_index < a.levels@[l].peer_ids@.len()
                        || a.levels@[l].state.next_peer_index == 0) && (a.levels@[l].state.started
                        <==> l == 0),
                i <= num_levels ==> forall|l: int|
                    i <= l < num_levels ==> !(#[trigger] a.levels@[l]).state.complete,
                a.store == store,
                a.node_id == node_id,
                a.size == size,
                a.config == config,
                a.ticks == 0,
                !a.aborted,
            decreases num_levels - i,
        {
            if a.store.is_empty_level(i) {
                let lvl = &mut a.levels[i];
                lvl.state.complete = true;
            }
            i = i + 1;
        }
        proof {
            assert forall|l: int| 0 <= l < a.levels@.len() implies ((#[trigger] a.levels@[l]).state.complete
                <==> store_complete(a.store, l)) by {
                if l >= 1 {
                    assert(a.store.spec_best(l) is None);
                }
            }
        }
        Ok(a)
    }

    /// Submits the local node's own singleton contribution. Succeeds exactly
    /// when the contribution's contributor set is the singleton of the local
    /// node; the first submission is kept and completes level 0.
    pub fn submit_own(&mut self, c: Contribution) -> (r: Result<(), StoreError>)
        requires
            old(self).inv(),
        ensures
            final(self).inv(),
            r is Ok <==> c@.contributors =~= crate::bitset::singleton_bits(
                old(self).spec_size() as nat,
                old(self).spec_node_id(),
            ),
            r is Err ==> *final(self) == *old(self),
            r is Ok ==> final(self).spec_store().spec_own() == (if old(self).spec_store().spec_own() is Some {
                old(self).spec_store().spec_own()
            } else {
                Some(c)
            }),
            r is Ok ==> final(self).spec_levels()[0].state.complete,
            final(self).spec_ticks() == old(self).spec_ticks(),
            final(self).spec_aborted() == old(self).spec_aborted(),
            final(self).spec_size() == old(self).spec_size(),
            final(self).spec_node_id() == old(self).spec_node_id(),
            final(self).spec_config() == old(self).spec_config(),
            forall|l: int|
                0 <= l < old(self).spec_num_levels() ==> (#[trigger] final(self).spec_store().spec_best(
                    l,
                )) == old(self).spec_store().spec_best(l),
    {
        let r = self.store.set_own(c);
        match r {
            Ok(()) => {
                if !self.levels[0].state.complete {
                    let lvl = &mut self.levels[0];
                    lvl.state.complete = true;
                }
                proof {
                    Store::lemma_same_levels(&old(self).store, &self.store);
                }
                Ok(())
            },
            Err(e) => Err(e),
        }
    }

    /// Whether an inbound update is taken at all: the protocol is not
    /// terminal, the level can receive, the sender is one of its peers, and
    /// the contributor set lies inside the level's admissible set.
    pub open spec fn spec_accepts(&self, from: int, level: int, c: Contribution) -> bool {
        &&& !self.spec_aborted()
        &&& !self.spec_levels()[self.spec_num_levels() - 1].state.complete
        &&& 1 <= level < self.spec_num_levels()
        &&& 0 <= from < self.spec_size()
        &&& self.spec_store().spec_peers(level)[from]
        &&& crate::bitset::subset_of(
            c@.contributors,
            self.spec_store().spec_admissible(level),
        )
    }

    /// Everything the update `(from, level, c)` could add is already in the
    /// store: its singleton part is stored, the sender's best incoming is at
    /// least as large, and the candidate it yields does not beat the level's
    /// best. Taking such an update changes nothing, so delivering the same
    /// update twice is the same as delivering it once.
    pub open spec fn spec_absorbed(&self, from: int, level: int, c: Contribution) -> bool {
        let st = self.spec_store();
        &&& (forall|b: int|
            0 <= b < st.spec_size() && c@.contributors =~= crate::bitset::singleton_bits(
                st.spec_size() as nat,
                b,
            ) && st.spec_peers(level)[b] ==> (#[trigger] st.spec_individual(level)[b]) is Some)
        &&& match st.spec_best_incoming(level)[from] {
            Some(bi) => count_ones(c@.contributors) <= count_ones(bi@.contributors),
            None => false,
        }
        &&& count_ones(candidate_spec(st, level, c@).contributors) <= best_count(
            st.spec_best(level),
        )
    }

    /// Takes one inbound update: stores its singleton part if it is one,
    /// records it as the sender's best incoming and rescores the level's
    /// best, and marks the level complete when its best saturates. A
    /// terminal protocol, an invalid level, an unknown sender or an
    /// inadmissible contributor set drop the update with no effect.
    ///
    /// Cryptographic verification of the aggregated signature payload is
    /// the embedding application's task, before the update is handed in;
    /// the core checks contributor-set validity only.
    pub fn on_update(&mut self, from: usize, level: usize, c: Contribution)
        requires
            old(self).inv(),
        ensures
            final(self).inv(),
            !old(self).spec_accepts(from as int, level as int, c) ==> *final(self) == *old(self),
            old(self).spec_accepts(from as int, level as int, c) && old(self).spec_absorbed(
                from as int,
                level as int,
                c,
            ) ==> *final(self) == *old(self),
            old(self).spec_accepts(from as int, level as int, c) ==> ({
                &&& final(self).spec_absorbed(from as int, level as int, c)
                &&& best_count(final(self).spec_store().spec_best(level as int)) >= best_count(
                    old(self).spec_store().spec_best(level as int),
                )
                &&& final(self).spec_store().spec_own() == old(self).spec_store().spec_own()
                &&& forall|l: int|
                    0 <= l < old(self).spec_num_levels() && l != level ==> final(self).spec_store().spec_levels_val()[l] == old(self).spec_store().spec_levels_val()[l]
                &&& forall|l: int|
                    0 <= l < old(self).spec_num_levels() && l != level ==> final(self).spec_levels()[l] == old(self).spec_levels()[l]
                &&& final(self).spec_levels()[level as int].id == old(self).spec_levels()[level as int].id
                &&& final(self).spec_levels()[level as int].peer_ids@ == old(self).spec_levels()[level as int].peer_ids@
                &&& final(self).spec_levels()[level as int].state.started == old(self).spec_levels()[level as int].state.started
                &&& final(self).spec_levels()[level as int].state.next_peer_index == old(self).spec_levels()[level as int].state.next_peer_index
            }),
            final(self).spec_ticks() == old(self).spec_ticks(),
            final(self).spec_aborted() == old(self).spec_aborted(),
            final(self).spec_config() == old(self).spec_config(),
            final(self).spec_size() == old(self).spec_size(),
            final(self).spec_node_id() == old(self).spec_node_id(),
            final(self).spec_num_levels() == old(self).spec_num_levels(),
    {
        let top = self.levels.len() - 1;
        if self.aborted || self.levels[top].state.complete {
            return ;
        }
        if level == 0 || level >= self.levels.len() {
            return ;
        }
        if !self.store.is_peer(level, from) {
            return ;
        }
        if !self.store.is_admissible(level, &c) {
            return ;
        }
        let size = self.store.size();
        proof {
            self.store.lemma_level_facts(level as int);
        }

        // Feed the singleton part, if the update is one.
        if c.num_contributors() == 1 {
            match c.contributors_ref().first_member() {
                Some(b) => {
                    proof {
                        crate::bitset::lemma_singleton_subset(
                            size as nat,
                            b as int,
                            c@.contributors,
                        );
                        crate::bitset::lemma_count_singleton(size as nat, b as int);
                        crate::bitset::lemma_count_subset_full(
                            crate::bitset::singleton_bits(size as nat, b as int),
                            c@.contributors,
                        );
                    }
                    let _ = self.store.put_individual(level, b, c.copied());
                },
                None => {
                    proof {
                        assert(c@.contributors =~= crate::bitset::empty_bits(
                            c@.contributors.len(),
                        ));
                        crate::bitset::lemma_count_empty(c@.contributors.len());
                    }
                },
            }
        }
        let ghost mid = *self;

        let _ = self.store.put_combined(level, from, c);

        proof {
            // A complete level's best is immutable: nothing admissible can
            // beat a best that already covers the whole admissible set.
            mid.store.lemma_level_facts(level as int);
            crate::bitset::lemma_count_subset(
                candidate_spec(mid.store, level as int, c@).contributors,
                mid.store.spec_admissible(level as int),
            );
            assert forall|l: int|
                0 <= l < self.levels@.len() && l != level implies #[trigger] self.store.spec_best(
                l,
            ) == old(self).store.spec_best(l) && self.store.spec_expected(l) == old(self).store.spec_expected(l) by {
                Store::lemma_same_level_row(&old(self).store, &mid.store, l);
                Store::lemma_same_level_row(&mid.store, &self.store, l);
            }
        }
        // Mirror the store's completeness in the level's flag.
        if !self.levels[level].state.complete {
            if self.store.is_complete(level) {
                let lvl = &mut self.levels[level];
                lvl.state.complete = true;
            }
        }
        proof {
            if old(self).spec_accepts(from as int, level as int, c) {
                assert(self.store.spec_individual(level as int) == mid.store.spec_individual(
                    level as int,
                ));
                if level >= 2 {
                    Store::lemma_same_level_row(&mid.store, &self.store, level - 1);
                }
                assert(candidate_spec(self.store, level as int, c@) == candidate_spec(
                    mid.store,
                    level as int,
                    c@,
                ));
                assert forall|b: int|
                    0 <= b < self.store.spec_size() && c@.contributors
                        =~= crate::bitset::singleton_bits(self.store.spec_size() as nat, b)
                        && self.store.spec_peers(level as int)[b] implies (
                #[trigger] self.store.spec_individual(level as int)[b]) is Some by {
                    crate::bitset::lemma_count_singleton(self.store.spec_size() as nat, b);
                }
                assert(self.spec_absorbed(from as int, level as int, c));
                assert(best_count(self.spec_store().spec_best(level as int)) >= best_count(
                    old(self).spec_store().spec_best(level as int),
                ));
                assert(forall|l: int|
                    0 <= l < old(self).spec_num_levels() && l != level
                        ==> self.spec_store().spec_levels_val()[l] == old(
                        self,
                    ).spec_store().spec_levels_val()[l]);
                assert(forall|l: int|
                    0 <= l < old(self).spec_num_levels() && l != level ==> self.spec_levels()[l]
                        == old(self).spec_levels()[l]);
                assert(self.spec_levels()[level as int].state.next_peer_index == old(
                    self,
                ).spec_levels()[level as int].state.next_peer_index);
            }
        }
    }

    /// How many updates one tick emits for level `i`: one per selected peer,
    /// when the level is started, not complete, has peers, and an outbound
    /// contribution exists.
    pub open spec fn level_send_count(&self, i: int) -> int {
        let lvl = self.spec_levels()[i];
        if lvl.state.started && !lvl.state.complete && lvl.peer_ids@.len() > 0 && combined_spec(
            self.spec_store(),
            i - 1,
        ) is Some {
            if self.spec_config().peers_per_tick <= lvl.peer_ids@.len() {
                self.spec_config().peers_per_tick as int
            } else {
                lvl.peer_ids@.len() as int
            }
        } else {
            0
        }
    }

    /// Total updates one tick emits for levels below `i`.
    pub open spec fn sends_upto(&self, i: int) -> int
        decreases i,
    {
        if i <= 1 {
            0
        } else {
            self.sends_upto(i - 1) + self.level_send_count(i - 1)
        }
    }

    /// A well-formed outbound update: for a started, non-complete level,
    /// addressed to one of its peers, carrying the best known aggregate of
    /// the levels below it.
    pub open spec fn good_update(&self, u: Update) -> bool {
        &&& 1 <= u.level < self.spec_num_levels()
        &&& self.spec_levels()[u.level as int].state.started
        &&& !self.spec_levels()[u.level as int].state.complete
        &&& combined_spec(self.spec_store(), u.level - 1) == Some(u.contribution@)
        &&& self.spec_levels()[u.level as int].peer_ids@.contains(u.to)
    }

    /// One driver tick. Starts every level whose lower levels are all
    /// complete or whose start deadline has passed, then lets each started,
    /// non-complete level pick its next peers round-robin and emits to each
    /// of them the best known aggregate of the levels below it, in order of
    /// increasing level. A terminal protocol (aborted or past the overall
    /// timeout) does nothing.
    pub fn tick(&mut self) -> (r: Vec<Update>)
        requires
            old(self).inv(),
        ensures
            final(self).inv(),
            old(self).spec_aborted() || old(self).spec_ticks() >= old(
                self,
            ).spec_config().overall_timeout_ticks ==> *final(self) == *old(self) && r@.len() == 0,
            !(old(self).spec_aborted() || old(self).spec_ticks() >= old(
                self,
            ).spec_config().overall_timeout_ticks) ==> ({
                let nl = old(self).spec_num_levels();
                &&& final(self).spec_ticks() == old(self).spec_ticks() + 1
                &&& final(self).spec_store() == old(self).spec_store()
                &&& final(self).spec_aborted() == old(self).spec_aborted()
                &&& final(self).spec_config() == old(self).spec_config()
                &&& final(self).spec_size() == old(self).spec_size()
                &&& final(self).spec_node_id() == old(self).spec_node_id()
                &&& final(self).spec_num_levels() == nl
                &&& final(self).spec_levels()[0] == old(self).spec_levels()[0]
                &&& forall|i: int|
                    0 <= i < nl ==> (#[trigger] final(self).spec_levels()[i]).id == old(
                        self,
                    ).spec_levels()[i].id && final(self).spec_levels()[i].peer_ids@ == old(
                        self,
                    ).spec_levels()[i].peer_ids@ && final(self).spec_levels()[i].state.complete
                        == old(self).spec_levels()[i].state.complete
                &&& forall|i: int|
                    1 <= i < nl ==> ((#[trigger] final(self).spec_levels()[i]).state.started
                        <==> old(self).spec_levels()[i].state.started || old(
                        self,
                    ).all_below_complete(i) || old(self).spec_ticks() + 1 >= level_deadline(
                        old(self).spec_config(),
                        i,
                    ))
                &&& forall|i: int|
                    0 <= i < nl ==> (#[trigger] final(self).spec_levels()[i]).state.next_peer_index
                        as int == ({
                        let lvl = final(self).spec_levels()[i];
                        let n = lvl.peer_ids@.len() as int;
                        let k = old(self).spec_config().peers_per_tick as int;
                        if i >= 1 && lvl.state.started && !lvl.state.complete && n > 0 {
                            wrap_index(
                                old(self).spec_levels()[i].state.next_peer_index + (if k <= n {
                                    k
                                } else {
                                    n
                                }),
                                n,
                            )
                        } else {
                            old(self).spec_levels()[i].state.next_peer_index as int
                        }
                    })
                &&& r@.len() == final(self).sends_upto(nl)
                &&& forall|x: int| 0 <= x < r@.len() ==> final(self).good_update(#[trigger] r@[x])
                &&& forall|x: int, y: int|
                    0 <= x <= y < r@.len() ==> (#[trigger] r@[x]).level <= (#[trigger] r@[y]).level
            }),
    {
        if self.aborted || self.ticks >= self.config.overall_timeout_ticks {
            return Vec::new();
        }
        self.ticks = self.ticks + 1;
        let num_levels = self.levels.len();

        // Start rule.
        let mut all_below = self.levels[0].is_complete();
        proof {
            if all_below {
                assert forall|j: int|
                    0 <= j < 1 implies (#[trigger] old(self).spec_levels()[j]).state.complete by {
                    assert(j == 0);
                }
            } else {
                assert(!(old(self).spec_levels()[0]).state.complete);
            }
        }
        let mut i: usize = 1;
        while i < num_levels
            invariant
                1 <= i <= num_levels,
                num_levels == self.levels@.len(),
                self.levels@.len() == old(self).spec_levels().len(),
                self.inv(),
                self.store == old(self).spec_store(),
                self.config == old(self).spec_config(),
                self.size == old(self).spec_size(),
                self.node_id == old(self).spec_node_id(),
                self.aborted == old(self).spec_aborted(),
                self.ticks as int == old(self).spec_ticks() + 1,
                self.levels@[0] == old(self).spec_levels()[0],
                forall|j: int| i <= j < num_levels ==> self.levels@[j] == old(self).spec_levels()[j],
                forall|j: int|
                    0 <= j < i ==> (#[trigger] self.levels@[j]).id == old(self).spec_levels()[j].id
                        && self.levels@[j].peer_ids@ == old(self).spec_levels()[j].peer_ids@
                        && self.levels@[j].state.complete == old(
                        self,
                    ).spec_levels()[j].state.complete && self.levels@[j].state.next_peer_index
                        == old(self).spec_levels()[j].state.next_peer_index,
                forall|j: int|
                    1 <= j < i ==> ((#[trigger] self.levels@[j]).state.started <==> old(
                        self,
                    ).spec_levels()[j].state.started || old(self).all_below_complete(j) || old(
                        self,
                    ).spec_ticks() + 1 >= level_deadline(old(self).spec_config(), j)),
                all_below == old(self).all_below_complete(i as int),
            decreases num_levels - i,
        {
            if !self.levels[i].is_started() {
                let factor = (i + 1) as u64;
                let timed_out = match factor.checked_mul(self.config.level_start_delay_ticks) {
                    Some(d) => self.ticks >= d,
                    None => false,
                };
                if all_below || timed_out {
                    let lvl = &mut self.levels[i];
                    let _ = lvl.start();
                }
            }
            let below_i = self.levels[i].is_complete();
            proof {
                if all_below && below_i {
                    assert forall|j: int|
                        0 <= j < i + 1 implies (#[trigger] old(self).spec_levels()[j]).state.complete by {
                        if j < i {
                            assert(old(self).all_below_complete(i as int));
                        }
                    }
                } else {
                    if !below_i {
                        assert(!(old(self).spec_levels()[i as int]).state.complete);
                    } else {
                        let w = choose|j: int|
                            0 <= j < i && !(#[trigger] old(self).spec_levels()[j]).state.complete;
                        assert(!(old(self).spec_levels()[w]).state.complete);
                    }
                }
            }
            all_below = all_below && below_i;
            i = i + 1;
        }

        // Send rule, in order of increasing level.
        let ghost s1 = *self;
        let mut out: Vec<Update> = Vec::new();
        let k = self.config.peers_per_tick;
        let mut i: usize = 1;
        while i < num_levels
            invariant
                1 <= i <= num_levels,
                num_levels == self.levels@.len(),
                self.inv(),
                k == self.config.peers_per_tick,
                self.store == s1.spec_store(),
                self.config == s1.spec_config(),
                self.size == s1.spec_size(),
                self.node_id == s1.spec_node_id(),
                self.aborted == s1.spec_aborted(),
                self.ticks == s1.spec_ticks(),
                s1.spec_levels().len() == num_levels,
                forall|j: int| i <= j < num_levels ==> self.levels@[j] == s1.spec_levels()[j],
                self.levels@[0] == s1.spec_levels()[0],
                forall|j: int|
                    0 <= j < num_levels ==> (#[trigger] self.levels@[j]).id
                        == s1.spec_levels()[j].id && self.levels@[j].peer_ids@
                        == s1.spec_levels()[j].peer_ids@ && self.levels@[j].state.complete
                        == s1.spec_levels()[j].state.complete && self.levels@[j].state.started
                        == s1.spec_levels()[j].state.started,
                forall|j: int|
                    1 <= j < i ==> (#[trigger] self.levels@[j]).state.next_peer_index as int == ({
                        let lvl = s1.spec_levels()[j];
                        let n = lvl.peer_ids@.len() as int;
                        if lvl.state.started && !lvl.state.complete && n > 0 {
                            wrap_index(
                                lvl.state.next_peer_index + (if k as int <= n {
                                    k as int
                                } else {
                                    n
                                }),
                                n,
                            )
                        } else {
                            lvl.state.next_peer_index as int
                        }
                    }),
                out@.len() == s1.sends_upto(i as int),
                forall|x: int| 0 <= x < out@.len() ==> s1.good_update(#[trigger] out@[x]),
                forall|x: int| 0 <= x < out@.len() ==> (#[trigger] out@[x]).level < i,
                forall|x: int, y: int|
                    0 <= x <= y < out@.len() ==> (#[trigger] out@[x]).level <= (
                    #[trigger] out@[y]).level,
            decreases num_levels - i,
        {
            let started = self.levels[i].is_started();
            let complete = self.levels[i].is_complete();
            if started && !complete {
                let lvl = &mut self.levels[i];
                let sel = lvl.select_next_peers(k);
                let ghost n = lvl.peer_ids@.len() as int;
                if sel.len() > 0 {
                    match self.store.combined(i - 1) {
                        Some(payload) => {
                            let mut j: usize = 0;
                            while j < sel.len()
                                invariant
                                    j <= sel@.len(),
                                    1 <= i < num_levels,
                                    num_levels == self.levels@.len(),
                                    s1.spec_levels().len() == num_levels,
                                    self.levels@[i as int].peer_ids@
                                        == s1.spec_levels()[i as int].peer_ids@,
                                    s1.spec_levels()[i as int].state.started,
                                    !s1.spec_levels()[i as int].state.complete,
                                    combined_spec(s1.spec_store(), i - 1) == Some(payload@),
                                    forall|y: int|
                                        0 <= y < sel@.len() ==> (
                                        #[trigger] self.levels@[i as int].peer_ids@[wrap_index(
                                            s1.spec_levels()[i as int].state.next_peer_index + y,
                                            self.levels@[i as int].peer_ids@.len() as int,
                                        )]) == sel@[y],
                                    sel@.len() <= self.levels@[i as int].peer_ids@.len(),
                                    0 <= s1.spec_levels()[i as int].state.next_peer_index
                                        < self.levels@[i as int].peer_ids@.len(),
                                    out@.len() == s1.sends_upto(i as int) + j,
                                    forall|x: int|
                                        0 <= x < out@.len() ==> s1.good_update(
                                            #[trigger] out@[x],
                                        ),
                                    forall|x: int|
                                        0 <= x < out@.len() ==> (#[trigger] out@[x]).level <= i,
                                    forall|x: int, y: int|
                                        0 <= x <= y < out@.len() ==> (#[trigger] out@[x]).level
                                            <= (#[trigger] out@[y]).level,
                                decreases sel@.len() - j,
                            {
                                let u = Update { to: sel[j], level: i, contribution: payload.copied() };
                                proof {
                                    let w = wrap_index(
                                        s1.spec_levels()[i as int].state.next_peer_index + j,
                                        self.levels@[i as int].peer_ids@.len() as int,
                                    );
                                    assert(self.levels@[i as int].peer_ids@[w] == sel@[j as int]);
                                    assert(s1.spec_levels()[i as int].peer_ids@.contains(
                                        sel@[j as int],
                                    ));
                                    assert(u.contribution@ == payload@);
                                    assert(s1.good_update(u));
                                }
                                out.push(u);
                                j = j + 1;
                            }
                        },
                        None => {},
                    }
                }
            }
            proof {
                assert(s1.sends_upto(i + 1) == s1.sends_upto(i as int) + s1.level_send_count(
                    i as int,
                ));
            }
            i = i + 1;
        }
        proof {
            assert(self.sends_upto(num_levels as int) == s1.sends_upto(num_levels as int)) by {
                Self::lemma_sends_upto_same(s1, *self, num_levels as int);
            }
            assert forall|x: int| 0 <= x < out@.len() implies self.good_update(
                #[trigger] out@[x],
            ) by {
                assert(s1.good_update(out@[x]));
            }
            assert forall|j: int|
                0 <= j < num_levels implies (#[trigger] self.levels@[j]).id == old(
                self,
            ).spec_levels()[j].id && self.levels@[j].peer_ids@ == old(
                self,
            ).spec_levels()[j].peer_ids@ && self.levels@[j].state.complete == old(
                self,
            ).spec_levels()[j].state.complete by {
                assert(s1.spec_levels()[j].id == old(self).spec_levels()[j].id);
            }
            assert forall|j: int|
                1 <= j < num_levels implies ((#[trigger] self.levels@[j]).state.started <==> old(
                self,
            ).spec_levels()[j].state.started || old(self).all_below_complete(j) || old(
                self,
            ).spec_ticks() + 1 >= level_deadline(old(self).spec_config(), j)) by {
                assert(self.levels@[j].state.started == s1.spec_levels()[j].state.started);
            }
            assert forall|j: int|
                0 <= j < num_levels implies (#[trigger] self.levels@[j]).state.next_peer_index
                as int == ({
                let lvl = self.levels@[j];
                let n = lvl.peer_ids@.len() as int;
                let k_ = old(self).spec_config().peers_per_tick as int;
                if j >= 1 && lvl.state.started && !lvl.state.complete && n > 0 {
                    wrap_index(
                        old(self).spec_levels()[j].state.next_peer_index + (if k_ <= n {
                            k_
                        } else {
                            n
                        }),
                        n,
                    )
                } else {
                    old(self).spec_levels()[j].state.next_peer_index as int
                }
            }) by {
                assert(s1.spec_levels()[j].state.next_peer_index == old(
                    self,
                ).spec_levels()[j].state.next_peer_index);
            }
        }
        out
    }

    /// Two states with the same flags, peers, store and configuration plan
    /// the same number of sends.
    proof fn lemma_sends_upto_same(a: Aggregation, b: Aggregation, i: int)
        requires
            a.spec_levels().len() == b.spec_levels().len(),
            a.spec_store() == b.spec_store(),
            a.spec_config() == b.spec_config(),
            forall|j: int|
                0 <= j < a.spec_levels().len() ==> (#[trigger] b.spec_levels()[j]).peer_ids@
                    == a.spec_levels()[j].peer_ids@ && b.spec_levels()[j].state.complete
                    == a.spec_levels()[j].state.complete && b.spec_levels()[j].state.started
                    == a.spec_levels()[j].state.started,
            i <= a.spec_levels().len(),
        ensures
            a.sends_upto(i) == b.sends_upto(i),
        decreases i,
    {
        if i > 1 {
            Self::lemma_sends_upto_same(a, b, i - 1);
        }
    }

    /// The best known aggregate covering levels 0 up to `level`.
    pub fn combined(&self, level: usize) -> (r: Option<Contribution>)
        requires
            self.inv(),
            level < self.spec_num_levels(),
        ensures
            match r {
                Some(c) => combined_spec(self.spec_store(), level as int) == Some(c@),
                None => combined_spec(self.spec_store(), level as int) is None,
            },
    {
        self.store.combined(level)
    }

    /// Read-only view of the store.
    pub fn store(&self) -> (r: &Store)
        ensures
            *r == self.spec_store(),
    {
        &self.store
    }

    /// Read-only view of the levels.
    pub fn levels(&self) -> (r: &Vec<Level>)
        ensures
            r@ == self.spec_levels(),
    {
        &self.levels
    }

    /// Ticks elapsed so far.
    pub fn ticks(&self) -> (r: u64)
        ensures
            r == self.spec_ticks(),
    {
        self.ticks
    }

    /// Whether `abort` has been called.
    pub fn is_aborted(&self) -> (r: bool)
        ensures
            r == self.spec_aborted(),
    {
        self.aborted
    }

    /// Marks the protocol terminal: no further updates are taken and no
    /// further sends are emitted.
    pub fn abort(&mut self)
        requires
            old(self).inv(),
        ensures
            final(self).inv(),
            final(self).spec_aborted(),
            final(self).spec_store() == old(self).spec_store(),
            final(self).spec_levels() == old(self).spec_levels(),
            final(self).spec_ticks() == old(self).spec_ticks(),
            final(self).spec_size() == old(self).spec_size(),
            final(self).spec_node_id() == old(self).spec_node_id(),
            final(self).spec_config() == old(self).spec_config(),
    {
        self.aborted = true;
    }

    /// The final aggregate: available once the top level is complete, or as
    /// the best known aggregate once the protocol is terminal (aborted or
    /// past its overall timeout).
    pub fn result(&self) -> (r: Option<Contribution>)
        requires
            self.inv(),
        ensures
            ({
                let top = self.spec_num_levels() - 1;
                let done = self.spec_levels()[top].state.complete || self.spec_aborted()
                    || self.spec_ticks() >= self.spec_config().overall_timeout_ticks;
                if done {
                    match r {
                        Some(c) => combined_spec(self.spec_store(), top) == Some(c@),
                        None => combined_spec(self.spec_store(), top) is None,
                    }
                } else {
                    r is None
                }
            }),
    {
        let top = self.levels.len() - 1;
        if self.levels[top].state.complete || self.aborted || self.ticks
            >= self.config.overall_timeout_ticks {
            self.store.combined(top)
        } else {
            None
        }
    }
}

} // verus!
