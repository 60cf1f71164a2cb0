//! One level of the aggregation tree: its peer set, start/complete flags,
//! and the round-robin cursor used to pick the next peers to contact.

use vstd::prelude::*;

use vstd::arithmetic::div_mod::{
    lemma_fundamental_div_mod, lemma_fundamental_div_mod_converse,
};
use vstd::arithmetic::power2::{lemma_pow2_pos, lemma_pow2_unfold, pow2};

use crate::error::ConfigurationError;
use crate::partitioner::{level_range, spec_levels, BinomialPartitioner};

verus! {

/// Index `a` (with `a < 2n`) brought back into `0..n`.
pub open spec fn wrap_index(a: int, n: int) -> int {
    if a < n {
        a
    } else {
        a - n
    }
}

/// Levels 1 up to (excluding) `nl` have consecutive peer ranges around the
/// running own-side interval `[ls, le)`; empty levels are skipped.
pub open spec fn levels_consecutive_from(
    node: int,
    size: int,
    i: int,
    nl: int,
    ls: int,
    le: int,
) -> bool
    decreases nl - i,
{
    if i >= nl {
        true
    } else {
        match level_range(node, size, i) {
            None => levels_consecutive_from(node, size, i + 1, nl, ls, le),
            Some((s, e)) => if e + 1 == ls {
                levels_consecutive_from(node, size, i + 1, nl, s, le)
            } else if s == le {
                levels_consecutive_from(node, size, i + 1, nl, ls, e + 1)
            } else {
                false
            },
        }
    }
}

/// First index of the node's aligned block of size `2^j`.
pub open spec fn block_lo(node: int, j: nat) -> int {
    (node / pow2(j) as int) * pow2(j) as int
}

/// One past the last committee index of the node's aligned block of size
/// `2^j`, clipped to the committee.
pub open spec fn block_hi(node: int, size: int, j: nat) -> int {
    if block_lo(node, j) + pow2(j) <= size {
        block_lo(node, j) + pow2(j) as int
    } else {
        size
    }
}

/// Each level's peer range is the sibling half of the node's aligned block,
/// so it is always consecutive to the own-side interval built so far: the
/// partitioner can never trip the consecutiveness check.
pub proof fn lemma_partition_consecutive(node: int, size: int, i: int, nl: int)
    requires
        0 <= node < size,
        1 <= i,
    ensures
        levels_consecutive_from(
            node,
            size,
            i,
            nl,
            block_lo(node, (i - 1) as nat),
            block_hi(node, size, (i - 1) as nat),
        ),
    decreases nl - i,
{
    if i < nl {
        let b = pow2((i - 1) as nat) as int;
        let lo1 = block_lo(node, (i - 1) as nat);
        let hi1 = block_hi(node, size, (i - 1) as nat);
        let lo2 = block_lo(node, i as nat);
        let hi2 = block_hi(node, size, i as nat);
        lemma_pow2_pos((i - 1) as nat);
        lemma_pow2_unfold(i as nat);
        assert(pow2(i as nat) == 2 * b);
        lemma_fundamental_div_mod(node, 2 * b);
        let q = node / (2 * b);
        let r = node % (2 * b);
        assert(lo2 == q * (2 * b));
        assert(0 <= r < 2 * b) by (nonlinear_arith)
            requires
                b >= 1,
                r == node % (2 * b),
                node >= 0,
        ;
        if r < b {
            // The node lies in the lower half: its smaller block starts
            // where the bigger one does, and the sibling is the upper half.
            assert(node == b * (2 * q) + r) by (nonlinear_arith)
                requires
                    node == (2 * b) * q + r,
            ;
            lemma_fundamental_div_mod_converse(node, b, 2 * q, r);
            assert(lo1 == (2 * q) * b);
            assert(lo1 == lo2) by (nonlinear_arith)
                requires
                    lo1 == (2 * q) * b,
                    lo2 == q * (2 * b),
            ;
            let s = lo2 + b;
            assert(s <= node + b) by (nonlinear_arith)
                requires
                    node == (2 * b) * q + r,
                    lo2 == q * (2 * b),
                    r >= 0,
                    s == lo2 + b,
                    b >= 1,
            ;
            lemma_partition_consecutive(node, size, i + 1, nl);
            if s >= size {
                assert(level_range(node, size, i) is None);
                assert(lo2 == lo1 && hi2 == hi1);
            } else {
                let e = if s + b - 1 < size {
                    s + b - 1
                } else {
                    size - 1
                };
                assert(level_range(node, size, i) == Some((s, e)));
                assert(hi1 == s);
                assert(e + 1 == hi2);
                assert(lo2 == lo1);
                assert(node < s) by (nonlinear_arith)
                    requires
                        node == (2 * b) * q + r,
                        lo2 == q * (2 * b),
                        r < b,
                        s == lo2 + b,
                ;
                assert(!(e + 1 == lo1));
            }
        } else {
            // The node lies in the upper half: the sibling is the lower
            // half, ending right where the node's smaller block starts.
            assert(node == b * (2 * q + 1) + (r - b)) by (nonlinear_arith)
                requires
                    node == (2 * b) * q + r,
            ;
            lemma_fundamental_div_mod_converse(node, b, 2 * q + 1, r - b);
            assert(lo1 == (2 * q + 1) * b);
            assert(lo1 == lo2 + b) by (nonlinear_arith)
                requires
                    lo1 == (2 * q + 1) * b,
                    lo2 == q * (2 * b),
            ;
            let s = lo2;
            assert(s <= node) by (nonlinear_arith)
                requires
                    node == (2 * b) * q + r,
                    lo2 == q * (2 * b),
                    r >= 0,
                    s == lo2,
            ;
            assert(level_range(node, size, i) is Some);
            let e = if s + b - 1 < size {
                s + b - 1
            } else {
                size - 1
            };
            assert(level_range(node, size, i) == Some((s, e)));
            assert(lo1 <= node) by (nonlinear_arith)
                requires
                    node == (2 * b) * q + r,
                    lo1 == (2 * q + 1) * b,
                    r >= b,
            ;
            assert(e == lo1 - 1);
            assert(hi1 == hi2);
            lemma_partition_consecutive(node, size, i + 1, nl);
        }
    }
}

/// The partitioner's ranges around the node itself are consecutive from
/// level 1 all the way up: building the levels cannot fail for a node
/// inside the committee.
pub proof fn lemma_partition_always_consecutive(node: int, size: int, nl: int)
    requires
        0 <= node < size,
    ensures
        levels_consecutive_from(node, size, 1, nl, node, node + 1),
{
    vstd::arithmetic::power2::lemma2_to64();
    assert(block_lo(node, 0) == node);
    assert(block_hi(node, size, 0) == node + 1);
    lemma_partition_consecutive(node, size, 1, nl);
}

/// Mutable state of a level.
#[derive(Clone, Debug)]
pub struct LevelState {
    /// The node has begun sending updates on this level.
    pub started: bool,
    /// Every contribution of this level's subtree has been aggregated.
    pub complete: bool,
    /// Round-robin cursor into the level's peer list.
    pub next_peer_index: usize,
}

/// One aggregation level: its id, the committee indices on the opposite
/// subtree, and the level's mutable state.
#[derive(Debug)]
pub struct Level {
    /// Depth of the level in the aggregation tree.
    pub id: usize,
    /// Committee indices on the opposite subtree at this depth.
    pub peer_ids: Vec<usize>,
    /// The state of this level.
    pub state: LevelState,
}

impl Level {
    /// Creates a level from its id and peer list, not yet started.
    pub fn new(id: usize, peer_ids: Vec<usize>) -> (r: Level)
        ensures
            r.id == id,
            r.peer_ids@ == peer_ids@,
            !r.state.started,
            !r.state.complete,
            r.state.next_peer_index == 0,
    {
        Level {
            id,
            peer_ids,
            state: LevelState { started: false, complete: false, next_peer_index: 0 },
        }
    }

    /// Number of peers on this level.
    pub fn num_peers(&self) -> (r: usize)
        ensures
            r == self.peer_ids@.len(),
    {
        self.peer_ids.len()
    }

    /// Whether this level has no peers.
    pub fn is_empty(&self) -> (r: bool)
        ensures
            r == (self.peer_ids@.len() == 0),
    {
        self.peer_ids.len() == 0
    }

    /// Whether this level has been started.
    pub fn is_started(&self) -> (r: bool)
        ensures
            r == self.state.started,
    {
        self.state.started
    }

    /// Whether this level is complete.
    pub fn is_complete(&self) -> (r: bool)
        ensures
            r == self.state.complete,
    {
        self.state.complete
    }

    /// Starts the level. Returns true exactly when this call made the
    /// transition from not started to started.
    pub fn start(&mut self) -> (r: bool)
        ensures
            final(self).state.started,
            final(self).state.complete == old(self).state.complete,
            final(self).state.next_peer_index == old(self).state.next_peer_index,
            final(self).id == old(self).id,
            final(self).peer_ids@ == old(self).peer_ids@,
            r == !old(self).state.started,
    {
        let already_started = self.state.started;
        self.state.started = true;
        !already_started
    }

    /// Marks the level complete.
    pub fn set_complete(&mut self)
        ensures
            final(self).state.complete,
            final(self).state.started == old(self).state.started,
            final(self).state.next_peer_index == old(self).state.next_peer_index,
            final(self).id == old(self).id,
            final(self).peer_ids@ == old(self).peer_ids@,
    {
        self.state.complete = true;
    }

    /// Picks the next `min(count, num_peers)` peers round-robin from the
    /// cursor and advances the cursor by as many steps, wrapping around.
    /// Level 0 and empty levels yield no peers and stay unchanged.
    pub fn select_next_peers(&mut self, count: usize) -> (r: Vec<usize>)
        requires
            old(self).id != 0 && old(self).peer_ids@.len() > 0
                ==> old(self).state.next_peer_index < old(self).peer_ids@.len(),
        ensures
            final(self).id == old(self).id,
            final(self).peer_ids@ == old(self).peer_ids@,
            final(self).state.started == old(self).state.started,
            final(self).state.complete == old(self).state.complete,
            old(self).id == 0 || old(self).peer_ids@.len() == 0
                ==> r@.len() == 0 && final(self).state == old(self).state,
            old(self).id != 0 && old(self).peer_ids@.len() > 0 ==> {
                let n = old(self).peer_ids@.len() as int;
                let c0 = old(self).state.next_peer_index as int;
                let m = if count <= n {
                    count as int
                } else {
                    n
                };
                &&& r@.len() == m
                &&& forall|j: int|
                    0 <= j < m ==> r@[j] == old(self).peer_ids@[wrap_index(c0 + j, n)]
                &&& final(self).state.next_peer_index == wrap_index(c0 + m, n)
                &&& final(self).state.next_peer_index < n
            },
    {
        if self.id == 0 || self.peer_ids.len() == 0 {
            return Vec::new();
        }
        let n = self.peer_ids.len();
        let m = if count <= n {
            count
        } else {
            n
        };
        let ghost c0 = self.state.next_peer_index as int;
        let mut c = self.state.next_peer_index;
        let mut selected: Vec<usize> = Vec::new();
        let mut t: usize = 0;
        while t < m
            invariant
                t <= m,
                m <= n,
                n == self.peer_ids@.len(),
                0 <= c0 < n,
                c as int == wrap_index(c0 + t, n as int),
                c < n,
                selected@.len() == t,
                forall|j: int|
                    0 <= j < t ==> selected@[j] == self.peer_ids@[wrap_index(c0 + j, n as int)],
            decreases m - t,
        {
            selected.push(self.peer_ids[c]);
            c = c + 1;
            if c == n {
                c = 0;
            }
            t = t + 1;
        }
        self.state.next_peer_index = c;
        selected
    }

    /// Builds the level vector for one aggregation, one level per depth the
    /// partitioner reports, with level 0 already started. Fails only when
    /// two successive non-empty ranges are not consecutive.
    pub fn create_levels(partitioner: &BinomialPartitioner) -> (r: Result<
        Vec<Level>,
        ConfigurationError,
    >)
        requires
            partitioner.wf(),
        ensures
            ({
                let node = partitioner.node_id_spec();
                let size = partitioner.size_spec();
                let nl = spec_levels(size as nat) as int;
                &&& (r is Ok <==> levels_consecutive_from(node, size, 1, nl, node, node + 1))
                &&& (r is Err ==> r->Err_0 == ConfigurationError::NonConsecutiveRanges)
                &&& r is Ok ==> {
                    let levels = r->Ok_0@;
                    &&& levels.len() == nl
                    &&& forall|k: int| 0 <= k < nl ==> (#[trigger] levels[k]).id == k
                    &&& forall|k: int|
                        0 <= k < nl ==> match level_range(node, size, k) {
                            Some((s, e)) => (#[trigger] levels[k]).peer_ids@.len() == e - s + 1
                                && forall|j: int|
                                0 <= j < e - s + 1 ==> levels[k].peer_ids@[j] == s + j,
                            None => levels[k].peer_ids@.len() == 0,
                        }
                    &&& levels[0].state.started
                    &&& forall|k: int|
                        1 <= k < nl ==> !(#[trigger] levels[k]).state.started
                    &&& forall|k: int|
                        0 <= k < nl ==> !(#[trigger] levels[k]).state.complete
                    &&& forall|k: int|
                        0 <= k < nl ==> (#[trigger] levels[k]).state.next_peer_index < levels[k].peer_ids@.len()
                            || levels[k].state.next_peer_index == 0
                }
            }),
    {
        let ghost node = partitioner.node_id_spec();
        let ghost size = partitioner.size_spec();
        let num_levels = partitioner.levels();
        let ghost nl = num_levels as int;
        let node_id = partitioner.node_id();
        let size_x = partitioner.size();

        let mut levels: Vec<Level> = Vec::new();
        // Own-side interval [ls, le), initially just the node itself once
        // level 0 is in place.
        let mut ls: usize = node_id;
        let mut le: usize = node_id + 1;

        let mut i: usize = 0;
        while i < num_levels
            invariant
                partitioner.wf(),
                node == partitioner.node_id_spec(),
                size == partitioner.size_spec(),
                node_id as int == node,
                size_x as int == size,
                nl == spec_levels(size as nat) as int,
                num_levels as int == nl,
                i <= num_levels,
                i >= 1 ==> ls <= node < le <= size,
                i == 0 ==> ls == node && le == node + 1,
                levels@.len() == i,
                forall|k: int| 0 <= k < i ==> (#[trigger] levels@[k]).id == k,
                forall|k: int|
                    0 <= k < i ==> match level_range(node, size, k) {
                        Some((s, e)) => (#[trigger] levels@[k]).peer_ids@.len() == e - s + 1
                            && forall|j: int|
                            0 <= j < e - s + 1 ==> levels@[k].peer_ids@[j] == s + j,
                        None => levels@[k].peer_ids@.len() == 0,
                    },
                i >= 1 ==> levels@[0].state.started,
                forall|k: int| 1 <= k < i ==> !(#[trigger] levels@[k]).state.started,
                forall|k: int| 0 <= k < i ==> !(#[trigger] levels@[k]).state.complete,
                forall|k: int|
                    0 <= k < i ==> (#[trigger] levels@[k]).state.next_peer_index < levels@[k].peer_ids@.len()
                        || levels@[k].state.next_peer_index == 0,
                levels_consecutive_from(node, size, 1, nl, node, node + 1)
                    == levels_consecutive_from(
                    node,
                    size,
                    if i >= 1 {
                        i as int
                    } else {
                        1
                    },
                    nl,
                    ls as int,
                    le as int,
                ),
            decreases num_levels - i,
        {
            match partitioner.range(i) {
                Ok((s, e)) => {
                    // Collect the inclusive range as the peer list.
                    let mut ids: Vec<usize> = Vec::new();
                    let mut p = s;
                    while p <= e
                        invariant
                            s <= p <= e + 1,
                            e < size_x,
                            ids@.len() == p - s,
                            forall|j: int| 0 <= j < p - s ==> ids@[j] == s + j,
                        decreases e + 1 - p,
                    {
                        ids.push(p);
                        p = p + 1;
                    }
                    let mut level = Level::new(i, ids);

                    if i == 0 {
                        level.state.started = true;
                        levels.push(level);
                    } else {
                        // The node's position on its own side seeds the
                        // cursor, so symmetric nodes pair up first.
                        let index = node_id - ls;
                        let len = level.peer_ids.len();
                        level.state.next_peer_index = index % len;
                        if e + 1 == ls {
                            ls = s;
                        } else if s == le {
                            le = e + 1;
                        } else {
                            return Err(ConfigurationError::NonConsecutiveRanges);
                        }
                        levels.push(level);
                    }
                },
                Err(_) => {
                    let level = Level::new(i, Vec::new());
                    levels.push(level);
                },
            }
            i = i + 1;
        }
        Ok(levels)
    }
}

} // verus!
