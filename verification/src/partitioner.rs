//! Binomial "flip" partitioner: deterministic assignment of committee
//! indices to binary-tree levels, relative to the local node.
//!
//! The committee indices are laid out as the leaves of a balanced binary
//! tree. Level 0 holds only the local node. For level `i >= 1`, the peers
//! are the indices in the sibling subtree of the node's own subtree of size
//! `2^(i-1)`, clipped to the committee size. A sibling subtree that lies
//! entirely beyond the committee is reported as an empty level.

use vstd::prelude::*;

use vstd::arithmetic::div_mod::{
    lemma_fundamental_div_mod, lemma_fundamental_div_mod_converse,
};
use vstd::arithmetic::power2::pow2;
use vstd::arithmetic::power::lemma_pow_strictly_increases;

use crate::error::PartitioningError;

verus! {

/// Number of levels for a committee of `n`: one for the node itself plus
/// one for each doubling step up to `n`.
pub open spec fn spec_levels(n: nat) -> nat
    decreases n,
{
    if n <= 1 {
        1
    } else {
        1 + spec_levels((n + 1) / 2)
    }
}

/// Inclusive range of committee indices on level `i`'s opposite subtree for
/// a node `node` in a committee of `size`, or `None` when that range is
/// empty. Level 0 is the node itself. For `i >= 1`, the node's aligned block
/// of size `2^i` is split in halves of `2^(i-1)`; the peers are the half not
/// holding the node, clipped to `size`.
pub open spec fn level_range(node: int, size: int, i: int) -> Option<(int, int)> {
    if i == 0 {
        Some((node, node))
    } else {
        let b = pow2((i - 1) as nat) as int;
        let lo = (node / (2 * b)) * (2 * b);
        let s = if node % (2 * b) < b {
            lo + b
        } else {
            lo
        };
        if s >= size {
            None
        } else {
            let e = s + b - 1;
            Some((s, if e < size { e } else { size - 1 }))
        }
    }
}

pub proof fn lemma_levels_le(n: nat)
    ensures
        1 <= spec_levels(n),
        n >= 1 ==> spec_levels(n) <= n,
    decreases n,
{
    if n > 1 {
        lemma_levels_le((n + 1) / 2);
    }
}

pub proof fn lemma_pow2_mono(a: nat, b: nat)
    requires
        a <= b,
    ensures
        pow2(a) <= pow2(b),
{
    vstd::arithmetic::power2::lemma_pow2(a);
    vstd::arithmetic::power2::lemma_pow2(b);
    if a < b {
        lemma_pow_strictly_increases(2, a, b);
    }
}

/// The subtree width at the highest level stays below the committee size.
pub proof fn lemma_levels_pow2(n: nat)
    requires
        n >= 2,
    ensures
        spec_levels(n) >= 2,
        pow2((spec_levels(n) - 2) as nat) <= n - 1,
    decreases n,
{
    if n <= 3 {
        assert(spec_levels(1) == 1);
        assert(spec_levels(2) == 1 + spec_levels(1));
        assert(spec_levels(3) == 1 + spec_levels(2));
        vstd::arithmetic::power2::lemma2_to64();
    } else {
        let m = (n + 1) / 2;
        lemma_levels_pow2(m);
        vstd::arithmetic::power2::lemma_pow2_unfold((spec_levels(n) - 2) as nat);
    }
}

/// Exact power of two, for exponents whose power fits the machine word.
pub fn exec_pow2(e: usize) -> (r: usize)
    requires
        pow2(e as nat) <= usize::MAX,
    ensures
        r == pow2(e as nat),
{
    let mut r: usize = 1;
    let mut j: usize = 0;
    proof {
        vstd::arithmetic::power2::lemma2_to64();
    }
    while j < e
        invariant
            j <= e,
            r == pow2(j as nat),
            pow2(e as nat) <= usize::MAX,
        decreases e - j,
    {
        proof {
            lemma_pow2_mono((j + 1) as nat, e as nat);
            vstd::arithmetic::power2::lemma_pow2_unfold((j + 1) as nat);
        }
        r = r * 2;
        j = j + 1;
    }
    r
}

/// Deterministic map from `(committee size, local node)` to per-level peer
/// ranges.
pub struct BinomialPartitioner {
    node_id: usize,
    size: usize,
}

impl BinomialPartitioner {
    pub open spec fn wf(&self) -> bool {
        self.node_id_spec() < self.size_spec()
    }

    pub closed spec fn node_id_spec(&self) -> int {
        self.node_id as int
    }

    pub closed spec fn size_spec(&self) -> int {
        self.size as int
    }

    /// Builds the partitioner; the node must lie inside the committee.
    pub fn new(node_id: usize, size: usize) -> (r: Result<
        BinomialPartitioner,
        crate::error::ConfigurationError,
    >)
        ensures
            r is Ok <==> node_id < size,
            r is Ok ==> r->Ok_0.node_id_spec() == node_id && r->Ok_0.size_spec() == size,
            r is Err ==> r->Err_0 == crate::error::ConfigurationError::NodeIdOutOfBounds,
    {
        if node_id < size {
            Ok(BinomialPartitioner { node_id, size })
        } else {
            Err(crate::error::ConfigurationError::NodeIdOutOfBounds)
        }
    }

    /// The local node's committee index.
    pub fn node_id(&self) -> (r: usize)
        ensures
            r == self.node_id_spec(),
    {
        self.node_id
    }

    /// The committee size.
    pub fn size(&self) -> (r: usize)
        ensures
            r == self.size_spec(),
    {
        self.size
    }

    /// Number of levels of the aggregation tree.
    pub fn levels(&self) -> (r: usize)
        requires
            self.wf(),
        ensures
            r == spec_levels(self.size_spec() as nat),
    {
        let mut m: usize = self.size;
        let mut l: usize = 1;
        proof {
            lemma_levels_le(self.size as nat);
        }
        while m > 1
            invariant
                m >= 1,
                l >= 1,
                l - 1 + spec_levels(m as nat) == spec_levels(self.size_spec() as nat),
                spec_levels(self.size_spec() as nat) <= usize::MAX,
            decreases m,
        {
            let next = m / 2 + m % 2;
            proof {
                assert(next == (m + 1) as int / 2);
                lemma_levels_le(next as nat);
            }
            m = next;
            l = l + 1;
        }
        l
    }

    /// Inclusive range of committee indices on level `i`, or the reason none
    /// exists. Fails with `InvalidLevel` above the top level and with
    /// `EmptyLevel` when the opposite subtree lies wholly beyond the
    /// committee.
    pub fn range(&self, i: usize) -> (r: Result<(usize, usize), PartitioningError>)
        requires
            self.wf(),
        ensures
            match r {
                Ok((s, e)) => i < spec_levels(self.size_spec() as nat) && level_range(
                    self.node_id_spec(),
                    self.size_spec(),
                    i as int,
                ) == Some((s as int, e as int)) && s <= e < self.size_spec(),
                Err(PartitioningError::InvalidLevel { level }) => level == i && i >= spec_levels(
                    self.size_spec() as nat,
                ),
                Err(PartitioningError::EmptyLevel { level }) => level == i && i < spec_levels(
                    self.size_spec() as nat,
                ) && level_range(self.node_id_spec(), self.size_spec(), i as int) is None,
            },
    {
        let num_levels = self.levels();
        if i >= num_levels {
            return Err(PartitioningError::InvalidLevel { level: i });
        }
        if i == 0 {
            return Ok((self.node_id, self.node_id));
        }
        proof {
            lemma_levels_pow2(self.size as nat);
            lemma_pow2_mono((i - 1) as nat, (spec_levels(self.size_spec() as nat) - 2) as nat);
            vstd::arithmetic::power2::lemma_pow2_pos((i - 1) as nat);
        }
        let b = exec_pow2(i - 1);
        let ghost bi = b as int;
        // node / (2b), computed without forming 2b.
        let q = self.node_id / b / 2;
        proof {
            lemma_div_by_two_steps(self.node_id as int, bi);
            assert(q * 2 * bi == q * (2 * bi)) by (nonlinear_arith);
            lemma_fundamental_div_mod(self.node_id as int, 2 * bi);
            assert(q * (2 * bi) <= self.node_id_spec()) by (nonlinear_arith)
                requires
                    q == self.node_id_spec() / (2 * bi),
                    bi >= 1,
                    self.node_id_spec() >= 0,
            ;
        }
        let lo = q * 2 * b;
        let rem = self.node_id - lo;
        proof {
            lemma_fundamental_div_mod(self.node_id as int, 2 * bi);
            assert(lo == q * 2 * bi);
            assert(q * 2 * bi == (2 * bi) * q) by (nonlinear_arith);
            assert(q == self.node_id_spec() / (2 * bi));
            assert(rem == self.node_id_spec() % (2 * bi));
        }
        let s_opt: Option<usize> = if rem < b {
            lo.checked_add(b)
        } else {
            Some(lo)
        };
        let s = match s_opt {
            Some(s) => s,
            None => {
                proof {
                    assert(lo + bi > usize::MAX >= self.size_spec() - 1);
                }
                return Err(PartitioningError::EmptyLevel { level: i });
            },
        };
        if s >= self.size {
            return Err(PartitioningError::EmptyLevel { level: i });
        }
        let span = self.size - s;
        let e = if b <= span {
            s + b - 1
        } else {
            self.size - 1
        };
        Ok((s, e))
    }
}

/// Dividing twice is dividing by the product of the divisors.
proof fn lemma_div_by_two_steps(x: int, b: int)
    requires
        x >= 0,
        b >= 1,
    ensures
        x / b / 2 == x / (2 * b),
{
    lemma_fundamental_div_mod(x, b);
    lemma_fundamental_div_mod(x / b, 2);
    let q = x / b / 2;
    let r = (x / b) % 2;
    let rb = x % b;
    assert(x == q * (2 * b) + (r * b + rb)) by (nonlinear_arith)
        requires
            x == b * (x / b) + rb,
            x / b == 2 * q + r,
    ;
    assert(0 <= r * b + rb < 2 * b) by (nonlinear_arith)
        requires
            0 <= r < 2,
            0 <= rb < b,
    ;
    lemma_fundamental_div_mod_converse(x, 2 * b, q, r * b + rb);
}

} // verus!
