//! Wire codec for updates, the network-facing surface of the protocol.
//!
//! An update carries the contributor bit set (length-prefixed, packed
//! little-endian with committee index `i` at bit `i % 8` of byte `i / 8`),
//! the signature payload (length-prefixed), the level id, and the sender
//! index. All length and index prefixes are little-endian.
//!
//! Decoding an encoding yields back exactly what was encoded; see
//! `lemma_update_roundtrip`.

use vstd::prelude::*;

use vstd::arithmetic::power2::{lemma2_to64, lemma_pow2_unfold, pow2};

use crate::bitset::BitSet;
use crate::contribution::{Contribution, ContributionView};
use crate::partitioner::lemma_pow2_mono;

verus! {

/// Value of a bit sequence read least-significant-first.
pub open spec fn bits_val(s: Seq<bool>) -> nat
    decreases s.len(),
{
    if s.len() == 0 {
        0
    } else {
        (if s[0] {
            1nat
        } else {
            0nat
        }) + 2 * bits_val(s.skip(1))
    }
}

/// Bit `k` of the value `v`.
pub open spec fn nth_bit(v: nat, k: int) -> bool
    decreases k,
{
    if k <= 0 {
        v % 2 == 1
    } else {
        nth_bit(v / 2, k - 1)
    }
}

/// Bits `8j..min(8j+8, len)` of a bit sequence.
pub open spec fn chunk_of(s: Seq<bool>, j: int) -> Seq<bool> {
    s.subrange(
        8 * j,
        if 8 * j + 8 <= s.len() {
            8 * j + 8
        } else {
            s.len() as int
        },
    )
}

/// The packed bytes of a bit sequence.
pub open spec fn encode_bits(s: Seq<bool>) -> Seq<u8> {
    Seq::new(((s.len() + 7) / 8) as nat, |j: int| bits_val(chunk_of(s, j)) as u8)
}

/// `n` bits read back out of packed bytes.
pub open spec fn decode_bits(bytes: Seq<u8>, n: int) -> Seq<bool> {
    Seq::new(n as nat, |i: int| nth_bit(bytes[i / 8] as nat, i % 8))
}

/// Low byte of a 16-bit length or index.
pub open spec fn lo16(x: int) -> u8 {
    (x % 256) as u8
}

/// High byte of a 16-bit length or index.
pub open spec fn hi16(x: int) -> u8 {
    (x / 256 % 256) as u8
}

/// The wire bytes of one update.
pub open spec fn encode_update_model(sender: u16, level: u8, c: ContributionView) -> Seq<u8> {
    seq![lo16(c.contributors.len() as int), hi16(c.contributors.len() as int)] + encode_bits(
        c.contributors,
    ) + seq![lo16(c.signature.len() as int), hi16(c.signature.len() as int)] + c.signature + seq![
        level,
    ] + seq![lo16(sender as int), hi16(sender as int)]
}

/// The update read back out of wire bytes, if they are well-formed.
pub open spec fn decode_update_model(b: Seq<u8>) -> Option<(u16, u8, ContributionView)> {
    if b.len() < 2 {
        None
    } else {
        let n = b[0] + 256 * b[1];
        let nb = (n + 7) / 8;
        if b.len() < 2 + nb + 2 {
            None
        } else {
            let sl = b[2 + nb] + 256 * b[3 + nb];
            if b.len() != 2 + nb + 2 + sl + 3 {
                None
            } else {
                let bits = decode_bits(b.subrange(2, 2 + nb), n as int);
                let sig = b.subrange(4 + nb, 4 + nb + sl);
                let level = b[4 + nb + sl];
                let sender = (b[5 + nb + sl] + 256 * b[6 + nb + sl]) as u16;
                Some((sender, level, ContributionView { contributors: bits, signature: sig }))
            }
        }
    }
}

/// A bit sequence's value stays below two to its length.
pub proof fn lemma_bits_val_bound(s: Seq<bool>)
    ensures
        bits_val(s) < pow2(s.len()),
    decreases s.len(),
{
    if s.len() == 0 {
        lemma2_to64();
    } else {
        lemma_bits_val_bound(s.skip(1));
        lemma_pow2_unfold(s.len());
    }
}

/// Reading bit `k` out of a bit sequence's value gives the original bit.
pub proof fn lemma_nth_bit_of_val(s: Seq<bool>, k: int)
    requires
        0 <= k < s.len(),
    ensures
        nth_bit(bits_val(s), k) == s[k],
    decreases k,
{
    let rest = bits_val(s.skip(1));
    let b: nat = if s[0] {
        1
    } else {
        0
    };
    assert(bits_val(s) == b + 2 * rest);
    assert((b + 2 * rest) % 2 == b) by (nonlinear_arith)
        requires
            b == 0 || b == 1,
            rest >= 0,
    ;
    if k == 0 {
    } else {
        assert((b + 2 * rest) / 2 == rest) by (nonlinear_arith)
            requires
                b == 0 || b == 1,
                rest >= 0,
        ;
        lemma_nth_bit_of_val(s.skip(1), k - 1);
        assert(s.skip(1)[k - 1] == s[k]);
    }
}

/// Packing bits into bytes and reading them back is the identity.
pub proof fn lemma_bits_roundtrip(s: Seq<bool>)
    ensures
        decode_bits(encode_bits(s), s.len() as int) =~= s,
{
    let d = decode_bits(encode_bits(s), s.len() as int);
    assert forall|i: int| 0 <= i < s.len() implies d[i] == s[i] by {
        let j = i / 8;
        let k = i % 8;
        assert(0 <= j < (s.len() + 7) / 8);
        assert(encode_bits(s)[j] == bits_val(chunk_of(s, j)) as u8);
        lemma_bits_val_bound(chunk_of(s, j));
        lemma_pow2_mono(chunk_of(s, j).len(), 8);
        lemma2_to64();
        assert(chunk_of(s, j)[k] == s[i]);
        lemma_nth_bit_of_val(chunk_of(s, j), k);
    }
}

/// Decoding an encoded update yields back the sender, the level, and an
/// equal contribution, contributor bit set included.
pub proof fn lemma_update_roundtrip(sender: u16, level: u8, c: ContributionView)
    requires
        c.contributors.len() <= 65535,
        c.signature.len() <= 65535,
    ensures
        decode_update_model(encode_update_model(sender, level, c)) == Some((sender, level, c)),
{
    let e = encode_update_model(sender, level, c);
    let n = c.contributors.len() as int;
    let nb = (n + 7) / 8;
    let sl = c.signature.len() as int;
    assert(encode_bits(c.contributors).len() == nb);
    assert(e.len() == 2 + nb + 2 + sl + 3);
    assert(e[0] == lo16(n) && e[1] == hi16(n));
    assert(e[0] + 256 * e[1] == n);
    assert(e[2 + nb] == lo16(sl) && e[3 + nb] == hi16(sl));
    assert(e[2 + nb] + 256 * e[3 + nb] == sl);
    assert(e.subrange(2, 2 + nb) =~= encode_bits(c.contributors));
    lemma_bits_roundtrip(c.contributors);
    assert(decode_bits(e.subrange(2, 2 + nb), n) =~= c.contributors);
    assert(e.subrange(4 + nb, 4 + nb + sl) =~= c.signature);
    assert(e[4 + nb + sl] == level);
    assert(e[5 + nb + sl] == lo16(sender as int) && e[6 + nb + sl] == hi16(sender as int));
    assert(e[5 + nb + sl] + 256 * e[6 + nb + sl] == sender as int);
}

/// Encodes one update for the transport.
pub fn encode_update(sender: u16, level: u8, c: &Contribution) -> (r: Vec<u8>)
    requires
        c@.contributors.len() <= 65535,
        c@.signature.len() <= 65535,
    ensures
        r@ == encode_update_model(sender, level, c@),
{
    let mut out: Vec<u8> = Vec::new();
    let cb = c.contributors_ref();
    let n = cb.len();
    out.push((n % 256) as u8);
    out.push((n / 256 % 256) as u8);
    let nb = (n + 7) / 8;
    let ghost bits = c@.contributors;

    let mut j: usize = 0;
    while j < nb
        invariant
            j <= nb,
            nb == (bits.len() + 7) / 8,
            n == bits.len(),
            n <= 65535,
            cb@ == bits,
            out@ =~= seq![lo16(n as int), hi16(n as int)] + encode_bits(bits).take(j as int),
        decreases nb - j,
    {
        let m: usize = if 8 * j + 8 <= n {
            8
        } else {
            n - 8 * j
        };
        let ghost chunk = chunk_of(bits, j as int);
        proof {
            assert(chunk.len() == m);
        }
        let mut acc: u16 = 0;
        let mut k: usize = m;
        proof {
            assert(chunk.skip(m as int) =~= Seq::<bool>::empty());
        }
        while k > 0
            invariant
                k <= m,
                m <= 8,
                8 * j + m <= n,
                n == bits.len(),
                cb@ == bits,
                chunk == chunk_of(bits, j as int),
                chunk.len() == m,
                acc as nat == bits_val(chunk.skip(k as int)),
                acc < 256,
            decreases k,
        {
            let bit = cb.contains(8 * j + (k - 1));
            proof {
                assert(chunk.skip(k - 1)[0] == chunk[k - 1]);
                assert(chunk[k - 1] == bits[8 * j + (k - 1)]);
                assert(chunk.skip(k - 1).skip(1) =~= chunk.skip(k as int));
                lemma_bits_val_bound(chunk.skip(k - 1));
                lemma_pow2_mono(chunk.skip(k - 1).len(), 8);
                lemma2_to64();
            }
            acc = (if bit {
                1
            } else {
                0
            }) + 2 * acc;
            k = k - 1;
        }
        proof {
            assert(chunk.skip(0) =~= chunk);
            assert(encode_bits(bits)[j as int] == bits_val(chunk) as u8);
            assert(encode_bits(bits).take(j + 1) =~= encode_bits(bits).take(j as int).push(
                bits_val(chunk) as u8,
            ));
        }
        out.push(acc as u8);
        j = j + 1;
    }
    proof {
        assert(encode_bits(bits).take(nb as int) =~= encode_bits(bits));
    }

    let sl = c.signature().len();
    out.push((sl % 256) as u8);
    out.push((sl / 256 % 256) as u8);
    let mut t: usize = 0;
    while t < sl
        invariant
            t <= sl,
            sl == c@.signature.len(),
            n == c@.contributors.len(),
            n <= 65535,
            nb == (n + 7) / 8,
            out@ =~= seq![lo16(n as int), hi16(n as int)] + encode_bits(c@.contributors) + seq![
                lo16(sl as int),
                hi16(sl as int),
            ] + c@.signature.take(t as int),
        decreases sl - t,
    {
        let b = c.signature()[t];
        out.push(b);
        t = t + 1;
    }
    proof {
        assert(c@.signature.take(sl as int) =~= c@.signature);
    }
    out.push(level);
    out.push((sender % 256) as u8);
    out.push((sender / 256) as u8);
    proof {
        assert(sender / 256 % 256 == sender / 256) by {
            assert(sender / 256 < 256);
        }
        assert(out@ =~= encode_update_model(sender, level, c@));
    }
    out
}

/// Decodes one update from the transport; malformed bytes yield nothing.
pub fn decode_update(bytes: &Vec<u8>) -> (r: Option<(u16, u8, Contribution)>)
    ensures
        match r {
            Some((sender, level, c)) => decode_update_model(bytes@) == Some((sender, level, c@)),
            None => decode_update_model(bytes@) is None,
        },
{
    let len = bytes.len();
    if len < 2 {
        return None;
    }
    let n = bytes[0] as usize + 256 * (bytes[1] as usize);
    let nb = (n + 7) / 8;
    if len < 2 + nb + 2 {
        return None;
    }
    let sl = bytes[2 + nb] as usize + 256 * (bytes[3 + nb] as usize);
    if len != 2 + nb + 2 + sl + 3 {
        return None;
    }

    let mut bools: Vec<bool> = Vec::new();
    let mut i: usize = 0;
    while i < n
        invariant
            i <= n,
            nb == (n + 7) / 8,
            bytes@.len() == 2 + nb + 2 + sl + 3,
            bools@.len() == i,
            forall|x: int|
                0 <= x < i ==> bools@[x] == nth_bit(bytes@[2 + x / 8] as nat, x % 8),
        decreases n - i,
    {
        let byte = bytes[2 + i / 8];
        let sh = i % 8;
        let mut v = byte;
        let mut k: usize = 0;
        while k < sh
            invariant
                k <= sh,
                forall|t: int|
                    t >= 0 ==> #[trigger] nth_bit(v as nat, t) == nth_bit(
                        byte as nat,
                        k + t,
                    ),
            decreases sh - k,
        {
            proof {
                assert forall|t: int| t >= 0 implies #[trigger] nth_bit(
                    (v / 2) as nat,
                    t,
                ) == nth_bit(byte as nat, k + 1 + t) by {
                    assert(nth_bit(v as nat, t + 1) == nth_bit((v / 2) as nat, t));
                }
            }
            v = v / 2;
            k = k + 1;
        }
        proof {
            assert(nth_bit(v as nat, 0) == (v as nat % 2 == 1));
            assert(nth_bit(v as nat, 0) == nth_bit(byte as nat, sh as int));
        }
        bools.push(v % 2 == 1);
        i = i + 1;
    }
    proof {
        assert(bools@ =~= decode_bits(bytes@.subrange(2, 2 + nb), n as int));
    }

    let mut sig: Vec<u8> = Vec::new();
    let mut t: usize = 0;
    while t < sl
        invariant
            t <= sl,
            nb <= 8192,
            sl <= 65535,
            bytes@.len() == 2 + nb + 2 + sl + 3,
            sig@ =~= bytes@.subrange(4 + nb, 4 + nb + t),
        decreases sl - t,
    {
        proof {
            assert(bytes@.subrange(4 + nb, 4 + nb + t + 1) =~= bytes@.subrange(
                4 + nb,
                4 + nb + t,
            ).push(bytes@[4 + nb + t]));
        }
        sig.push(bytes[4 + nb + t]);
        t = t + 1;
    }

    let level = bytes[4 + nb + sl];
    let sender = bytes[5 + nb + sl] as u16 + 256 * (bytes[6 + nb + sl] as u16);
    let c = Contribution::new(BitSet::from_bools(bools), sig);
    Some((sender, level, c))
}

} // verus!
