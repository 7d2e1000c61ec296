//! The two independent 64-bit hashes of a key that double hashing combines
//! into probe positions.
use vstd::prelude::*;

verus! {

/// The starting value of the first hash.
pub const FNV_OFFSET: u64 = 0xcbf29ce484222325;

/// The multiplier of the first hash.
pub const FNV_PRIME: u64 = 0x100000001b3;

/// The multiplier of the second hash.
pub const SDBM_PRIME: u64 = 65599;

/// The first hash: 64-bit FNV-1a over the key's bytes.
#[verifier::opaque]
pub open spec fn fnv1a(s: Seq<u8>) -> u64
    decreases s.len(),
{
    if s.len() == 0 {
        FNV_OFFSET
    } else {
        (fnv1a(s.drop_last()) ^ (s.last() as u64)).wrapping_mul(FNV_PRIME)
    }
}

/// The second hash: 64-bit sdbm over the key's bytes.
#[verifier::opaque]
pub open spec fn sdbm(s: Seq<u8>) -> u64
    decreases s.len(),
{
    if s.len() == 0 {
        0
    } else {
        sdbm(s.drop_last()).wrapping_mul(SDBM_PRIME).wrapping_add(s.last() as u64)
    }
}

/// Both hashes of `key`.
pub fn hash_pair(key: &[u8]) -> (r: (u64, u64))
    ensures
        r.0 == fnv1a(key@),
        r.1 == sdbm(key@),
{
    proof {
        reveal(fnv1a);
        reveal(sdbm);
    }
    let mut h1: u64 = FNV_OFFSET;
    let mut h2: u64 = 0;
    let mut i: usize = 0;
    while i < key.len()
        invariant
            i <= key@.len(),
            h1 == fnv1a(key@.take(i as int)),
            h2 == sdbm(key@.take(i as int)),
        decreases key@.len() - i,
    {
        let b = key[i];
        assert(key@.take(i + 1).drop_last() =~= key@.take(i as int));
        proof {
            reveal(fnv1a);
            reveal(sdbm);
        }
        h1 = (h1 ^ (b as u64)).wrapping_mul(FNV_PRIME);
        h2 = h2.wrapping_mul(SDBM_PRIME).wrapping_add(b as u64);
        i += 1;
    }
    assert(key@.take(i as int) =~= key@);
    (h1, h2)
}

/// Probe `i` of a key with hashes `h1` and `h2` over `m` positions.
#[verifier::opaque]
pub open spec fn probe_of(h1: u64, h2: u64, i: u64, m: u64) -> u64
    recommends
        m > 0,
{
    (h1.wrapping_add(i.wrapping_mul(h2))) % m
}

/// Probe `i` of `key` over `m` positions.
#[verifier::opaque]
pub open spec fn probe(key: Seq<u8>, i: u64, m: u64) -> u64 {
    probe_of(fnv1a(key), sdbm(key), i, m)
}

/// Every probe lies below the number of positions.
pub proof fn lemma_probe_bound(key: Seq<u8>, i: u64, m: u64)
    requires
        m > 0,
    ensures
        probe(key, i, m) < m,
{
    reveal(probe);
    reveal(probe_of);
}

/// A key's probes are those of its two hashes.
pub proof fn lemma_probe(key: Seq<u8>, h1: u64, h2: u64, i: u64, m: u64)
    requires
        h1 == fnv1a(key),
        h2 == sdbm(key),
    ensures
        probe(key, i, m) == probe_of(h1, h2, i, m),
{
    reveal(probe);
}

/// Probe `i` over `m` positions, from the two hashes.
pub fn probe_position(h1: u64, h2: u64, i: u64, m: u64) -> (r: u64)
    requires
        m > 0,
    ensures
        r == probe_of(h1, h2, i, m),
        r < m,
{
    reveal(probe_of);
    (h1.wrapping_add(i.wrapping_mul(h2))) % m
}

} // verus!
