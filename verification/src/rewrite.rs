//! The per-record rewrite rules: splitting a legacy key into hash prefix,
//! marker and suffix, building the migrated key, and dropping the redundant
//! first part of a two-part value.

use vstd::prelude::*;
use crate::codec::u64_to_be;

verus! {

/// Length of the fixed leading hash prefix of every record key.
pub const HASH_PREFIX_LEN: usize = 32;

/// Separator written into migrated keys, and the delimiter of two-part values.
pub const SENTINEL: u8 = 0xFF;

/// A migrated key's remainder after the hash prefix: one separator byte plus
/// an eight-byte short id.
pub const MIGRATED_REST_LEN: usize = 9;

/// Index of the first sentinel byte of `v`, or `v.len()` if it has none.
pub open spec fn first_sentinel(v: Seq<u8>) -> int
    decreases v.len(),
{
    if v.len() == 0 {
        0
    } else if v[0] == SENTINEL {
        0
    } else {
        1 + first_sentinel(v.drop_first())
    }
}

/// The first position at or after which `v` holds a sentinel determines the
/// split; a position clean of sentinels up to a sentinel (or the end) is it.
pub proof fn lemma_first_sentinel_at(v: Seq<u8>, i: int)
    requires
        0 <= i <= v.len(),
        forall|j: int| 0 <= j < i ==> v[j] != SENTINEL,
        i < v.len() ==> v[i] == SENTINEL,
    ensures
        first_sentinel(v) == i,
    decreases v.len(),
{
    if v.len() == 0 {
    } else if v[0] == SENTINEL {
    } else {
        assert forall|j: int| 0 <= j < i - 1 implies v.drop_first()[j] != SENTINEL by {
            assert(v[j + 1] != SENTINEL);
        }
        lemma_first_sentinel_at(v.drop_first(), i - 1);
    }
}

/// The migrated value: split `v` on its first sentinel into at most two
/// parts; when the split yields two parts whose lengths, with the separator,
/// do not sum to eight, keep only the second part; otherwise keep `v`.
pub open spec fn dedup_value(v: Seq<u8>) -> Seq<u8> {
    let i = first_sentinel(v);
    if i < v.len() && i + (v.len() - i - 1) + 1 != 8 {
        v.subrange(i + 1, v.len() as int)
    } else {
        v
    }
}

/// Compute the migrated value of `v`.
pub fn dedup(v: &Vec<u8>) -> (r: Vec<u8>)
    ensures
        r@ == dedup_value(v@),
{
    let mut i: usize = 0;
    while i < v.len() && v[i] != SENTINEL
        invariant
            0 <= i <= v@.len(),
            forall|j: int| 0 <= j < i ==> v@[j] != SENTINEL,
        decreases v@.len() - i,
    {
        i = i + 1;
    }
    proof {
        lemma_first_sentinel_at(v@, i as int);
    }
    if i < v.len() && i + (v.len() - i - 1) + 1 != 8 {
        let mut r: Vec<u8> = Vec::new();
        let mut j: usize = i + 1;
        while j < v.len()
            invariant
                i + 1 <= j <= v@.len(),
                r@ == v@.subrange(i + 1, j as int),
            decreases v@.len() - j,
        {
            r.push(v[j]);
            j = j + 1;
            proof {
                assert(r@ =~= v@.subrange(i + 1, j as int));
            }
        }
        proof {
            assert(r@ =~= dedup_value(v@));
        }
        r
    } else {
        let mut r: Vec<u8> = Vec::new();
        let mut j: usize = 0;
        while j < v.len()
            invariant
                0 <= j <= v@.len(),
                r@ == v@.subrange(0, j as int),
            decreases v@.len() - j,
        {
            r.push(v[j]);
            j = j + 1;
            proof {
                assert(r@ =~= v@.subrange(0, j as int));
            }
        }
        proof {
            assert(r@ =~= dedup_value(v@));
        }
        r
    }
}

/// The 32-byte hash prefix of a record key.
pub open spec fn hash_prefix(k: Seq<u8>) -> Seq<u8>
    recommends
        k.len() >= HASH_PREFIX_LEN,
{
    k.subrange(0, HASH_PREFIX_LEN as int)
}

/// The legacy suffix of a record key: everything after the hash prefix and
/// the one marker byte.
pub open spec fn suffix_of(k: Seq<u8>) -> Seq<u8>
    recommends
        k.len() > HASH_PREFIX_LEN,
{
    k.subrange(HASH_PREFIX_LEN + 1, k.len() as int)
}

/// A record is already migrated exactly when its remainder after the hash
/// prefix is nine bytes: the separator plus an eight-byte short id.
pub open spec fn already_migrated(k: Seq<u8>) -> bool
    recommends
        k.len() >= HASH_PREFIX_LEN,
{
    k.len() - HASH_PREFIX_LEN == MIGRATED_REST_LEN
}

/// The migrated key for a legacy key `k` under short id `id`.
pub open spec fn migrated_key(k: Seq<u8>, id: u64) -> Seq<u8>
    recommends
        k.len() >= HASH_PREFIX_LEN,
{
    hash_prefix(k) + seq![SENTINEL] + u64_to_be(id)
}

/// Build the migrated key for legacy key `k` under short id `id`.
pub fn build_migrated_key(k: &Vec<u8>, id: u64) -> (r: Vec<u8>)
    requires
        k@.len() > HASH_PREFIX_LEN,
    ensures
        r@ == migrated_key(k@, id),
        r@.len() == 41,
{
    let mut r: Vec<u8> = Vec::new();
    let mut j: usize = 0;
    while j < HASH_PREFIX_LEN
        invariant
            0 <= j <= HASH_PREFIX_LEN,
            k@.len() > HASH_PREFIX_LEN,
            r@ == k@.subrange(0, j as int),
        decreases HASH_PREFIX_LEN - j,
    {
        r.push(k[j]);
        j = j + 1;
        proof {
            assert(r@ =~= k@.subrange(0, j as int));
        }
    }
    r.push(SENTINEL);
    let id_bytes = crate::codec::encode_u64(id);
    let mut j: usize = 0;
    while j < id_bytes.len()
        invariant
            0 <= j <= id_bytes@.len(),
            id_bytes@ == u64_to_be(id),
            k@.len() > HASH_PREFIX_LEN,
            r@ == hash_prefix(k@) + seq![SENTINEL] + id_bytes@.subrange(0, j as int),
        decreases id_bytes@.len() - j,
    {
        r.push(id_bytes[j]);
        j = j + 1;
        proof {
            assert(r@ =~= hash_prefix(k@) + seq![SENTINEL] + id_bytes@.subrange(0, j as int));
        }
    }
    proof {
        assert(id_bytes@.subrange(0, 8) =~= u64_to_be(id));
        assert(r@ =~= migrated_key(k@, id));
    }
    r
}

} // verus!
