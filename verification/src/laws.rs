//! The guarantees the migration is built around, each stated over the spec
//! model and proved: idempotence of a re-run, injectivity and monotonicity of
//! id allocation, stability of the suffix-to-id mapping, and the value
//! deduplication rule.

use vstd::prelude::*;
use crate::codec::{u64_from_be, lemma_u64_be_round_trip};
use crate::engine::{StageState, init_state, staged_after, lemma_staged_after_shape};
use crate::resolver::spec_resolve;
use crate::rewrite::{
    already_migrated,
    dedup_value,
    lemma_first_sentinel_at,
    HASH_PREFIX_LEN,
    SENTINEL,
};

verus! {

/// Idempotence: a pass over records that are all already migrated stages
/// nothing and leaves the mapping, the counter and the batch exactly as they
/// were.
pub proof fn lemma_rerun_is_noop(recs: Seq<(Seq<u8>, Seq<u8>)>, st0: StageState)
    requires
        forall|i: int| 0 <= i < recs.len() ==> already_migrated((#[trigger] recs[i]).0),
    ensures
        staged_after(recs, st0) == st0,
    decreases recs.len(),
{
    if recs.len() > 0 {
        let prefix = recs.drop_last();
        assert forall|i: int| 0 <= i < prefix.len() implies already_migrated(
            (#[trigger] prefix[i]).0,
        ) by {
            assert(prefix[i] == recs[i]);
        }
        lemma_rerun_is_noop(prefix, st0);
        assert(already_migrated(recs[recs.len() - 1].0));
    }
}

/// Every mapped id is at most the counter: allocation never hands out an id
/// ahead of the scalar it advances.
pub open spec fn ids_bounded(m: Map<Seq<u8>, Seq<u8>>, c: u64) -> bool {
    forall|s: Seq<u8>| #[trigger] m.contains_key(s) ==> u64_from_be(m[s]) <= c
}

/// No two distinct suffixes share a short id.
pub open spec fn ids_injective(m: Map<Seq<u8>, Seq<u8>>) -> bool {
    forall|s1: Seq<u8>, s2: Seq<u8>|
        #[trigger] m.contains_key(s1) && #[trigger] m.contains_key(s2) && s1 != s2 ==> u64_from_be(
            m[s1],
        ) != u64_from_be(m[s2])
}

/// A pass keeps every mapped id at or below the counter, and moves the
/// counter up by at most one per record.
pub proof fn lemma_ids_bounded(recs: Seq<(Seq<u8>, Seq<u8>)>, st0: StageState)
    requires
        ids_bounded(st0.mapping, st0.counter),
        st0.counter + recs.len() <= u64::MAX,
    ensures
        ({
            let st = staged_after(recs, st0);
            &&& ids_bounded(st.mapping, st.counter)
            &&& st0.counter <= st.counter
            &&& st.counter <= st0.counter + recs.len()
        }),
    decreases recs.len(),
{
    if recs.len() > 0 {
        let prefix = recs.drop_last();
        lemma_ids_bounded(prefix, st0);
        let st1 = staged_after(prefix, st0);
        let k = recs.last().0;
        let s = crate::rewrite::suffix_of(k);
        if !already_migrated(k) && !st1.mapping.contains_key(s) {
            lemma_u64_be_round_trip(((st1.counter + 1) as u64));
        }
    }
}

/// Injectivity: a pass preserves the invariant that distinct suffixes carry
/// distinct ids, because every freshly allocated id is strictly above every
/// id already handed out.
pub proof fn lemma_ids_injective(recs: Seq<(Seq<u8>, Seq<u8>)>, st0: StageState)
    requires
        ids_bounded(st0.mapping, st0.counter),
        ids_injective(st0.mapping),
        st0.counter + recs.len() <= u64::MAX,
    ensures
        ids_injective(staged_after(recs, st0).mapping),
    decreases recs.len(),
{
    if recs.len() > 0 {
        let prefix = recs.drop_last();
        lemma_ids_bounded(prefix, st0);
        lemma_ids_injective(prefix, st0);
        let st1 = staged_after(prefix, st0);
        let k = recs.last().0;
        let s = crate::rewrite::suffix_of(k);
        if !already_migrated(k) && !st1.mapping.contains_key(s) {
            lemma_u64_be_round_trip(((st1.counter + 1) as u64));
        }
    }
}

/// The counter advances by exactly one per fresh suffix: its movement counts
/// the new mapping entries.
pub proof fn lemma_counter_counts_new_ids(recs: Seq<(Seq<u8>, Seq<u8>)>, st0: StageState)
    requires
        st0.mapping.dom().finite(),
        st0.counter + recs.len() <= u64::MAX,
    ensures
        ({
            let st = staged_after(recs, st0);
            &&& st.mapping.dom().finite()
            &&& st0.counter <= st.counter
            &&& st.counter <= st0.counter + recs.len()
            &&& st.counter - st0.counter == st.mapping.dom().len() - st0.mapping.dom().len()
        }),
    decreases recs.len(),
{
    if recs.len() > 0 {
        let prefix = recs.drop_last();
        lemma_counter_counts_new_ids(prefix, st0);
        let st1 = staged_after(prefix, st0);
        let st = staged_after(recs, st0);
        let k = recs.last().0;
        let s = crate::rewrite::suffix_of(k);
        if !already_migrated(k) && !st1.mapping.contains_key(s) {
            assert(st.mapping.dom() =~= st1.mapping.dom().insert(s));
            vstd::set::axiom_set_insert_len(st1.mapping.dom(), s);
        }
    }
}

/// Injectivity and monotonicity of a fresh allocation run: starting from an
/// empty mapping and a zero counter, a pass leaves pairwise distinct ids,
/// each between one and the final counter, and the counter equals the number
/// of suffixes mapped.
pub proof fn lemma_fresh_allocation(recs: Seq<(Seq<u8>, Seq<u8>)>)
    requires
        forall|i: int| 0 <= i < recs.len() ==> (#[trigger] recs[i]).0.len() > HASH_PREFIX_LEN,
        recs.len() <= u64::MAX,
    ensures
        ({
            let st = staged_after(recs, init_state(Map::empty(), 0));
            &&& ids_injective(st.mapping)
            &&& st.mapping.dom().finite()
            &&& st.counter == st.mapping.dom().len()
            &&& forall|s: Seq<u8>|
                #[trigger] st.mapping.contains_key(s) ==> 1 <= u64_from_be(st.mapping[s])
                    <= st.counter
        }),
{
    let st0 = init_state(Map::empty(), 0);
    lemma_ids_injective(recs, st0);
    lemma_ids_bounded(recs, st0);
    lemma_counter_counts_new_ids(recs, st0);
    lemma_staged_after_shape(recs, st0);
    assert(st0.mapping.dom() =~= Set::empty());
}

/// Splitting a fold at any point composes: staging a concatenation is
/// staging the first part, then the second from where the first ended.
pub proof fn lemma_staged_after_concat(
    a: Seq<(Seq<u8>, Seq<u8>)>,
    b: Seq<(Seq<u8>, Seq<u8>)>,
    st0: StageState,
)
    ensures
        staged_after(a + b, st0) == staged_after(b, staged_after(a, st0)),
    decreases b.len(),
{
    if b.len() == 0 {
        assert(a + b =~= a);
    } else {
        assert((a + b).drop_last() =~= a + b.drop_last());
        assert((a + b).last() == b.last());
        lemma_staged_after_concat(a, b.drop_last(), st0);
    }
}

/// Ids follow the order of first encounter: a suffix already mapped after
/// some prefix of the pass carries a smaller id than any suffix first mapped
/// only in the remainder.
pub proof fn lemma_ids_follow_first_encounter(
    recs: Seq<(Seq<u8>, Seq<u8>)>,
    st0: StageState,
    i: int,
    s1: Seq<u8>,
    s2: Seq<u8>,
)
    requires
        forall|t: int| 0 <= t < recs.len() ==> (#[trigger] recs[t]).0.len() > HASH_PREFIX_LEN,
        ids_bounded(st0.mapping, st0.counter),
        st0.counter + recs.len() <= u64::MAX,
        0 <= i <= recs.len(),
        staged_after(recs.take(i), st0).mapping.contains_key(s1),
        !staged_after(recs.take(i), st0).mapping.contains_key(s2),
        staged_after(recs, st0).mapping.contains_key(s2),
    ensures
        u64_from_be(staged_after(recs, st0).mapping[s1]) < u64_from_be(
            staged_after(recs, st0).mapping[s2],
        ),
{
    let sti = staged_after(recs.take(i), st0);
    let rest = recs.skip(i);
    assert(recs.take(i) + rest =~= recs);
    lemma_staged_after_concat(recs.take(i), rest, st0);
    assert forall|t: int| 0 <= t < recs.take(i).len() implies (#[trigger] recs.take(
        i,
    )[t]).0.len() > HASH_PREFIX_LEN by {
        assert(recs.take(i)[t] == recs[t]);
    }
    assert forall|t: int| 0 <= t < rest.len() implies (#[trigger] rest[t]).0.len()
        > HASH_PREFIX_LEN by {
        assert(rest[t] == recs[t + i]);
    }
    lemma_ids_bounded(recs.take(i), st0);
    lemma_staged_after_shape(rest, sti);
}

/// Resolving the same suffix twice returns the same id, and the second
/// resolution changes neither the mapping nor the counter.
pub proof fn lemma_resolve_stable(m: Map<Seq<u8>, Seq<u8>>, c: u64, s: Seq<u8>)
    requires
        c < u64::MAX,
    ensures
        ({
            let first = spec_resolve(m, c, s);
            let again = spec_resolve(first.1, first.2, s);
            &&& again.0 == first.0
            &&& again.1 == first.1
            &&& again.2 == first.2
        }),
{
    if !m.contains_key(s) {
        lemma_u64_be_round_trip(((c + 1) as u64));
    }
}

/// The value deduplication rule: a two-part value whose part lengths, with
/// the separator, do not sum to eight is replaced by its second part; one
/// summing to exactly eight is kept whole.
pub proof fn lemma_dedup_two_parts(part0: Seq<u8>, part1: Seq<u8>)
    requires
        forall|j: int| 0 <= j < part0.len() ==> part0[j] != SENTINEL,
    ensures
        part0.len() + part1.len() + 1 != 8 ==> dedup_value(part0 + seq![SENTINEL] + part1)
            == part1,
        part0.len() + part1.len() + 1 == 8 ==> dedup_value(part0 + seq![SENTINEL] + part1) == part0
            + seq![SENTINEL] + part1,
{
    let v = part0 + seq![SENTINEL] + part1;
    assert(v[part0.len() as int] == SENTINEL);
    assert forall|j: int| 0 <= j < part0.len() implies v[j] != SENTINEL by {
        assert(v[j] == part0[j]);
    }
    lemma_first_sentinel_at(v, part0.len() as int);
    assert(v.subrange(part0.len() as int + 1, v.len() as int) =~= part1);
}

/// A value with no sentinel byte is never rewritten.
pub proof fn lemma_dedup_no_sentinel(v: Seq<u8>)
    requires
        forall|j: int| 0 <= j < v.len() ==> v[j] != SENTINEL,
    ensures
        dedup_value(v) == v,
{
    lemma_first_sentinel_at(v, v.len() as int);
}

} // verus!
