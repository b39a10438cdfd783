//! The key rewrite engine: one pass over the scanned records that skips
//! already-migrated keys, resolves each legacy suffix to its short id, and
//! stages the insert of the migrated key/value pair and the removal of the
//! legacy key; then one terminal batch apply.

use vstd::prelude::*;
use vstd::slice::{slice_subrange, slice_to_vec};
use crate::codec::u64_from_be;
use crate::counter::{counter_value, counter_wf};
use crate::error::MigrateError;
use crate::resolver::{spec_resolve, resolve};
use crate::rewrite::{
    already_migrated,
    build_migrated_key,
    dedup,
    dedup_value,
    migrated_key,
    suffix_of,
    HASH_PREFIX_LEN,
    MIGRATED_REST_LEN,
};
use crate::store::{
    apply_writes,
    batch_insert,
    batch_new,
    batch_remove,
    batch_writes,
    lex_lt,
    lemma_lex_lt_asymmetric,
    tree_view,
};

verus! {

/// The state a pass builds up: the mapping table, the counter, the staged
/// batch writes, and how many records have been staged.
pub ghost struct StageState {
    pub mapping: Map<Seq<u8>, Seq<u8>>,
    pub counter: u64,
    pub writes: Map<Seq<u8>, Option<Seq<u8>>>,
    pub staged: nat,
}

/// The state a pass starts from: the mapping and counter found in the store,
/// an empty batch, and nothing staged.
pub open spec fn init_state(mapping: Map<Seq<u8>, Seq<u8>>, counter: u64) -> StageState {
    StageState {
        mapping: mapping,
        counter: counter,
        writes: Map::empty(),
        staged: 0,
    }
}

/// What staging one record does: an already-migrated record is skipped; a
/// legacy record resolves its suffix and stages the insert of the migrated
/// key and deduplicated value, and the removal of the legacy key.
pub open spec fn stage_record(st: StageState, k: Seq<u8>, v: Seq<u8>) -> StageState
    recommends
        k.len() > HASH_PREFIX_LEN,
{
    if already_migrated(k) {
        st
    } else {
        let folded = spec_resolve(st.mapping, st.counter, suffix_of(k));
        StageState {
            mapping: folded.1,
            counter: folded.2,
            writes: st.writes.insert(migrated_key(k, folded.0), Some(dedup_value(v))).insert(
                k,
                None,
            ),
            staged: st.staged + 1,
        }
    }
}

/// The staging state after a whole sequence of records.
pub open spec fn staged_after(recs: Seq<(Seq<u8>, Seq<u8>)>, st: StageState) -> StageState
    decreases recs.len(),
{
    if recs.len() == 0 {
        st
    } else {
        stage_record(staged_after(recs.drop_last(), st), recs.last().0, recs.last().1)
    }
}

/// The scanned records as byte-string pairs.
pub open spec fn rec_views(recs: Seq<(Vec<u8>, Vec<u8>)>) -> Seq<(Seq<u8>, Seq<u8>)> {
    recs.map_values(|p: (Vec<u8>, Vec<u8>)| (p.0@, p.1@))
}

/// Scan-order staging: skip each record whose remainder after the hash prefix
/// is already nine bytes; resolve every other record's suffix and stage its
/// rewrite.  On success the batch, the count of staged records, the mapping
/// table and the counter are exactly what `staged_after` says of the records.
/// On error, mapping entries present at the start keep their values, the
/// counter never goes down, the mapping and counter match the staging model
/// of some prefix of the records (the counter at most one ahead, for an
/// allocation whose mapping insert then failed), and a corruption error
/// points at a malformed pre-existing mapping entry of a scanned suffix or a
/// malformed counter scalar.
pub fn stage_all(
    records: &Vec<(Vec<u8>, Vec<u8>)>,
    mapping: &mut sled::Tree,
    globals: &mut sled::Tree,
) -> (r: Result<(sled::Batch, usize), MigrateError>)
    requires
        forall|i: int|
            0 <= i < records@.len() ==> (#[trigger] records@[i]).0@.len() > HASH_PREFIX_LEN,
        counter_value(tree_view(*old(globals))) + records@.len() <= u64::MAX,
    ensures
        r matches Ok(p) ==> {
            let st = staged_after(
                rec_views(records@),
                init_state(tree_view(*old(mapping)), counter_value(tree_view(*old(globals)))),
            );
            &&& batch_writes(p.0) == st.writes
            &&& p.1 as nat == st.staged
            &&& tree_view(*final(mapping)) == st.mapping
            &&& counter_value(tree_view(*final(globals))) == st.counter
            &&& (st.counter == counter_value(tree_view(*old(globals))) ==> tree_view(
                *final(globals),
            ) == tree_view(*old(globals)))
        },
        r is Err ==> ({
            let m0 = tree_view(*old(mapping));
            let c0 = counter_value(tree_view(*old(globals)));
            &&& forall|s: Seq<u8>|
                #[trigger] m0.contains_key(s) ==> tree_view(*final(mapping)).contains_key(s)
                    && tree_view(*final(mapping))[s] == m0[s]
            &&& c0 <= counter_value(tree_view(*final(globals)))
            &&& exists|i: int|
                #![auto]
                0 <= i <= records@.len() && tree_view(*final(mapping)) == staged_after(
                    rec_views(records@).take(i),
                    init_state(m0, c0),
                ).mapping && (counter_value(tree_view(*final(globals))) == staged_after(
                    rec_views(records@).take(i),
                    init_state(m0, c0),
                ).counter || counter_value(tree_view(*final(globals))) == staged_after(
                    rec_views(records@).take(i),
                    init_state(m0, c0),
                ).counter + 1)
        }),
        r matches Err(e) ==> (e is Encoding ==> !counter_wf(tree_view(*old(globals))) || exists|
            i: int,
        |
            #![auto]
            0 <= i < records@.len() && !already_migrated(records@[i].0@) && tree_view(
                *old(mapping),
            ).contains_key(suffix_of(records@[i].0@)) && tree_view(*old(mapping))[suffix_of(
                records@[i].0@,
            )].len() != 8),
{
    let ghost m0 = tree_view(*mapping);
    let ghost g0 = tree_view(*globals);
    let ghost c0 = counter_value(g0);
    let ghost rv = rec_views(records@);
    let mut batch = batch_new();
    let mut n: usize = 0;
    let mut i: usize = 0;
    proof {
        assert(batch_writes(batch) =~= init_state(m0, c0).writes);
        assert(rv.take(0) =~= Seq::empty());
    }
    while i < records.len()
        invariant
            0 <= i <= records@.len(),
            rv == rec_views(records@),
            m0 == tree_view(*old(mapping)),
            g0 == tree_view(*old(globals)),
            c0 == counter_value(g0),
            forall|t: int|
                0 <= t < records@.len() ==> (#[trigger] records@[t]).0@.len() > HASH_PREFIX_LEN,
            c0 + records@.len() <= u64::MAX,
            ({
                let st = staged_after(rv.take(i as int), init_state(m0, c0));
                &&& batch_writes(batch) == st.writes
                &&& n as nat == st.staged
                &&& tree_view(*mapping) == st.mapping
                &&& counter_value(tree_view(*globals)) == st.counter
                &&& c0 <= st.counter
                &&& st.counter <= c0 + i
                &&& st.staged <= i
                &&& (st.counter == c0 ==> tree_view(*globals) == g0)
                &&& (!counter_wf(tree_view(*globals)) ==> tree_view(*globals) == g0)
            }),
        decreases records@.len() - i,
    {
        let ghost st_pre = staged_after(rv.take(i as int), init_state(m0, c0));
        let key_len = records[i].0.len();
        if key_len - HASH_PREFIX_LEN != MIGRATED_REST_LEN {
            let suffix = slice_subrange(records[i].0.as_slice(), HASH_PREFIX_LEN + 1, key_len);
            proof {
                assert(suffix@ =~= suffix_of(records@[i as int].0@));
            }
            match resolve(mapping, globals, suffix) {
                Ok(id) => {
                    let new_key = build_migrated_key(&records[i].0, id);
                    let new_val = dedup(&records[i].1);
                    batch_insert(&mut batch, new_key, new_val);
                    batch_remove(&mut batch, slice_to_vec(records[i].0.as_slice()));
                    n = n + 1;
                },
                Err(e) => {
                    proof {
                        assert forall|t: int| 0 <= t < rv.take(i as int).len() implies (
                        #[trigger] rv.take(i as int)[t]).0.len() > HASH_PREFIX_LEN by {
                            assert(rv.take(i as int)[t] == rv[t]);
                            assert(rv[t].0 == records@[t].0@);
                        }
                        lemma_staged_after_shape(rv.take(i as int), init_state(m0, c0));
                        assert forall|s: Seq<u8>| #[trigger] m0.contains_key(s) implies tree_view(
                            *mapping,
                        ).contains_key(s) && tree_view(*mapping)[s] == m0[s] by {
                            assert(init_state(m0, c0).mapping.contains_key(s));
                            assert(st_pre.mapping.contains_key(s) && st_pre.mapping[s] == m0[s]);
                        }
                        assert(st_pre.counter <= counter_value(tree_view(*globals)));
                        assert(c0 <= counter_value(tree_view(*globals)));
                        assert(0 <= i as int && (i as int) <= records@.len() && tree_view(*mapping)
                            == staged_after(rv.take(i as int), init_state(m0, c0)).mapping && (
                        counter_value(tree_view(*globals)) == staged_after(
                            rv.take(i as int),
                            init_state(m0, c0),
                        ).counter || counter_value(tree_view(*globals)) == staged_after(
                            rv.take(i as int),
                            init_state(m0, c0),
                        ).counter + 1));
                        if e is Encoding {
                            let s = suffix_of(records@[i as int].0@);
                            if st_pre.mapping.contains_key(s) && st_pre.mapping[s].len() != 8 {
                                assert(m0.contains_key(s) && m0[s].len() != 8);
                                assert(0 <= i as int && (i as int) < records@.len()
                                    && !already_migrated(
                                    records@[i as int].0@,
                                ) && m0.contains_key(suffix_of(records@[i as int].0@))
                                    && m0[suffix_of(records@[i as int].0@)].len() != 8);
                            } else {
                                assert(!counter_wf(g0));
                            }
                        }
                    }
                    return Err(e);
                },
            }
        }
        i = i + 1;
        proof {
            assert(rv.take(i as int).drop_last() =~= rv.take(i as int - 1));
            assert(rv.take(i as int).last() == rv[i as int - 1]);
            assert(staged_after(rv.take(i as int), init_state(m0, c0)) == stage_record(
                st_pre,
                records@[i - 1].0@,
                records@[i - 1].1@,
            ));
        }
    }
    proof {
        assert(rv.take(records@.len() as int) =~= rv);
    }
    Ok((batch, n))
}

/// How a whole staged pass relates to where it started: the counter never
/// goes down; mapping entries present at the start are never overwritten;
/// every legacy record's suffix ends up mapped, its removal staged, and the
/// insert of its migrated key staged; every staged insert key is a 41-byte
/// migrated key and every staged removal key a legacy record key; every new
/// mapping entry belongs to some legacy record and carries an id the pass
/// itself allocated; and a pass over already-migrated records changes
/// nothing.
pub proof fn lemma_staged_after_shape(recs: Seq<(Seq<u8>, Seq<u8>)>, st0: StageState)
    requires
        forall|i: int| 0 <= i < recs.len() ==> (#[trigger] recs[i]).0.len() > HASH_PREFIX_LEN,
        st0.counter + recs.len() <= u64::MAX,
    ensures
        ({
            let st = staged_after(recs, st0);
            &&& st0.counter <= st.counter
            &&& st.counter <= st0.counter + recs.len()
            &&& forall|s: Seq<u8>|
                #[trigger] st0.mapping.contains_key(s) ==> st.mapping.contains_key(s)
                    && st.mapping[s] == st0.mapping[s]
            &&& forall|i: int|
                0 <= i < recs.len() && !already_migrated((#[trigger] recs[i]).0) ==> {
                    let mk = migrated_key(
                        recs[i].0,
                        u64_from_be(st.mapping[suffix_of(recs[i].0)]),
                    );
                    &&& st.mapping.contains_key(suffix_of(recs[i].0))
                    &&& st.writes.contains_key(recs[i].0)
                    &&& st.writes[recs[i].0] is None
                    &&& st.writes.contains_key(mk)
                    &&& st.writes[mk] is Some
                }
            &&& forall|k: Seq<u8>|
                #[trigger] st.writes.contains_key(k) && !st0.writes.contains_key(k) ==> (
                st.writes[k] is Some ==> k.len() == HASH_PREFIX_LEN + MIGRATED_REST_LEN && exists|
                    j: int,
                |
                    0 <= j < recs.len() && !already_migrated((#[trigger] recs[j]).0) && k
                        == migrated_key(
                        recs[j].0,
                        u64_from_be(st.mapping[suffix_of(recs[j].0)]),
                    ) && st.writes[k] == Some(dedup_value(recs[j].1)) && (forall|j2: int|
                        j < j2 < recs.len() && !already_migrated((#[trigger] recs[j2]).0)
                            ==> migrated_key(
                            recs[j2].0,
                            u64_from_be(st.mapping[suffix_of(recs[j2].0)]),
                        ) != k)) && (st.writes[k] is None ==> k.len() > HASH_PREFIX_LEN
                    && !already_migrated(k))
            &&& forall|s: Seq<u8>|
                #[trigger] st.mapping.contains_key(s) && !st0.mapping.contains_key(s) ==> (
                exists|i: int|
                    0 <= i < recs.len() && !already_migrated((#[trigger] recs[i]).0)
                        && suffix_of(recs[i].0) == s) && st0.counter < u64_from_be(st.mapping[s])
                    <= st.counter && st.mapping[s].len() == 8
            &&& ((forall|i: int| 0 <= i < recs.len() ==> already_migrated((#[trigger] recs[i]).0))
                ==> st == st0)
        }),
    decreases recs.len(),
{
    if recs.len() == 0 {
    } else {
        let prefix = recs.drop_last();
        assert forall|i: int| 0 <= i < prefix.len() implies (#[trigger] prefix[i]).0.len()
            > HASH_PREFIX_LEN by {
            assert(prefix[i] == recs[i]);
        }
        lemma_staged_after_shape(prefix, st0);
        let st1 = staged_after(prefix, st0);
        let st = staged_after(recs, st0);
        let k = recs.last().0;
        let v = recs.last().1;
        assert(st == stage_record(st1, k, v));
        assert(k.len() > HASH_PREFIX_LEN);
        assert(forall|i: int| 0 <= i < prefix.len() ==> #[trigger] prefix[i] == recs[i]);
        let legacy_last = !already_migrated(k);
        let s = suffix_of(k);
        let folded = spec_resolve(st1.mapping, st1.counter, s);
        if legacy_last {
            if !st1.mapping.contains_key(s) {
                crate::codec::lemma_u64_be_round_trip(((st1.counter + 1) as u64));
                assert(st.counter == st1.counter + 1);
            } else {
                assert(st.counter == st1.counter);
            }
            assert(st.mapping.contains_key(s) && u64_from_be(st.mapping[s]) == folded.0);
            assert(k.len() != HASH_PREFIX_LEN + MIGRATED_REST_LEN);
            assert(migrated_key(k, folded.0).len() == HASH_PREFIX_LEN + MIGRATED_REST_LEN);
        } else {
            assert(st == st1);
        }
        // One staging step never disturbs an existing mapping entry.
        assert forall|t: Seq<u8>| #[trigger] st1.mapping.contains_key(t) implies
            st.mapping.contains_key(t) && st.mapping[t] == st1.mapping[t] by {}
        // Every legacy record's suffix is mapped and both its writes staged.
        assert forall|i: int|
            0 <= i < recs.len() && !already_migrated((#[trigger] recs[i]).0) implies {
            let mk = migrated_key(recs[i].0, u64_from_be(st.mapping[suffix_of(recs[i].0)]));
            &&& st.mapping.contains_key(suffix_of(recs[i].0))
            &&& st.writes.contains_key(recs[i].0)
            &&& st.writes[recs[i].0] is None
            &&& st.writes.contains_key(mk)
            &&& st.writes[mk] is Some
        } by {
            if i < recs.len() - 1 {
                assert(prefix[i] == recs[i]);
                let mki = migrated_key(recs[i].0, u64_from_be(st1.mapping[suffix_of(recs[i].0)]));
                assert(st1.mapping.contains_key(suffix_of(recs[i].0)));
                assert(st1.writes.contains_key(recs[i].0) && st1.writes[recs[i].0] is None);
                assert(st1.writes.contains_key(mki) && st1.writes[mki] is Some);
                assert(st.mapping[suffix_of(recs[i].0)] == st1.mapping[suffix_of(recs[i].0)]);
                assert(mki.len() == HASH_PREFIX_LEN + MIGRATED_REST_LEN);
                assert(recs[i].0.len() != HASH_PREFIX_LEN + MIGRATED_REST_LEN);
            } else {
                assert(recs[i].0 == k);
            }
        }
        // Every staged insert is a migrated key; every staged removal is a
        // legacy record key.
        assert forall|kk: Seq<u8>|
            #[trigger] st.writes.contains_key(kk) && !st0.writes.contains_key(kk) implies (
        st.writes[kk] is Some ==> kk.len() == HASH_PREFIX_LEN + MIGRATED_REST_LEN && exists|j: int|
            0 <= j < recs.len() && !already_migrated((#[trigger] recs[j]).0) && kk == migrated_key(
                recs[j].0,
                u64_from_be(st.mapping[suffix_of(recs[j].0)]),
            ) && st.writes[kk] == Some(dedup_value(recs[j].1)) && (forall|j2: int|
                j < j2 < recs.len() && !already_migrated((#[trigger] recs[j2]).0) ==> migrated_key(
                    recs[j2].0,
                    u64_from_be(st.mapping[suffix_of(recs[j2].0)]),
                ) != kk)) && (st.writes[kk] is None ==> kk.len() > HASH_PREFIX_LEN
            && !already_migrated(kk)) by {
            if legacy_last && kk == migrated_key(k, folded.0) {
                let j = recs.len() - 1;
                assert(0 <= j < recs.len() && !already_migrated(recs[j].0) && kk == migrated_key(
                    recs[j].0,
                    u64_from_be(st.mapping[suffix_of(recs[j].0)]),
                ) && st.writes[kk] == Some(dedup_value(recs[j].1)) && (forall|j2: int|
                    j < j2 < recs.len() && !already_migrated((#[trigger] recs[j2]).0)
                        ==> migrated_key(
                        recs[j2].0,
                        u64_from_be(st.mapping[suffix_of(recs[j2].0)]),
                    ) != kk));
            } else if legacy_last && kk == k {
            } else {
                assert(st1.writes.contains_key(kk));
                assert(st.writes[kk] == st1.writes[kk]);
                if st1.writes[kk] is Some {
                    let j = choose|j: int|
                        0 <= j < prefix.len() && !already_migrated((#[trigger] prefix[j]).0) && kk
                            == migrated_key(
                            prefix[j].0,
                            u64_from_be(st1.mapping[suffix_of(prefix[j].0)]),
                        ) && st1.writes[kk] == Some(dedup_value(prefix[j].1)) && (forall|j2: int|
                            j < j2 < prefix.len() && !already_migrated((#[trigger] prefix[j2]).0)
                                ==> migrated_key(
                                prefix[j2].0,
                                u64_from_be(st1.mapping[suffix_of(prefix[j2].0)]),
                            ) != kk);
                    assert(prefix[j] == recs[j]);
                    assert(st1.mapping.contains_key(suffix_of(recs[j].0)));
                    assert forall|j2: int|
                        j < j2 < recs.len() && !already_migrated((#[trigger] recs[j2]).0) implies
                        migrated_key(recs[j2].0, u64_from_be(st.mapping[suffix_of(recs[j2].0)]))
                            != kk by {
                        if j2 < recs.len() - 1 {
                            assert(prefix[j2] == recs[j2]);
                            assert(st1.mapping.contains_key(suffix_of(recs[j2].0)));
                            assert(st.mapping[suffix_of(recs[j2].0)] == st1.mapping[suffix_of(
                                recs[j2].0,
                            )]);
                            assert(migrated_key(
                                prefix[j2].0,
                                u64_from_be(st1.mapping[suffix_of(prefix[j2].0)]),
                            ) != kk);
                        } else {
                            assert(recs[j2].0 == k);
                            assert(migrated_key(
                                recs[j2].0,
                                u64_from_be(st.mapping[suffix_of(recs[j2].0)]),
                            ) == migrated_key(k, folded.0));
                        }
                    }
                    assert(0 <= j < recs.len() && !already_migrated(recs[j].0) && kk
                        == migrated_key(
                        recs[j].0,
                        u64_from_be(st.mapping[suffix_of(recs[j].0)]),
                    ) && st.writes[kk] == Some(dedup_value(recs[j].1)) && (forall|j2: int|
                        j < j2 < recs.len() && !already_migrated((#[trigger] recs[j2]).0)
                            ==> migrated_key(
                            recs[j2].0,
                            u64_from_be(st.mapping[suffix_of(recs[j2].0)]),
                        ) != kk));
                }
            }
        }
        // Every new mapping entry comes from some legacy record, with an id
        // this pass allocated.
        assert forall|s2: Seq<u8>|
            #[trigger] st.mapping.contains_key(s2) && !st0.mapping.contains_key(s2) implies (
        exists|i: int|
            0 <= i < recs.len() && !already_migrated((#[trigger] recs[i]).0) && suffix_of(
                recs[i].0,
            ) == s2) && st0.counter < u64_from_be(st.mapping[s2]) <= st.counter by {
            if st1.mapping.contains_key(s2) {
                let i = choose|i: int|
                    0 <= i < prefix.len() && !already_migrated((#[trigger] prefix[i]).0)
                        && suffix_of(prefix[i].0) == s2;
                assert(0 <= i < recs.len() && !already_migrated(recs[i].0) && suffix_of(recs[i].0)
                    == s2);
                assert(st.mapping[s2] == st1.mapping[s2]);
            } else {
                let j = recs.len() - 1;
                assert(0 <= j < recs.len() && !already_migrated(recs[j].0) && suffix_of(recs[j].0)
                    == s2);
            }
        }
        // A pass over already-migrated records stages nothing.
        if forall|i: int| 0 <= i < recs.len() ==> already_migrated((#[trigger] recs[i]).0) {
            assert(already_migrated(recs[recs.len() - 1].0));
            assert forall|i: int| 0 <= i < prefix.len() implies already_migrated(
                (#[trigger] prefix[i]).0,
            ) by {
                assert(already_migrated(recs[i].0));
            }
            assert(st1 == st0);
        }
    }
}

/// Staging only ever adds to the count of staged records.
pub proof fn lemma_staged_monotone(recs: Seq<(Seq<u8>, Seq<u8>)>, st0: StageState)
    ensures
        staged_after(recs, st0).staged >= st0.staged,
    decreases recs.len(),
{
    if recs.len() > 0 {
        lemma_staged_monotone(recs.drop_last(), st0);
    }
}

/// A pass that meets a legacy record stages at least one record.
pub proof fn lemma_legacy_record_stages(recs: Seq<(Seq<u8>, Seq<u8>)>, st0: StageState, i: int)
    requires
        0 <= i < recs.len(),
        !already_migrated(recs[i].0),
    ensures
        staged_after(recs, st0).staged > st0.staged,
    decreases recs.len(),
{
    let prefix = recs.drop_last();
    if i < recs.len() - 1 {
        assert(prefix[i] == recs[i]);
        lemma_legacy_record_stages(prefix, st0, i);
    } else {
        lemma_staged_monotone(prefix, st0);
    }
}

/// Run one whole migration pass: scan every record of the table, stage all
/// rewrites while feeding the resolver and the allocator, and apply the
/// staged batch at the end.  An error before the final apply leaves the
/// record table untouched; if the apply itself fails, some sub-map of the
/// staged rewrites may have been applied (whole-batch atomicity on a crash
/// is the engine's recovery guarantee) — in every error case mapping entries
/// present before the pass keep their values and the counter never goes
/// down.  On success the table holds only 41-byte migrated keys, every
/// legacy key is gone and its migrated key present under the suffix's mapped
/// id with the deduplicated value (of the lexicographically last colliding
/// record, when two legacy keys share a migrated key), mapping entries
/// present before the pass are untouched, and a table that was already fully
/// migrated comes back unchanged with zero records staged.
pub fn migrate(records: &mut sled::Tree, mapping: &mut sled::Tree, globals: &mut sled::Tree) -> (r:
    Result<usize, MigrateError>)
    requires
        forall|k: Seq<u8>|
            #[trigger] tree_view(*old(records)).contains_key(k) ==> k.len() > HASH_PREFIX_LEN,
        counter_value(tree_view(*old(globals))) + tree_view(*old(records)).dom().len()
            <= u64::MAX,
    ensures
        r is Err ==> ({
            let v0 = tree_view(*old(records));
            let v1 = tree_view(*final(records));
            let m0 = tree_view(*old(mapping));
            &&& exists|w: Map<Seq<u8>, Option<Seq<u8>>>|
                #![auto]
                v1 == apply_writes(v0, w) && forall|k: Seq<u8>|
                    w.contains_key(k) ==> ((w[k] is Some ==> k.len() == HASH_PREFIX_LEN
                        + MIGRATED_REST_LEN) && (w[k] is None ==> k.len() > HASH_PREFIX_LEN
                        && !already_migrated(k)))
            &&& forall|s: Seq<u8>|
                #[trigger] m0.contains_key(s) ==> tree_view(*final(mapping)).contains_key(s)
                    && tree_view(*final(mapping))[s] == m0[s]
            &&& counter_value(tree_view(*old(globals))) <= counter_value(
                tree_view(*final(globals)),
            )
        }),
        r matches Err(e) ==> (e is Encoding ==> !counter_wf(tree_view(*old(globals))) || exists|
            k: Seq<u8>,
        |
            #![auto]
            tree_view(*old(records)).contains_key(k) && !already_migrated(k) && tree_view(
                *old(mapping),
            ).contains_key(suffix_of(k)) && tree_view(*old(mapping))[suffix_of(k)].len() != 8),
        r matches Ok(n) ==> ({
            let v0 = tree_view(*old(records));
            let v1 = tree_view(*final(records));
            let m0 = tree_view(*old(mapping));
            let m1 = tree_view(*final(mapping));
            &&& forall|k: Seq<u8>|
                #[trigger] v1.contains_key(k) ==> k.len() == HASH_PREFIX_LEN + MIGRATED_REST_LEN
            &&& forall|k: Seq<u8>|
                #[trigger] v0.contains_key(k) ==> (already_migrated(k) ==> v1.contains_key(k))
            &&& forall|k: Seq<u8>|
                #[trigger] v0.contains_key(k) ==> (!already_migrated(k) ==> !v1.contains_key(k))
            &&& forall|s: Seq<u8>|
                #[trigger] m0.contains_key(s) ==> m1.contains_key(s) && m1[s] == m0[s]
            &&& forall|k: Seq<u8>|
                #[trigger] v0.contains_key(k) ==> (!already_migrated(k) ==> m1.contains_key(
                    suffix_of(k),
                ) && v1.contains_key(migrated_key(k, u64_from_be(m1[suffix_of(k)]))))
            &&& forall|k: Seq<u8>|
                #[trigger] v0.contains_key(k) ==> (!already_migrated(k) ==> ((forall|k2: Seq<u8>|
                    #[trigger] v0.contains_key(k2) && !already_migrated(k2) && k2 != k
                        && migrated_key(k2, u64_from_be(m1[suffix_of(k2)])) == migrated_key(
                        k,
                        u64_from_be(m1[suffix_of(k)]),
                    ) ==> lex_lt(k2, k)) ==> v1[migrated_key(k, u64_from_be(m1[suffix_of(k)]))]
                    == dedup_value(v0[k])))
            &&& forall|k: Seq<u8>|
                #[trigger] v0.contains_key(k) ==> (already_migrated(k) ==> ((forall|k2: Seq<u8>|
                    #[trigger] v0.contains_key(k2) && !already_migrated(k2) ==> migrated_key(
                        k2,
                        u64_from_be(m1[suffix_of(k2)]),
                    ) != k) ==> v1[k] == v0[k]))
            &&& ((forall|k: Seq<u8>| #[trigger] v0.contains_key(k) ==> already_migrated(k)) ==> n
                == 0 && v1 == v0 && m1 == m0 && tree_view(*final(globals)) == tree_view(
                *old(globals),
            ))
            &&& (n == 0 ==> forall|k: Seq<u8>|
                #[trigger] v0.contains_key(k) ==> already_migrated(k))
        }),
{
    let ghost v0 = tree_view(*records);
    let recs = match crate::store::tree_scan_all(records) {
        Ok(rs) => rs,
        Err(e) => {
            proof {
                let we = Map::<Seq<u8>, Option<Seq<u8>>>::empty();
                assert(apply_writes(v0, we) =~= v0);
                assert(tree_view(*records) == apply_writes(v0, we) && (forall|k: Seq<u8>|
                    we.contains_key(k) ==> ((we[k] is Some ==> k.len() == HASH_PREFIX_LEN
                        + MIGRATED_REST_LEN) && (we[k] is None ==> k.len() > HASH_PREFIX_LEN
                        && !already_migrated(k)))));
            }
            return Err(MigrateError::Store(e));
        },
    };
    proof {
        assert forall|i: int| 0 <= i < recs@.len() implies (#[trigger] recs@[i]).0@.len()
            > HASH_PREFIX_LEN by {
            assert(v0.contains_key(recs@[i].0@));
        }
    }
    let ghost m0 = tree_view(*mapping);
    let ghost c0 = counter_value(tree_view(*globals));
    let staged = match stage_all(&recs, mapping, globals) {
        Ok(p) => p,
        Err(e) => {
            proof {
                let we = Map::<Seq<u8>, Option<Seq<u8>>>::empty();
                assert(apply_writes(v0, we) =~= v0);
                assert(tree_view(*records) == apply_writes(v0, we) && (forall|k: Seq<u8>|
                    we.contains_key(k) ==> ((we[k] is Some ==> k.len() == HASH_PREFIX_LEN
                        + MIGRATED_REST_LEN) && (we[k] is None ==> k.len() > HASH_PREFIX_LEN
                        && !already_migrated(k)))));
                if e is Encoding && counter_wf(tree_view(*old(globals))) {
                    let i = choose|i: int|
                        #![auto]
                        0 <= i < recs@.len() && !already_migrated(recs@[i].0@)
                            && m0.contains_key(suffix_of(recs@[i].0@)) && m0[suffix_of(
                            recs@[i].0@,
                        )].len() != 8;
                    assert(v0.contains_key(recs@[i].0@) && !already_migrated(recs@[i].0@)
                        && m0.contains_key(suffix_of(recs@[i].0@)) && m0[suffix_of(
                        recs@[i].0@,
                    )].len() != 8);
                }
            }
            return Err(e);
        },
    };
    let (batch, n) = staged;
    let ghost rv = rec_views(recs@);
    let ghost st = staged_after(rv, init_state(m0, c0));
    proof {
        assert forall|i: int| 0 <= i < rv.len() implies (#[trigger] rv[i]).0.len()
            > HASH_PREFIX_LEN by {
            assert(rv[i].0 == recs@[i].0@);
        }
        lemma_staged_after_shape(rv, init_state(m0, c0));
    }
    match crate::store::tree_apply_batch(records, batch) {
        Ok(()) => {
            proof {
                let v1 = apply_writes(v0, st.writes);
                let m1 = st.mapping;
                assert forall|i: int| 0 <= i < rv.len() implies rv[i].0 == recs@[i].0@ && rv[i].1
                    == recs@[i].1@ by {}
                assert forall|k: Seq<u8>| #[trigger] v1.contains_key(k) implies k.len()
                    == HASH_PREFIX_LEN + MIGRATED_REST_LEN by {
                    if st.writes.contains_key(k) {
                    } else {
                        assert(v0.contains_key(k));
                        if !already_migrated(k) {
                            let i = choose|i: int|
                                0 <= i < recs@.len() && (#[trigger] recs@[i]).0@ == k;
                            assert(!already_migrated(rv[i].0));
                            assert(st.writes.contains_key(rv[i].0));
                        }
                    }
                }
                assert forall|k: Seq<u8>|
                    #[trigger] v0.contains_key(k) && !already_migrated(k) implies
                    !v1.contains_key(k) by {
                    let i = choose|i: int| 0 <= i < recs@.len() && (#[trigger] recs@[i]).0@ == k;
                    assert(!already_migrated(rv[i].0));
                    assert(st.writes.contains_key(rv[i].0) && st.writes[rv[i].0] is None);
                }
                assert forall|k: Seq<u8>|
                    #[trigger] v0.contains_key(k) && already_migrated(k) implies v1.contains_key(
                    k,
                ) by {
                    if st.writes.contains_key(k) {
                        assert(!(st.writes[k] is None));
                    }
                }
                assert forall|k: Seq<u8>|
                    #[trigger] v0.contains_key(k) && !already_migrated(k) implies m1.contains_key(
                    suffix_of(k),
                ) && v1.contains_key(migrated_key(k, u64_from_be(m1[suffix_of(k)]))) by {
                    let i = choose|i: int| 0 <= i < recs@.len() && (#[trigger] recs@[i]).0@ == k;
                    assert(!already_migrated(rv[i].0));
                    assert(st.mapping.contains_key(suffix_of(rv[i].0)));
                    assert(st.writes.contains_key(
                        migrated_key(rv[i].0, u64_from_be(st.mapping[suffix_of(rv[i].0)])),
                    ) && st.writes[migrated_key(
                        rv[i].0,
                        u64_from_be(st.mapping[suffix_of(rv[i].0)]),
                    )] is Some);
                }
                assert forall|k: Seq<u8>| #[trigger] v0.contains_key(k) implies (!already_migrated(
                    k,
                ) ==> ((forall|k2: Seq<u8>|
                    #[trigger] v0.contains_key(k2) && !already_migrated(k2) && k2 != k
                        && migrated_key(k2, u64_from_be(m1[suffix_of(k2)])) == migrated_key(
                        k,
                        u64_from_be(m1[suffix_of(k)]),
                    ) ==> lex_lt(k2, k)) ==> v1[migrated_key(k, u64_from_be(m1[suffix_of(k)]))]
                    == dedup_value(v0[k]))) by {
                    if v0.contains_key(k) && !already_migrated(k) && (forall|k2: Seq<u8>|
                        #[trigger] v0.contains_key(k2) && !already_migrated(k2) && k2 != k
                            && migrated_key(k2, u64_from_be(m1[suffix_of(k2)])) == migrated_key(
                            k,
                            u64_from_be(m1[suffix_of(k)]),
                        ) ==> lex_lt(k2, k)) {
                        let i = choose|i: int|
                            0 <= i < recs@.len() && (#[trigger] recs@[i]).0@ == k;
                        assert(!already_migrated(rv[i].0));
                        let mk = migrated_key(k, u64_from_be(m1[suffix_of(k)]));
                        assert(st.writes.contains_key(mk) && st.writes[mk] is Some);
                        let j = choose|j: int|
                            0 <= j < rv.len() && !already_migrated((#[trigger] rv[j]).0) && mk
                                == migrated_key(
                                rv[j].0,
                                u64_from_be(st.mapping[suffix_of(rv[j].0)]),
                            ) && st.writes[mk] == Some(dedup_value(rv[j].1)) && (forall|j2: int|
                                j < j2 < rv.len() && !already_migrated((#[trigger] rv[j2]).0)
                                    ==> migrated_key(
                                    rv[j2].0,
                                    u64_from_be(st.mapping[suffix_of(rv[j2].0)]),
                                ) != mk);
                        assert(v0.contains_key(recs@[j].0@) && v0[recs@[j].0@] == recs@[j].1@);
                        if rv[j].0 != k {
                            // The witness record collides with `k`'s on the
                            // same migrated key, so it precedes `k` in key
                            // order; yet `k`'s own record stages that key too,
                            // and nothing after the witness does.
                            assert(migrated_key(rv[j].0, u64_from_be(m1[suffix_of(rv[j].0)]))
                                == mk);
                            assert(lex_lt(rv[j].0, k));
                            assert(migrated_key(
                                rv[i].0,
                                u64_from_be(st.mapping[suffix_of(rv[i].0)]),
                            ) == mk);
                            if i < j {
                                assert(lex_lt(recs@[i].0@, recs@[j].0@));
                                lemma_lex_lt_asymmetric(rv[j].0, k);
                            } else if i > j {
                                assert(migrated_key(
                                    rv[i].0,
                                    u64_from_be(st.mapping[suffix_of(rv[i].0)]),
                                ) != mk);
                            }
                            assert(false);
                        }
                        assert(rv[j].1 == v0[k]);
                    }
                }
                assert forall|k: Seq<u8>| #[trigger] v0.contains_key(k) implies (already_migrated(
                    k,
                ) ==> ((forall|k2: Seq<u8>|
                    #[trigger] v0.contains_key(k2) && !already_migrated(k2) ==> migrated_key(
                        k2,
                        u64_from_be(m1[suffix_of(k2)]),
                    ) != k) ==> v1[k] == v0[k])) by {
                    if v0.contains_key(k) && already_migrated(k) && (forall|k2: Seq<u8>|
                        #[trigger] v0.contains_key(k2) && !already_migrated(k2) ==> migrated_key(
                            k2,
                            u64_from_be(m1[suffix_of(k2)]),
                        ) != k) {
                        if st.writes.contains_key(k) {
                            assert(!(st.writes[k] is None));
                            let j = choose|j: int|
                                0 <= j < rv.len() && !already_migrated((#[trigger] rv[j]).0) && k
                                    == migrated_key(
                                    rv[j].0,
                                    u64_from_be(st.mapping[suffix_of(rv[j].0)]),
                                ) && st.writes[k] == Some(dedup_value(rv[j].1)) && (forall|
                                    j2: int,
                                |
                                    j < j2 < rv.len() && !already_migrated((#[trigger] rv[j2]).0)
                                        ==> migrated_key(
                                        rv[j2].0,
                                        u64_from_be(st.mapping[suffix_of(rv[j2].0)]),
                                    ) != k);
                            assert(v0.contains_key(recs@[j].0@));
                            assert(migrated_key(rv[j].0, u64_from_be(m1[suffix_of(rv[j].0)]))
                                != k);
                            assert(false);
                        }
                    }
                }
                if n == 0 {
                    assert forall|k: Seq<u8>| #[trigger] v0.contains_key(k) implies
                        already_migrated(k) by {
                        if !already_migrated(k) {
                            let i = choose|i: int|
                                0 <= i < recs@.len() && (#[trigger] recs@[i]).0@ == k;
                            assert(!already_migrated(rv[i].0));
                            lemma_legacy_record_stages(rv, init_state(m0, c0), i);
                        }
                    }
                }
                if forall|k: Seq<u8>| #[trigger] v0.contains_key(k) ==> already_migrated(k) {
                    assert forall|i: int| 0 <= i < rv.len() implies already_migrated(
                        (#[trigger] rv[i]).0,
                    ) by {
                        assert(v0.contains_key(recs@[i].0@));
                    }
                    assert(st == init_state(m0, c0));
                    assert(v1 =~= v0);
                }
            }
            Ok(n)
        },
        Err(e) => {
            proof {
                let w = choose|w: Map<Seq<u8>, Option<Seq<u8>>>|
                    #![auto]
                    w.submap_of(batch_writes(batch)) && tree_view(*records) == apply_writes(
                        v0,
                        w,
                    );
                assert forall|k: Seq<u8>| w.contains_key(k) implies ((w[k] is Some ==> k.len()
                    == HASH_PREFIX_LEN + MIGRATED_REST_LEN) && (w[k] is None ==> k.len()
                    > HASH_PREFIX_LEN && !already_migrated(k))) by {
                    assert(w.dom().contains(k));
                    assert(st.writes.contains_key(k) && st.writes[k] == w[k]);
                }
                assert(tree_view(*records) == apply_writes(v0, w) && (forall|k: Seq<u8>|
                    w.contains_key(k) ==> ((w[k] is Some ==> k.len() == HASH_PREFIX_LEN
                        + MIGRATED_REST_LEN) && (w[k] is None ==> k.len() > HASH_PREFIX_LEN
                        && !already_migrated(k)))));
            }
            Err(MigrateError::Store(e))
        },
    }
}

} // verus!
