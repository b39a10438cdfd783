//! The store surface the migration relies on: an ordered byte-keyed table
//! with point reads and writes, an atomic read-modify-write, a full ordered
//! scan, and a batch of writes applied as one atomic unit.  The engine is an
//! external collaborator, assumed correct and durable; each operation the
//! logic calls stands here behind a trusted contract over the table's
//! contents.

use vstd::prelude::*;

verus! {

#[verifier::external_type_specification]
#[verifier::external_body]
pub struct ExTree(sled::Tree);

#[verifier::external_type_specification]
#[verifier::external_body]
pub struct ExBatch(sled::Batch);

#[verifier::external_type_specification]
#[verifier::external_body]
pub struct ExSledError(sled::Error);

/// The key/value pairs a tree currently holds.
pub uninterp spec fn tree_view(t: sled::Tree) -> Map<Seq<u8>, Seq<u8>>;

/// The pending writes of a batch: a key maps to `Some(value)` for a staged
/// insert and to `None` for a staged removal; a later staged write of the
/// same key replaces an earlier one.
pub uninterp spec fn batch_writes(b: sled::Batch) -> Map<Seq<u8>, Option<Seq<u8>>>;

/// The table that results from applying a batch's writes to `m` at once.
pub open spec fn apply_writes(
    m: Map<Seq<u8>, Seq<u8>>,
    w: Map<Seq<u8>, Option<Seq<u8>>>,
) -> Map<Seq<u8>, Seq<u8>> {
    Map::new(
        |k: Seq<u8>| (w.contains_key(k) && w[k] is Some) || (!w.contains_key(k)
            && m.contains_key(k)),
        |k: Seq<u8>| if w.contains_key(k) {
            w[k].unwrap()
        } else {
            m[k]
        },
    )
}

/// Strict lexicographic order on byte strings, the order a scan yields keys in.
pub open spec fn lex_lt(a: Seq<u8>, b: Seq<u8>) -> bool
    decreases a.len(),
{
    if b.len() == 0 {
        false
    } else if a.len() == 0 {
        true
    } else if a[0] < b[0] {
        true
    } else if a[0] > b[0] {
        false
    } else {
        lex_lt(a.drop_first(), b.drop_first())
    }
}

/// Two distinct byte strings are ordered one way only.
pub proof fn lemma_lex_lt_asymmetric(a: Seq<u8>, b: Seq<u8>)
    ensures
        !(lex_lt(a, b) && lex_lt(b, a)),
    decreases a.len(),
{
    if a.len() > 0 && b.len() > 0 && a[0] == b[0] {
        lemma_lex_lt_asymmetric(a.drop_first(), b.drop_first());
    }
}

/// Relies on sled::Tree::get: a point lookup of one key.
#[verifier::external_body]
pub(crate) fn tree_get(t: &sled::Tree, key: &[u8]) -> (r: Result<Option<Vec<u8>>, sled::Error>)
    ensures
        match r {
            Ok(Some(v)) => tree_view(*t).contains_key(key@) && tree_view(*t)[key@] == v@,
            Ok(None) => !tree_view(*t).contains_key(key@),
            Err(_) => true,
        },
{
    match t.get(key) {
        Ok(Some(v)) => Ok(Some(v.to_vec())),
        Ok(None) => Ok(None),
        Err(e) => Err(e),
    }
}

/// Relies on sled::Tree::insert: on success the tree maps the key to the
/// value and is otherwise unchanged; its error paths come before the write,
/// so on failure the tree is unchanged.
#[verifier::external_body]
pub(crate) fn tree_insert(t: &mut sled::Tree, key: &Vec<u8>, value: &Vec<u8>) -> (r: Result<
    (),
    sled::Error,
>)
    ensures
        r is Ok ==> tree_view(*final(t)) == tree_view(*old(t)).insert(key@, value@),
        r is Err ==> tree_view(*final(t)) == tree_view(*old(t)),
{
    t.insert(key.as_slice(), value.as_slice()).map(|_| ())
}

/// Relies on sled::Tree::update_and_fetch, with this crate's
/// `counter::increment` as the update function: one atomic read-modify-write
/// that stores `increment` of the current value and returns what it stored;
/// its read and compare-and-swap error out before writing, so on failure the
/// tree is unchanged.  Relies on the migration being the store's only writer
/// while it runs, as the design assumes of the whole pass.
#[verifier::external_body]
pub(crate) fn tree_increment(t: &mut sled::Tree, key: &Vec<u8>) -> (r: Result<
    Option<Vec<u8>>,
    sled::Error,
>)
    requires
        tree_view(*old(t)).contains_key(key@) && tree_view(*old(t))[key@].len() == 8
            ==> crate::codec::u64_from_be(tree_view(*old(t))[key@]) < u64::MAX,
    ensures
        r matches Ok(v) ==> {
            let previous = if tree_view(*old(t)).contains_key(key@) {
                Some(tree_view(*old(t))[key@])
            } else {
                None
            };
            let stored = crate::counter::spec_increment(previous);
            &&& v matches Some(b) && b@ == stored
            &&& tree_view(*final(t)) == tree_view(*old(t)).insert(key@, stored)
        },
        r is Err ==> tree_view(*final(t)) == tree_view(*old(t)),
{
    t.update_and_fetch(key.as_slice(), crate::counter::increment).map(|o| o.map(|iv| iv.to_vec()))
}

/// Relies on sled::Tree::scan_prefix with the empty prefix: yields every pair
/// the tree holds, each exactly once, in ascending key order; any read error
/// ends the scan instead.
#[verifier::external_body]
pub(crate) fn tree_scan_all(t: &sled::Tree) -> (r: Result<Vec<(Vec<u8>, Vec<u8>)>, sled::Error>)
    ensures
        r matches Ok(recs) ==> {
            &&& forall|i: int|
                0 <= i < recs@.len() ==> tree_view(*t).contains_key((#[trigger] recs@[i]).0@)
                    && tree_view(*t)[recs@[i].0@] == recs@[i].1@
            &&& forall|i: int, j: int|
                0 <= i < j < recs@.len() ==> lex_lt(
                    (#[trigger] recs@[i]).0@,
                    (#[trigger] recs@[j]).0@,
                )
            &&& forall|k: Seq<u8>|
                #[trigger] tree_view(*t).contains_key(k) ==> exists|i: int|
                    0 <= i < recs@.len() && (#[trigger] recs@[i]).0@ == k
            &&& tree_view(*t).dom().finite()
            &&& recs@.len() == tree_view(*t).dom().len()
        },
{
    let mut out = Vec::new();
    for item in t.scan_prefix(b"") {
        match item {
            Ok((k, v)) => out.push((k.to_vec(), v.to_vec())),
            Err(e) => return Err(e),
        }
    }
    Ok(out)
}

/// Relies on sled::Batch::default: a batch with no staged writes.
#[verifier::external_body]
pub(crate) fn batch_new() -> (out: sled::Batch)
    ensures
        forall|k: Seq<u8>| !batch_writes(out).contains_key(k),
{
    sled::Batch::default()
}

/// Relies on sled::Batch::insert: stages the key to be set to the value,
/// replacing any earlier staged write of the key.
#[verifier::external_body]
pub(crate) fn batch_insert(b: &mut sled::Batch, key: Vec<u8>, value: Vec<u8>)
    ensures
        batch_writes(*final(b)) == batch_writes(*old(b)).insert(key@, Some(value@)),
{
    b.insert(key, value);
}

/// Relies on sled::Batch::remove: stages the key for removal, replacing any
/// earlier staged write of the key.
#[verifier::external_body]
pub(crate) fn batch_remove(b: &mut sled::Batch, key: Vec<u8>)
    ensures
        batch_writes(*final(b)) == batch_writes(*old(b)).insert(key@, None),
{
    b.remove(key);
}

/// Relies on sled::Tree::apply_batch: on success every staged write is
/// applied.  The writes are applied to the live tree one at a time, so an
/// error return may leave any sub-map of them applied; whole-batch atomicity
/// is the engine's crash-recovery guarantee (recovery stops before a
/// partially recovered batch), not an in-process rollback.
#[verifier::external_body]
pub(crate) fn tree_apply_batch(t: &mut sled::Tree, b: sled::Batch) -> (r: Result<(), sled::Error>)
    ensures
        r is Ok ==> tree_view(*final(t)) == apply_writes(tree_view(*old(t)), batch_writes(b)),
        r is Err ==> exists|w: Map<Seq<u8>, Option<Seq<u8>>>|
            #![auto]
            w.submap_of(batch_writes(b)) && tree_view(*final(t)) == apply_writes(
                tree_view(*old(t)),
                w,
            ),
{
    t.apply_batch(b)
}

} // verus!
