//! The short-id resolver: a memoizing map from legacy key suffix to allocated
//! short id.  A hit decodes the stored id; a miss allocates the next id and
//! persists the new entry immediately, independently of the final batch, so
//! that an aborted pass never loses an allocation and a re-run reuses it.

use vstd::prelude::*;
use crate::codec::{u64_to_be, u64_from_be, decode_u64, encode_u64};
use crate::codec::lemma_u64_be_round_trip;
use crate::counter::{counter_key, counter_value, counter_wf, counter_can_advance, next_count};
use crate::error::MigrateError;
use crate::store::{tree_view, tree_get, tree_insert};

verus! {

/// What resolving `s` does to a mapping table `m` and counter `c`: the id
/// resolved to, the mapping afterwards, and the counter afterwards.
pub open spec fn spec_resolve(m: Map<Seq<u8>, Seq<u8>>, c: u64, s: Seq<u8>) -> (
    u64,
    Map<Seq<u8>, Seq<u8>>,
    u64,
)
    recommends
        c < u64::MAX,
{
    if m.contains_key(s) {
        (u64_from_be(m[s]), m, c)
    } else {
        ((((c + 1) as u64)), m.insert(s, u64_to_be(((c + 1) as u64))), ((c + 1) as u64))
    }
}

/// A mapping entry, if the table has one for this suffix, is eight bytes.
pub open spec fn entry_wf(m: Map<Seq<u8>, Seq<u8>>, s: Seq<u8>) -> bool {
    m.contains_key(s) ==> m[s].len() == 8
}

/// Resolve a legacy suffix to its short id: return the memoized id if the
/// mapping table has one, else allocate the next id from the counter and
/// persist `suffix -> id` at once.  Fails with `Encoding` when a stored
/// fixed-width field (the memoized id, or the counter scalar) is not exactly
/// eight bytes; fails with `Store` when the engine does.
pub fn resolve(mapping: &mut sled::Tree, globals: &mut sled::Tree, suffix: &[u8]) -> (r: Result<
    u64,
    MigrateError,
>)
    requires
        counter_can_advance(tree_view(*old(globals))),
    ensures
        r matches Ok(id) ==> {
            let folded = spec_resolve(
                tree_view(*old(mapping)),
                counter_value(tree_view(*old(globals))),
                suffix@,
            );
            &&& entry_wf(tree_view(*old(mapping)), suffix@)
            &&& id == folded.0
            &&& tree_view(*final(mapping)) == folded.1
            &&& (tree_view(*old(mapping)).contains_key(suffix@) ==> tree_view(*final(globals))
                == tree_view(*old(globals)))
            &&& (!tree_view(*old(mapping)).contains_key(suffix@) ==> counter_wf(
                tree_view(*old(globals)),
            ) && tree_view(*final(globals)) == tree_view(*old(globals)).insert(
                counter_key(),
                u64_to_be(folded.2),
            ) && counter_value(tree_view(*final(globals))) == folded.2)
        },
        r matches Err(e) ==> (e is Encoding ==> !entry_wf(tree_view(*old(mapping)), suffix@) || (
        !tree_view(*old(mapping)).contains_key(suffix@) && !counter_wf(
            tree_view(*old(globals)),
        ))),
        r is Err ==> tree_view(*final(mapping)) == tree_view(*old(mapping)),
        r is Err ==> (tree_view(*final(globals)) == tree_view(*old(globals)) || (counter_wf(
            tree_view(*old(globals)),
        ) && tree_view(*final(globals)) == tree_view(*old(globals)).insert(
            counter_key(),
            u64_to_be(((counter_value(tree_view(*old(globals))) + 1) as u64)),
        ) && counter_value(tree_view(*final(globals))) == counter_value(tree_view(*old(globals)))
            + 1)),
{
    match tree_get(mapping, suffix) {
        Ok(Some(stored)) => {
            if stored.len() == 8 {
                let id = decode_u64(stored.as_slice());
                Ok(id)
            } else {
                Err(MigrateError::Encoding)
            }
        },
        Ok(None) => {
            let ghost g0 = tree_view(*globals);
            match next_count(globals) {
                Ok(id) => {
                    proof {
                        lemma_u64_be_round_trip(id);
                    }
                    let id_bytes = encode_u64(id);
                    let mut suffix_vec: Vec<u8> = Vec::new();
                    let mut j: usize = 0;
                    while j < suffix.len()
                        invariant
                            0 <= j <= suffix@.len(),
                            suffix_vec@ == suffix@.subrange(0, j as int),
                        decreases suffix@.len() - j,
                    {
                        suffix_vec.push(suffix[j]);
                        j = j + 1;
                        proof {
                            assert(suffix_vec@ =~= suffix@.subrange(0, j as int));
                        }
                    }
                    proof {
                        assert(suffix_vec@ =~= suffix@);
                    }
                    match tree_insert(mapping, &suffix_vec, &id_bytes) {
                        Ok(()) => Ok(id),
                        Err(e) => Err(MigrateError::Store(e)),
                    }
                },
                Err(e) => Err(e),
            }
        },
        Err(e) => Err(MigrateError::Store(e)),
    }
}

} // verus!
