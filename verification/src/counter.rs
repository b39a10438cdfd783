//! The counter allocator: one persisted eight-byte big-endian scalar under a
//! fixed one-byte key, advanced by an atomic read-modify-write against the
//! store.  Absence means zero; the first allocated id is one.

use vstd::prelude::*;
use vstd::slice::slice_to_vec;
use crate::codec::{u64_to_be, u64_from_be, decode_u64, encode_u64};
use crate::codec::{lemma_u64_be_round_trip, lemma_u64_be_bytes_round_trip};
use crate::error::MigrateError;
use crate::store::{tree_view, tree_increment};

verus! {

/// The fixed key (the one-byte string "c") the counter scalar is stored under.
pub open spec fn counter_key() -> Seq<u8> {
    seq![0x63u8]
}

/// The counter key as a byte vector.
pub fn counter_key_bytes() -> (r: Vec<u8>)
    ensures
        r@ == counter_key(),
{
    let mut r: Vec<u8> = Vec::new();
    r.push(0x63);
    proof {
        assert(r@ =~= counter_key());
    }
    r
}

/// The counter scalar a store currently holds: absent means zero.
pub open spec fn counter_value(m: Map<Seq<u8>, Seq<u8>>) -> u64 {
    if m.contains_key(counter_key()) && m[counter_key()].len() == 8 {
        u64_from_be(m[counter_key()])
    } else {
        0
    }
}

/// The stored counter is well-formed: absent, or exactly eight bytes.
pub open spec fn counter_wf(m: Map<Seq<u8>, Seq<u8>>) -> bool {
    m.contains_key(counter_key()) ==> m[counter_key()].len() == 8
}

/// A well-formed stored counter has room to advance.
pub open spec fn counter_can_advance(m: Map<Seq<u8>, Seq<u8>>) -> bool {
    m.contains_key(counter_key()) && m[counter_key()].len() == 8 ==> u64_from_be(
        m[counter_key()],
    ) < u64::MAX
}

/// What one read-modify-write step stores: the encoded successor of a
/// well-formed scalar (absence reads as zero), and a malformed scalar
/// unchanged, so that the caller sees and reports the corruption.
pub open spec fn spec_increment(previous: Option<Seq<u8>>) -> Seq<u8> {
    match previous {
        None => u64_to_be(1),
        Some(b) => if b.len() == 8 {
            u64_to_be(((u64_from_be(b) + 1) as u64))
        } else {
            b
        },
    }
}

/// The update function handed to the store's atomic read-modify-write: maps
/// the current counter scalar (absent reads as zero) to its encoded
/// successor; hands a malformed scalar back unchanged.
pub fn increment(previous: Option<&[u8]>) -> (r: Option<Vec<u8>>)
    requires
        previous matches Some(b) ==> (b@.len() == 8 ==> u64_from_be(b@) < u64::MAX),
    ensures
        r matches Some(v) && v@ == spec_increment(
            match previous {
                Some(b) => Some(b@),
                None => None,
            },
        ),
{
    let number: u64 = match previous {
        Some(bytes) => {
            if bytes.len() == 8 {
                decode_u64(bytes) + 1
            } else {
                return Some(slice_to_vec(bytes));
            }
        },
        None => 1,
    };
    Some(encode_u64(number))
}

/// Allocate the next short id: atomically advance the persisted counter and
/// return the new value.  Fails with `Encoding` when the stored scalar is not
/// exactly eight bytes, leaving it untouched; fails with `Store` when the
/// engine does.
pub fn next_count(globals: &mut sled::Tree) -> (r: Result<u64, MigrateError>)
    requires
        counter_can_advance(tree_view(*old(globals))),
    ensures
        r matches Ok(id) ==> {
            &&& counter_wf(tree_view(*old(globals)))
            &&& id == counter_value(tree_view(*old(globals))) + 1
            &&& tree_view(*final(globals)) == tree_view(*old(globals)).insert(
                counter_key(),
                u64_to_be(id),
            )
        },
        r matches Err(e) && e is Encoding ==> !counter_wf(tree_view(*old(globals))),
        r is Err ==> tree_view(*final(globals)) == tree_view(*old(globals)),
{
    let key = counter_key_bytes();
    let ghost m0 = tree_view(*globals);
    match tree_increment(globals, &key) {
        Ok(Some(bytes)) => {
            if bytes.len() == 8 {
                let id = decode_u64(bytes.as_slice());
                proof {
                    lemma_u64_be_bytes_round_trip(bytes@);
                    if m0.contains_key(counter_key()) && m0[counter_key()].len() == 8 {
                        lemma_u64_be_round_trip(((counter_value(m0) + 1) as u64));
                    } else {
                        lemma_u64_be_round_trip(1);
                    }
                }
                Ok(id)
            } else {
                // The scalar was malformed and was written back unchanged:
                // the view is the old view with an entry re-inserted as is.
                proof {
                    assert(tree_view(*globals) =~= m0);
                }
                Err(MigrateError::Encoding)
            }
        },
        Ok(None) => {
            // The update function always stores a value.
            proof {
                assert(false);
            }
            Err(MigrateError::Encoding)
        },
        Err(e) => Err(MigrateError::Store(e)),
    }
}

} // verus!
