//! Whole-pass tests against a real temporary store: the end-to-end example,
//! idempotence of a re-run, injectivity and monotonicity of id allocation,
//! mapping stability, the abort-before-apply asymmetry, and the two error
//! kinds.

use statekey_migration::counter::next_count;
use statekey_migration::engine::{migrate, stage_all};
use statekey_migration::error::MigrateError;

fn open_store() -> (sled::Db, sled::Tree, sled::Tree, sled::Tree) {
    let db = sled::Config::new().temporary(true).open().expect("open temporary store");
    let records = db.open_tree("stateid_pduid").expect("open record tree");
    let mapping = db.open_tree("statekey_short").expect("open mapping tree");
    let globals = db.open_tree("global").expect("open globals tree");
    (db, records, mapping, globals)
}

fn legacy_key(hash: u8, suffix: &[u8]) -> Vec<u8> {
    let mut k = vec![hash; 32];
    k.push(0x05);
    k.extend_from_slice(suffix);
    k
}

fn all_pairs(tree: &sled::Tree) -> Vec<(Vec<u8>, Vec<u8>)> {
    tree.iter()
        .map(|p| {
            let (k, v) = p.expect("scan");
            (k.to_vec(), v.to_vec())
        })
        .collect()
}

#[test]
fn end_to_end_example() {
    let (_db, mut records, mut mapping, mut globals) = open_store();
    let key = legacy_key(0x11, &[0xAA, 0xBB]);
    assert_eq!(key.len(), 35);
    let value = vec![0x00, 0x00, 0x00, 0xFF, 0x01, 0x02, 0x03, 0x04, 0x05];
    records.insert(key.clone(), value).expect("seed record");

    let n = migrate(&mut records, &mut mapping, &mut globals).expect("migrate");
    assert_eq!(n, 1);

    let mut expected_key = vec![0x11; 32];
    expected_key.push(0xFF);
    expected_key.extend_from_slice(&[0, 0, 0, 0, 0, 0, 0, 1]);
    assert_eq!(
        all_pairs(&records),
        vec![(expected_key, vec![0x01, 0x02, 0x03, 0x04, 0x05])]
    );
    assert_eq!(
        all_pairs(&mapping),
        vec![(vec![0xAA, 0xBB], vec![0, 0, 0, 0, 0, 0, 0, 1])]
    );
    assert_eq!(
        all_pairs(&globals),
        vec![(b"c".to_vec(), vec![0, 0, 0, 0, 0, 0, 0, 1])]
    );
}

#[test]
fn rerun_is_a_noop() {
    let (_db, mut records, mut mapping, mut globals) = open_store();
    records
        .insert(legacy_key(0x11, &[0xAA]), vec![1, 2, 3])
        .expect("seed record");
    records
        .insert(legacy_key(0x22, &[0xBB, 0xCC]), vec![4, 5])
        .expect("seed record");

    let first = migrate(&mut records, &mut mapping, &mut globals).expect("first pass");
    assert_eq!(first, 2);
    let after_first = all_pairs(&records);
    let mapping_after_first = all_pairs(&mapping);
    let globals_after_first = all_pairs(&globals);

    let second = migrate(&mut records, &mut mapping, &mut globals).expect("second pass");
    assert_eq!(second, 0);
    assert_eq!(all_pairs(&records), after_first);
    assert_eq!(all_pairs(&mapping), mapping_after_first);
    assert_eq!(all_pairs(&globals), globals_after_first);
}

#[test]
fn distinct_suffixes_get_distinct_sequential_ids() {
    let (_db, mut records, mut mapping, mut globals) = open_store();
    // Three distinct suffixes; key order fixes the order of first encounter.
    records.insert(legacy_key(0x01, &[0x0A]), vec![]).expect("seed");
    records.insert(legacy_key(0x02, &[0x0B]), vec![]).expect("seed");
    records.insert(legacy_key(0x03, &[0x0C]), vec![]).expect("seed");

    let n = migrate(&mut records, &mut mapping, &mut globals).expect("migrate");
    assert_eq!(n, 3);
    assert_eq!(
        mapping.get([0x0A]).expect("get").map(|v| v.to_vec()),
        Some(vec![0, 0, 0, 0, 0, 0, 0, 1])
    );
    assert_eq!(
        mapping.get([0x0B]).expect("get").map(|v| v.to_vec()),
        Some(vec![0, 0, 0, 0, 0, 0, 0, 2])
    );
    assert_eq!(
        mapping.get([0x0C]).expect("get").map(|v| v.to_vec()),
        Some(vec![0, 0, 0, 0, 0, 0, 0, 3])
    );
    // Exactly three ids were allocated.
    assert_eq!(
        globals.get("c").expect("get").map(|v| v.to_vec()),
        Some(vec![0, 0, 0, 0, 0, 0, 0, 3])
    );
}

#[test]
fn shared_suffix_reuses_one_id() {
    let (_db, mut records, mut mapping, mut globals) = open_store();
    // Two records under different hash prefixes share one suffix.
    records.insert(legacy_key(0x01, &[0x77]), vec![]).expect("seed");
    records.insert(legacy_key(0x02, &[0x77]), vec![]).expect("seed");

    let n = migrate(&mut records, &mut mapping, &mut globals).expect("migrate");
    assert_eq!(n, 2);
    assert_eq!(mapping.len(), 1);
    assert_eq!(
        globals.get("c").expect("get").map(|v| v.to_vec()),
        Some(vec![0, 0, 0, 0, 0, 0, 0, 1])
    );
}

#[test]
fn mapping_is_stable_across_runs() {
    let (_db, mut records, mut mapping, mut globals) = open_store();
    records.insert(legacy_key(0x01, &[0x55]), vec![]).expect("seed");
    migrate(&mut records, &mut mapping, &mut globals).expect("first pass");
    let id = mapping.get([0x55]).expect("get").expect("mapped").to_vec();

    // A later run meets the same suffix under a new record and reuses the id.
    records.insert(legacy_key(0x04, &[0x55]), vec![]).expect("seed");
    migrate(&mut records, &mut mapping, &mut globals).expect("second pass");
    assert_eq!(mapping.len(), 1);
    assert_eq!(
        mapping.get([0x55]).expect("get").expect("mapped").to_vec(),
        id
    );
}

#[test]
fn abort_before_apply_leaves_records_untouched_but_keeps_allocations() {
    let (_db, records, mut mapping, mut globals) = open_store();
    let key = legacy_key(0x11, &[0xAA, 0xBB]);
    records.insert(key.clone(), vec![9, 9]).expect("seed record");
    let before = all_pairs(&records);

    // Stage the whole pass but never apply the batch: the deliberate
    // asymmetry persists the allocation while the record table stays as it
    // was.
    let scanned: Vec<(Vec<u8>, Vec<u8>)> = all_pairs(&records);
    let (_batch, staged) = stage_all(&scanned, &mut mapping, &mut globals).expect("stage");
    assert_eq!(staged, 1);
    assert_eq!(all_pairs(&records), before);
    assert_eq!(mapping.len(), 1);

    // A later full pass reuses the orphaned allocation.
    let mut records = records;
    migrate(&mut records, &mut mapping, &mut globals).expect("migrate");
    assert_eq!(mapping.len(), 1);
    assert_eq!(
        globals.get("c").expect("get").map(|v| v.to_vec()),
        Some(vec![0, 0, 0, 0, 0, 0, 0, 1])
    );
}

#[test]
fn a_malformed_mapped_id_aborts_with_encoding() {
    let (_db, mut records, mut mapping, mut globals) = open_store();
    records.insert(legacy_key(0x11, &[0xAA]), vec![]).expect("seed");
    mapping.insert([0xAA], &[1, 2, 3][..]).expect("seed corrupt id");
    let before = all_pairs(&records);

    let r = migrate(&mut records, &mut mapping, &mut globals);
    assert!(matches!(r, Err(MigrateError::Encoding)));
    assert_eq!(all_pairs(&records), before);
}

#[test]
fn a_malformed_counter_aborts_with_encoding() {
    let (_db, mut records, mut mapping, mut globals) = open_store();
    records.insert(legacy_key(0x11, &[0xAA]), vec![]).expect("seed");
    globals.insert("c", &[7][..]).expect("seed corrupt counter");
    let before = all_pairs(&records);

    let r = migrate(&mut records, &mut mapping, &mut globals);
    assert!(matches!(r, Err(MigrateError::Encoding)));
    assert_eq!(all_pairs(&records), before);
    // The corrupt scalar is reported, never coerced.
    assert_eq!(
        globals.get("c").expect("get").map(|v| v.to_vec()),
        Some(vec![7])
    );
}

#[test]
fn next_count_is_monotonic_and_durable() {
    let (_db, _records, _mapping, mut globals) = open_store();
    assert_eq!(next_count(&mut globals).expect("first"), 1);
    assert_eq!(next_count(&mut globals).expect("second"), 2);
    assert_eq!(next_count(&mut globals).expect("third"), 3);
    assert_eq!(
        globals.get("c").expect("get").map(|v| v.to_vec()),
        Some(vec![0, 0, 0, 0, 0, 0, 0, 3])
    );
}

#[test]
fn colliding_legacy_keys_resolve_to_the_last_records_value() {
    let (_db, mut records, mut mapping, mut globals) = open_store();
    // Two legacy keys with the same hash prefix and suffix, differing only in
    // the marker byte, map to one migrated key; the lexicographically last
    // record's (deduplicated) value wins.
    let mut first = vec![0x11; 32];
    first.push(0x01);
    first.push(0xAA);
    let mut second = vec![0x11; 32];
    second.push(0x02);
    second.push(0xAA);
    records.insert(first, vec![9]).expect("seed");
    records.insert(second, vec![0xFF, 7]).expect("seed");

    let n = migrate(&mut records, &mut mapping, &mut globals).expect("migrate");
    assert_eq!(n, 2);
    let mut expected_key = vec![0x11; 32];
    expected_key.push(0xFF);
    expected_key.extend_from_slice(&[0, 0, 0, 0, 0, 0, 0, 1]);
    // The second record's value splits on its sentinel into parts of lengths
    // zero and one (0 + 1 + 1 = 2, not 8), so only its second part stays.
    assert_eq!(all_pairs(&records), vec![(expected_key, vec![7])]);
    assert_eq!(mapping.len(), 1);
}

#[test]
fn an_already_migrated_record_is_skipped() {
    let (_db, mut records, mut mapping, mut globals) = open_store();
    // A 41-byte key: 32-byte prefix plus a 9-byte remainder.
    let mut done = vec![0x33; 32];
    done.push(0xFF);
    done.extend_from_slice(&[0, 0, 0, 0, 0, 0, 0, 9]);
    // Its value keeps its shape even though it would split into two parts.
    let value = vec![1, 0xFF, 2, 3];
    records.insert(done.clone(), value.clone()).expect("seed");

    let n = migrate(&mut records, &mut mapping, &mut globals).expect("migrate");
    assert_eq!(n, 0);
    assert_eq!(all_pairs(&records), vec![(done, value)]);
    assert_eq!(mapping.len(), 0);
    assert_eq!(globals.len(), 0);
}
