use secret_store_runtime::build_cache::{BuildCache, IncompleteCachedBuildData};
use secret_store_runtime::id::H256;
use secret_store_runtime::mask::KeyServersMask;
use secret_store_runtime::migration_tx::{update_last_transaction_block, MigrationTransactions};
use secret_store_runtime::service::{ResponseSupport, ResponsesSupport, SecretStoreService};

fn id(byte: u8) -> H256 {
    H256::from_bytes([byte; 32])
}

#[test]
fn mask_from_index_union_and_test() {
    let a = KeyServersMask::from_index(3);
    let b = KeyServersMask::from_index(200);
    let u = a.union(&b);
    assert!(u.is_set(3) && u.is_set(200));
    assert!(!u.is_set(4) && !u.is_set(199) && !u.is_set(67));
    assert!(!KeyServersMask::empty().is_set(0));
    assert!(KeyServersMask::from_index(255).is_set(255));
    assert!(KeyServersMask::empty().with_index(64).is_set(64));
}

#[test]
fn ids_from_bytes_are_ordered_by_bytes() {
    let mut a = [0u8; 32];
    let mut b = [0u8; 32];
    a[31] = 1;
    b[0] = 1;
    assert!(H256::from_bytes(a).lt(&H256::from_bytes(b)));
    assert!(!H256::from_bytes(b).lt(&H256::from_bytes(a)));
    assert_eq!(id(0x20).w0, 0x2020202020202020);
    assert_eq!(H256::from_bytes(a).w3, 1);
}

#[test]
fn duplicate_response_is_ignored() {
    let mut rs = SecretStoreService::new_responses(5);
    let mut sup = ResponsesSupport::new();
    let r1 = SecretStoreService::insert_response(3, 5, 0, 1, &mut rs, &mut sup, &vec![42]);
    assert_eq!(r1, ResponseSupport::Unconfirmed);
    let once = rs;
    let r2 = SecretStoreService::insert_response(3, 5, 0, 1, &mut rs, &mut sup, &vec![42]);
    assert_eq!(r2, ResponseSupport::Unconfirmed);
    assert_eq!(rs, once);
    assert_eq!(rs.responded_key_servers_count, 1);
    assert_eq!(rs.max_response_support, 1);
}

#[test]
fn two_of_three_confirm_with_threshold_one() {
    let mut rs = SecretStoreService::new_responses(0);
    let mut sup = ResponsesSupport::new();
    assert_eq!(
        SecretStoreService::insert_response(3, 0, 0, 1, &mut rs, &mut sup, &vec![42]),
        ResponseSupport::Unconfirmed
    );
    assert_eq!(
        SecretStoreService::insert_response(3, 0, 1, 1, &mut rs, &mut sup, &vec![42]),
        ResponseSupport::Confirmed
    );
    assert_eq!(rs.max_response_support, 2);
}

#[test]
fn disagreement_makes_confirmation_impossible() {
    let mut rs = SecretStoreService::new_responses(0);
    let mut sup = ResponsesSupport::new();
    SecretStoreService::insert_response(2, 0, 0, 1, &mut rs, &mut sup, &vec![42]);
    assert_eq!(
        SecretStoreService::insert_response(2, 0, 1, 1, &mut rs, &mut sup, &vec![43]),
        ResponseSupport::Impossible
    );
    assert_eq!(rs.max_response_support, 1);
    assert_eq!(rs.responded_key_servers_count, 2);
}

#[test]
fn stale_tally_starts_over() {
    let mut rs = SecretStoreService::new_responses(0);
    let mut sup = ResponsesSupport::new();
    SecretStoreService::insert_response(3, 0, 0, 2, &mut rs, &mut sup, &vec![42]);
    SecretStoreService::insert_response(3, 7, 1, 2, &mut rs, &mut sup, &vec![42]);
    assert_eq!(rs.key_servers_change_block, 7);
    assert_eq!(rs.responded_key_servers_count, 1);
    assert!(!rs.responded_key_servers_mask.is_set(0));
    assert!(rs.responded_key_servers_mask.is_set(1));
    assert_eq!(sup.support(&vec![42]), 2);
}

#[test]
fn threshold_zero_first_response_confirms() {
    let mut rs = SecretStoreService::new_responses(0);
    let mut sup = ResponsesSupport::new();
    assert_eq!(
        SecretStoreService::insert_response(4, 0, 2, 0, &mut rs, &mut sup, &vec![1]),
        ResponseSupport::Confirmed
    );
}

#[test]
fn tally_counts_per_response() {
    let mut sup = ResponsesSupport::new();
    assert_eq!(sup.support(&vec![1]), 1);
    assert_eq!(sup.support(&vec![2]), 1);
    assert_eq!(sup.support(&vec![1]), 2);
    sup.reset();
    assert_eq!(sup.support(&vec![1]), 1);
}

#[test]
fn migration_transaction_retries_after_interval() {
    let mut prev = None;
    let m = id(1);
    assert!(update_last_transaction_block(&(10, id(0)), &m, &mut prev));
    assert!(!update_last_transaction_block(&(39, id(0)), &m, &mut prev));
    assert!(update_last_transaction_block(&(40, id(0)), &m, &mut prev));
    assert!(update_last_transaction_block(&(41, id(0)), &id(2), &mut prev));
    assert_eq!(prev.unwrap().block.0, 41);

    let mut txs = MigrationTransactions::new((5, id(0)));
    assert!(txs.start_migration(m));
    assert!(!txs.start_migration(m));
    assert!(txs.confirm_migration(m));
    txs.on_best_block_updated((35, id(3)));
    assert!(txs.start_migration(m));
    assert!(txs.confirm_migration(m));
}

#[test]
fn build_cache_prunes_digest_inputs() {
    let mut cache = BuildCache::new();
    let mut data = IncompleteCachedBuildData::new();
    data.insert(vec![vec![1], vec![2], vec![1]]);
    data.set_digest_input_blocks(vec![3, 4]);
    assert_eq!(data.changed_keys().len(), 2);
    cache.insert(data.complete(77));
    assert_eq!(cache.get(&77).map(|keys| keys.len()), Some(2));
    assert!(cache.get(&78).is_none());
}
