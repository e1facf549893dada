use secret_store_runtime::error::Error;
use secret_store_runtime::id::H256;
use secret_store_runtime::secret_store::{
    resolve_entity_id, Event, GenesisConfig, SecretStore, ServerKeyGenerationService, ServiceResponse,
};

const OWNER: u64 = 1;
const REQUESTER1: u64 = 2;
const S1: u64 = 100;
const S2: u64 = 101;
const S3: u64 = 102;

fn id(byte: u8) -> H256 {
    H256::from_bytes([byte; 32])
}

fn initialize(is_initialization_completed: bool) -> SecretStore {
    SecretStore::genesis(GenesisConfig {
        owner: OWNER,
        is_initialization_completed,
        key_servers: vec![(id(S1 as u8), vec![1]), (id(S2 as u8), vec![2])],
        server_key_generation_fee: 10,
        server_key_retrieval_fee: 10,
        document_key_store_fee: 10,
        balances: vec![(REQUESTER1, 1_000)],
        claims: vec![
            (OWNER, id(OWNER as u8)),
            (REQUESTER1, id(REQUESTER1 as u8)),
            (S1, id(S1 as u8)),
            (S2, id(S2 as u8)),
            (S3, id(S3 as u8)),
        ],
    })
    .unwrap()
}

fn ids(list: &[(H256, Vec<u8>)]) -> Vec<H256> {
    list.iter().map(|(k, _)| *k).collect()
}

#[test]
fn migration_happy_path() {
    let mut st = initialize(true);
    let m = id(77);
    st.add_key_server(OWNER, id(S3 as u8), vec![3]).unwrap();
    assert_eq!(st.events().last(), Some(&Event::KeyServerAdded(id(S3 as u8))));
    st.start_migration(S1, m).unwrap();
    assert_eq!(st.events().last(), Some(&Event::MigrationStarted));
    let snapshot = st.key_server_set_snapshot(id(S1 as u8));
    let migration = snapshot.migration.unwrap();
    assert_eq!(migration.master, id(S1 as u8));
    assert_eq!(migration.id, m);
    assert_eq!(ids(&migration.set), vec![id(S1 as u8), id(S2 as u8), id(S3 as u8)]);
    assert!(!migration.is_confirmed);

    let block = st.current_set_change_block();
    st.confirm_migration(S1, m).unwrap();
    assert!(st.key_server_set_snapshot(id(S1 as u8)).migration.unwrap().is_confirmed);
    st.confirm_migration(S2, m).unwrap();
    assert_eq!(ids(&st.key_server_set_snapshot(id(S1 as u8)).current_set), vec![id(S1 as u8), id(S2 as u8)]);
    st.confirm_migration(S3, m).unwrap();

    let snapshot = st.key_server_set_snapshot(id(S1 as u8));
    assert_eq!(ids(&snapshot.current_set), vec![id(S1 as u8), id(S2 as u8), id(S3 as u8)]);
    assert!(snapshot.migration.is_none());
    assert_eq!(st.current_set_change_block(), block + 1);
    assert_eq!(st.events().last(), Some(&Event::MigrationCompleted));
}

#[test]
fn confirming_twice_is_confirming_once() {
    let mut st = initialize(true);
    let m = id(77);
    st.add_key_server(OWNER, id(S3 as u8), vec![3]).unwrap();
    st.start_migration(S1, m).unwrap();
    st.confirm_migration(S2, m).unwrap();
    let events = st.events().len();
    st.confirm_migration(S2, m).unwrap();
    assert_eq!(st.events().len(), events);
    st.confirm_migration(S1, m).unwrap();
    st.confirm_migration(S3, m).unwrap();
    // the migration is over: one more confirmation is refused and changes nothing
    let events = st.events().len();
    assert_eq!(st.confirm_migration(S3, m), Err(Error::MigrationInvariant));
    assert_eq!(st.events().len(), events);
}

#[test]
fn migration_errors() {
    let mut st = initialize(true);
    let m = id(77);
    // nothing to migrate
    assert_eq!(st.start_migration(S1, m), Err(Error::MigrationInvariant));
    // not a member of either set
    assert_eq!(st.start_migration(REQUESTER1, m), Err(Error::InvalidOrigin));
    // no claimed id
    assert_eq!(st.start_migration(55, m), Err(Error::InvalidOrigin));
    st.remove_key_server(OWNER, id(S2 as u8)).unwrap();
    st.start_migration(S2, m).unwrap();
    assert_eq!(st.start_migration(S1, m), Err(Error::MigrationInvariant));
    // S2 is not in the migration set; wrong id
    assert_eq!(st.confirm_migration(S2, m), Err(Error::MigrationInvariant));
    assert_eq!(st.confirm_migration(S1, id(78)), Err(Error::MigrationInvariant));
    // new set is frozen while migrating
    assert_eq!(st.add_key_server(OWNER, id(S3 as u8), vec![3]), Err(Error::SetInvariant));
    st.confirm_migration(S1, m).unwrap();
    let snapshot = st.key_server_set_snapshot(id(S1 as u8));
    assert_eq!(ids(&snapshot.current_set), vec![id(S1 as u8)]);
}

#[test]
fn master_is_smallest_common_member() {
    let mut st = initialize(true);
    st.remove_key_server(OWNER, id(S1 as u8)).unwrap();
    st.add_key_server(OWNER, id(S3 as u8), vec![3]).unwrap();
    st.start_migration(S3, id(5)).unwrap();
    let migration = st.key_server_set_snapshot(id(S3 as u8)).migration.unwrap();
    assert_eq!(migration.master, id(S2 as u8));
}

#[test]
fn master_falls_back_to_smallest_current_member() {
    let mut st = initialize(true);
    st.remove_key_server(OWNER, id(S1 as u8)).unwrap();
    st.remove_key_server(OWNER, id(S2 as u8)).unwrap();
    st.add_key_server(OWNER, id(S3 as u8), vec![3]).unwrap();
    st.start_migration(S3, id(5)).unwrap();
    let migration = st.key_server_set_snapshot(id(S3 as u8)).migration.unwrap();
    assert_eq!(migration.master, id(S1 as u8));
}

#[test]
fn admin_operations_are_owner_only() {
    let mut st = initialize(true);
    assert_eq!(st.add_key_server(REQUESTER1, id(S3 as u8), vec![3]), Err(Error::InvalidOrigin));
    assert_eq!(st.remove_key_server(S1, id(S1 as u8)), Err(Error::InvalidOrigin));
    assert_eq!(st.update_key_server(S1, id(S1 as u8), vec![9]), Err(Error::InvalidOrigin));
    assert_eq!(st.complete_initialization(REQUESTER1), Err(Error::InvalidOrigin));
    assert_eq!(st.complete_initialization(OWNER), Err(Error::SetInvariant));
    assert_eq!(st.add_key_server(OWNER, id(S1 as u8), vec![3]), Err(Error::SetInvariant));
    assert_eq!(st.update_key_server(OWNER, id(S3 as u8), vec![3]), Err(Error::SetInvariant));
    assert_eq!(st.remove_key_server(OWNER, id(S3 as u8)), Err(Error::SetInvariant));
    st.update_key_server(OWNER, id(S1 as u8), vec![9]).unwrap();
    assert_eq!(st.events().last(), Some(&Event::KeyServerUpdated(id(S1 as u8))));
    let snapshot = st.key_server_set_snapshot(id(S1 as u8));
    assert_eq!(snapshot.new_set[0].1, vec![9]);
    assert_eq!(snapshot.current_set[0].1, vec![1]);
    st.remove_key_server(OWNER, id(S1 as u8)).unwrap();
    assert_eq!(st.events().last(), Some(&Event::KeyServerRemoved(id(S1 as u8))));
}

#[test]
fn uninitialized_edits_touch_the_current_set() {
    let mut st = initialize(false);
    assert_eq!(st.start_migration(S1, id(5)), Err(Error::MigrationInvariant));
    let block = st.current_set_change_block();
    st.add_key_server(OWNER, id(S3 as u8), vec![3]).unwrap();
    assert_eq!(st.current_set_change_block(), block + 1);
    let snapshot = st.key_server_set_snapshot(id(S1 as u8));
    assert_eq!(ids(&snapshot.current_set), ids(&snapshot.new_set));
    st.complete_initialization(OWNER).unwrap();
    st.remove_key_server(OWNER, id(S3 as u8)).unwrap();
    let snapshot = st.key_server_set_snapshot(id(S1 as u8));
    assert_eq!(snapshot.current_set.len(), 3);
    assert_eq!(snapshot.new_set.len(), 2);
}

#[test]
fn aggregator_resets_after_set_change() {
    let mut st = initialize(false);
    ServerKeyGenerationService::generate(&mut st, REQUESTER1, id(32), 1).unwrap();
    ServerKeyGenerationService::on_generated(&mut st, S1, id(32), vec![42]).unwrap();
    let rs = st.server_key_generation_request(&id(32)).unwrap().responses;
    assert_eq!(rs.responded_key_servers_count, 1);
    st.add_key_server(OWNER, id(S3 as u8), vec![3]).unwrap();
    st.service_response(S2, ServiceResponse::ServerKeyGenerated(id(32), vec![42])).unwrap();
    let rs = st.server_key_generation_request(&id(32)).unwrap().responses;
    assert_eq!(rs.responded_key_servers_count, 1);
    assert!(!rs.responded_key_servers_mask.is_set(0));
    assert!(rs.responded_key_servers_mask.is_set(1));
    assert!(st.is_server_key_generation_response_required(id(S1 as u8), id(32)));
    assert!(!st.is_server_key_generation_response_required(id(S2 as u8), id(32)));
}

#[test]
fn claims_are_unique_both_ways() {
    let mut st = initialize(true);
    assert_eq!(st.claim_id(REQUESTER1, id(9)), Err(Error::IdConflict));
    assert_eq!(st.claim_id(77, id(S1 as u8)), Err(Error::IdConflict));
    st.claim_id(77, id(9)).unwrap();
    assert_eq!(resolve_entity_id(&st, 77), Ok(id(9)));
    assert_eq!(resolve_entity_id(&st, 78), Err(Error::InvalidOrigin));
}

#[test]
fn genesis_refuses_bad_configuration() {
    let repeated = GenesisConfig {
        owner: OWNER,
        is_initialization_completed: true,
        key_servers: vec![(id(1), vec![1]), (id(1), vec![2])],
        server_key_generation_fee: 0,
        server_key_retrieval_fee: 0,
        document_key_store_fee: 0,
        balances: vec![],
        claims: vec![],
    };
    assert!(SecretStore::genesis(repeated).is_err());
    let conflicting = GenesisConfig {
        owner: OWNER,
        is_initialization_completed: true,
        key_servers: vec![],
        server_key_generation_fee: 0,
        server_key_retrieval_fee: 0,
        document_key_store_fee: 0,
        balances: vec![],
        claims: vec![(1, id(1)), (2, id(1))],
    };
    assert_eq!(SecretStore::genesis(conflicting).err(), Some(Error::IdConflict));
    let st = initialize(true);
    assert_eq!(st.owner(), OWNER);
}
