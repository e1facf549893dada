use secret_store_runtime::error::Error;
use secret_store_runtime::id::H256;
use secret_store_runtime::secret_store::{
    DocumentKeyStoreService, Event, GenesisConfig, SecretStore, ServiceResponse, MAX_STORE_REQUESTS,
};

const OWNER: u64 = 1;
const REQUESTER1: u64 = 2;
const REQUESTER2: u64 = 3;
const KEY_SERVER0: u64 = 100;
const KEY_SERVER1: u64 = 101;
const KEY_SERVER2: u64 = 102;
const KEY_SERVER3: u64 = 103;
const KEY_SERVER4: u64 = 104;

fn id(byte: u8) -> H256 {
    H256::from_bytes([byte; 32])
}

fn default_initialization() -> SecretStore {
    let mut claims = vec![(OWNER, id(OWNER as u8)), (REQUESTER1, id(REQUESTER1 as u8))];
    for account in [KEY_SERVER0, KEY_SERVER1, KEY_SERVER2, KEY_SERVER3, KEY_SERVER4] {
        claims.push((account, id(account as u8)));
    }
    SecretStore::genesis(GenesisConfig {
        owner: OWNER,
        is_initialization_completed: true,
        key_servers: vec![
            (id(KEY_SERVER0 as u8), vec![KEY_SERVER0 as u8; 32]),
            (id(KEY_SERVER1 as u8), vec![KEY_SERVER1 as u8; 32]),
        ],
        server_key_generation_fee: 1_000_000,
        server_key_retrieval_fee: 1_000_000,
        document_key_store_fee: 1_000_000,
        balances: vec![(OWNER, 10_000_000), (REQUESTER1, 10_000_000)],
        claims,
    })
    .unwrap()
}

#[test]
fn should_accept_document_key_store_request() {
    let mut st = default_initialization();
    DocumentKeyStoreService::store(&mut st, REQUESTER1, id(32), vec![21], vec![42]).unwrap();
    assert!(st.events().iter().any(|e| *e
        == Event::DocumentKeyStoreRequested(id(32), id(REQUESTER1 as u8), vec![21], vec![42])));
}

#[test]
fn should_reject_document_key_store_request_when_fee_is_not_paid() {
    let mut st = default_initialization();
    DocumentKeyStoreService::store(&mut st, REQUESTER2, id(32), vec![21], vec![42]).unwrap_err();
}

#[test]
fn should_reject_document_key_store_request_when_limit_reached() {
    let mut st = default_initialization();
    for i in 0..MAX_STORE_REQUESTS {
        DocumentKeyStoreService::store(&mut st, REQUESTER1, id(i as u8), vec![21], vec![42]).unwrap();
    }
    DocumentKeyStoreService::store(&mut st, REQUESTER1, id(MAX_STORE_REQUESTS as u8), vec![21], vec![42])
        .unwrap_err();
}

#[test]
fn should_reject_duplicated_document_key_store_request() {
    let mut st = default_initialization();
    DocumentKeyStoreService::store(&mut st, REQUESTER1, id(32), vec![21], vec![42]).unwrap();
    DocumentKeyStoreService::store(&mut st, REQUESTER1, id(32), vec![21], vec![42]).unwrap_err();
}

#[test]
fn should_publish_document_key_store_confirmation() {
    let mut st = default_initialization();
    DocumentKeyStoreService::store(&mut st, REQUESTER1, id(32), vec![21], vec![42]).unwrap();
    let events_count = st.events().len();

    DocumentKeyStoreService::on_stored(&mut st, KEY_SERVER0, id(32)).unwrap();
    assert_eq!(events_count, st.events().len());

    DocumentKeyStoreService::on_stored(&mut st, KEY_SERVER1, id(32)).unwrap();
    assert_eq!(events_count + 1, st.events().len());
    assert!(st.events().iter().any(|e| *e == Event::DocumentKeyStored(id(32))));

    // another report from key server 2 is ignored without error
    DocumentKeyStoreService::on_stored(&mut st, KEY_SERVER1, id(32)).unwrap();
}

#[test]
fn should_not_accept_store_confirmation_from_non_key_server() {
    let mut st = default_initialization();
    DocumentKeyStoreService::store(&mut st, REQUESTER1, id(32), vec![21], vec![42]).unwrap();
    DocumentKeyStoreService::on_stored(&mut st, KEY_SERVER3, id(32)).unwrap_err();
}

#[test]
fn document_key_storing_should_not_publish_generated_key_when_receiving_responses_from_same_key_server() {
    let mut st = default_initialization();
    DocumentKeyStoreService::store(&mut st, REQUESTER1, id(32), vec![21], vec![42]).unwrap();
    let events_count = st.events().len();
    DocumentKeyStoreService::on_stored(&mut st, KEY_SERVER1, id(32)).unwrap();
    DocumentKeyStoreService::on_stored(&mut st, KEY_SERVER1, id(32)).unwrap();
    assert_eq!(events_count, st.events().len());
}

#[test]
fn should_raise_store_error_when_at_least_one_server_has_responded_with_error() {
    let mut st = default_initialization();
    DocumentKeyStoreService::store(&mut st, REQUESTER1, id(32), vec![21], vec![42]).unwrap();
    let events_count = st.events().len();
    DocumentKeyStoreService::on_store_error(&mut st, KEY_SERVER0, id(32)).unwrap();
    assert_eq!(events_count + 1, st.events().len());
    assert!(st.events().iter().any(|e| *e == Event::DocumentKeyStoreError(id(32))));
}

#[test]
fn should_fail_if_store_error_is_reported_by_non_key_server() {
    let mut st = default_initialization();
    DocumentKeyStoreService::store(&mut st, REQUESTER1, id(32), vec![21], vec![42]).unwrap();
    DocumentKeyStoreService::on_store_error(&mut st, REQUESTER1, id(32)).unwrap_err();
}

#[test]
fn should_not_raise_store_error_if_no_active_request() {
    let mut st = default_initialization();
    DocumentKeyStoreService::on_store_error(&mut st, KEY_SERVER0, id(32)).unwrap();
    assert_eq!(0, st.events().len());
}

#[test]
fn should_return_if_store_response_is_required() {
    let mut st = default_initialization();
    let ks0 = id(KEY_SERVER0 as u8);
    let ks1 = id(KEY_SERVER1 as u8);
    DocumentKeyStoreService::store(&mut st, REQUESTER1, id(32), vec![21], vec![42]).unwrap();

    assert!(DocumentKeyStoreService::is_response_required(&st, ks0, id(32)));
    assert!(DocumentKeyStoreService::is_response_required(&st, ks1, id(32)));

    DocumentKeyStoreService::on_stored(&mut st, KEY_SERVER0, id(32)).unwrap();
    assert!(!DocumentKeyStoreService::is_response_required(&st, ks0, id(32)));
    assert!(DocumentKeyStoreService::is_response_required(&st, ks1, id(32)));

    DocumentKeyStoreService::on_stored(&mut st, KEY_SERVER1, id(32)).unwrap();
    assert!(!DocumentKeyStoreService::is_response_required(&st, ks0, id(32)));
    assert!(!DocumentKeyStoreService::is_response_required(&st, ks1, id(32)));
}

#[test]
fn should_reset_existing_responses_when_key_server_set_changes() {
    let mut st = default_initialization();
    let ks0 = id(KEY_SERVER0 as u8);
    let ks1 = id(KEY_SERVER1 as u8);
    DocumentKeyStoreService::store(&mut st, REQUESTER1, id(32), vec![21], vec![42]).unwrap();

    DocumentKeyStoreService::on_stored(&mut st, KEY_SERVER0, id(32)).unwrap();
    assert!(!DocumentKeyStoreService::is_response_required(&st, ks0, id(32)));

    // the key server set changes
    st.set_current_set_change_block(100);

    DocumentKeyStoreService::on_stored(&mut st, KEY_SERVER1, id(32)).unwrap();

    assert!(DocumentKeyStoreService::is_response_required(&st, ks0, id(32)));
    assert!(!DocumentKeyStoreService::is_response_required(&st, ks1, id(32)));
}

#[test]
fn third_store_report_is_a_silent_no_op() {
    let mut st = default_initialization();
    DocumentKeyStoreService::store(&mut st, REQUESTER1, id(32), vec![21], vec![42]).unwrap();
    DocumentKeyStoreService::on_stored(&mut st, KEY_SERVER0, id(32)).unwrap();
    DocumentKeyStoreService::on_stored(&mut st, KEY_SERVER1, id(32)).unwrap();
    assert_eq!(st.events().last(), Some(&Event::DocumentKeyStored(id(32))));
    let events_count = st.events().len();
    DocumentKeyStoreService::on_stored(&mut st, KEY_SERVER0, id(32)).unwrap();
    assert_eq!(events_count, st.events().len());
    assert_eq!(st.document_key_store_requests_count(), 0);
}

#[test]
fn store_errors_have_their_kinds() {
    let mut st = default_initialization();
    assert_eq!(
        DocumentKeyStoreService::store(&mut st, REQUESTER2, id(32), vec![21], vec![42]),
        Err(Error::FeePaymentFailed)
    );
    DocumentKeyStoreService::store(&mut st, REQUESTER1, id(32), vec![21], vec![42]).unwrap();
    assert_eq!(
        DocumentKeyStoreService::store(&mut st, REQUESTER1, id(32), vec![21], vec![42]),
        Err(Error::DuplicateRequest)
    );
    for i in 0..7u8 {
        DocumentKeyStoreService::store(&mut st, REQUESTER1, id(i), vec![21], vec![42]).unwrap();
    }
    assert_eq!(
        DocumentKeyStoreService::store(&mut st, REQUESTER1, id(9), vec![21], vec![42]),
        Err(Error::QueueFull)
    );
    assert_eq!(
        DocumentKeyStoreService::on_stored(&mut st, REQUESTER1, id(32)),
        Err(Error::InvalidOrigin)
    );
}

#[test]
fn store_requires_an_author_id() {
    let mut st = SecretStore::genesis(GenesisConfig {
        owner: OWNER,
        is_initialization_completed: true,
        key_servers: vec![(id(KEY_SERVER0 as u8), vec![1])],
        server_key_generation_fee: 10,
        server_key_retrieval_fee: 10,
        document_key_store_fee: 10,
        balances: vec![(REQUESTER2, 100)],
        claims: vec![(KEY_SERVER0, id(KEY_SERVER0 as u8))],
    })
    .unwrap();
    assert_eq!(
        DocumentKeyStoreService::store(&mut st, REQUESTER2, id(32), vec![21], vec![42]),
        Err(Error::InvalidOrigin)
    );
    assert_eq!(st.free_balance(REQUESTER2), 100);
}

#[test]
fn store_without_key_servers_is_refused() {
    let mut st = SecretStore::genesis(GenesisConfig {
        owner: OWNER,
        is_initialization_completed: true,
        key_servers: vec![],
        server_key_generation_fee: 10,
        server_key_retrieval_fee: 10,
        document_key_store_fee: 10,
        balances: vec![(REQUESTER1, 100)],
        claims: vec![(REQUESTER1, id(REQUESTER1 as u8))],
    })
    .unwrap();
    assert_eq!(
        DocumentKeyStoreService::store(&mut st, REQUESTER1, id(32), vec![21], vec![42]),
        Err(Error::BadParameters)
    );
}

#[test]
fn service_response_dispatches_store_reports() {
    let mut st = default_initialization();
    DocumentKeyStoreService::store(&mut st, REQUESTER1, id(32), vec![21], vec![42]).unwrap();
    st.service_response(KEY_SERVER0, ServiceResponse::DocumentKeyStored(id(32))).unwrap();
    st.service_response(KEY_SERVER1, ServiceResponse::DocumentKeyStored(id(32))).unwrap();
    assert_eq!(st.events().last(), Some(&Event::DocumentKeyStored(id(32))));
    DocumentKeyStoreService::store(&mut st, REQUESTER1, id(33), vec![21], vec![42]).unwrap();
    st.service_response(KEY_SERVER1, ServiceResponse::DocumentKeyStoreFailed(id(33))).unwrap();
    assert_eq!(st.events().last(), Some(&Event::DocumentKeyStoreError(id(33))));
    assert!(!st.is_document_key_store_response_required(id(KEY_SERVER0 as u8), id(33)));
}
