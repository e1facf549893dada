use secret_store_runtime::error::Error;
use secret_store_runtime::id::H256;
use secret_store_runtime::secret_store::{
    Event, GenesisConfig, SecretStore, ServerKeyGenerationService, ServerKeyRetrievalService,
    ServiceResponse, MAX_GENERATION_REQUESTS,
};

const OWNER: u64 = 1;
const REQUESTER1: u64 = 2;
const REQUESTER2: u64 = 3;
const KEY_SERVER0: u64 = 100;
const KEY_SERVER1: u64 = 101;
const KEY_SERVER2: u64 = 102;
const KEY_SERVER3: u64 = 103;
const KEY_SERVER4: u64 = 104;

fn id(byte: u8) -> H256 {
    H256::from_bytes([byte; 32])
}

fn key_server_set(n: u64) -> Vec<(H256, Vec<u8>)> {
    (0..n)
        .map(|i| (id((KEY_SERVER0 + i) as u8), vec![(KEY_SERVER0 + i) as u8; 32]))
        .collect()
}

fn initialize(is_initialization_completed: bool, n: u64) -> SecretStore {
    let mut claims = vec![(OWNER, id(OWNER as u8)), (REQUESTER1, id(REQUESTER1 as u8))];
    for account in [KEY_SERVER0, KEY_SERVER1, KEY_SERVER2, KEY_SERVER3, KEY_SERVER4] {
        claims.push((account, id(account as u8)));
    }
    SecretStore::genesis(GenesisConfig {
        owner: OWNER,
        is_initialization_completed,
        key_servers: key_server_set(n),
        server_key_generation_fee: 1_000_000,
        server_key_retrieval_fee: 1_000_000,
        document_key_store_fee: 1_000_000,
        balances: vec![(OWNER, 10_000_000), (REQUESTER1, 10_000_000)],
        claims,
    })
    .unwrap()
}

fn default_initialization() -> SecretStore {
    initialize(true, 2)
}

fn default_initialization_with_three_servers() -> SecretStore {
    initialize(true, 3)
}

#[test]
fn should_accept_server_key_generation_request() {
    let mut st = default_initialization();
    ServerKeyGenerationService::generate(&mut st, REQUESTER1, id(32), 1).unwrap();
    assert!(st
        .events()
        .iter()
        .any(|e| *e == Event::ServerKeyGenerationRequested(id(32), id(REQUESTER1 as u8), 1)));
}

#[test]
fn should_reject_server_key_generation_request_when_fee_is_not_paid() {
    let mut st = default_initialization();
    // REQUESTER2 has no funds
    ServerKeyGenerationService::generate(&mut st, REQUESTER2, id(32), 1).unwrap_err();
}

#[test]
fn should_reject_server_key_generation_request_when_threshold_is_too_large() {
    let mut st = default_initialization();
    // there are only two key servers => max threshold is 1
    ServerKeyGenerationService::generate(&mut st, REQUESTER1, id(32), 2).unwrap_err();
}

#[test]
fn should_reject_server_key_generation_request_when_limit_reached() {
    let mut st = default_initialization();
    for i in 0..MAX_GENERATION_REQUESTS {
        ServerKeyGenerationService::generate(&mut st, REQUESTER1, id(i as u8), 1).unwrap();
    }
    ServerKeyGenerationService::generate(&mut st, REQUESTER1, id(MAX_GENERATION_REQUESTS as u8), 1)
        .unwrap_err();
}

#[test]
fn should_reject_duplicated_server_key_generation_request() {
    let mut st = default_initialization();
    ServerKeyGenerationService::generate(&mut st, REQUESTER1, id(32), 1).unwrap();
    ServerKeyGenerationService::generate(&mut st, REQUESTER1, id(32), 1).unwrap_err();
}

#[test]
fn should_publish_generated_server_key() {
    let mut st = default_initialization();
    ServerKeyGenerationService::generate(&mut st, REQUESTER1, id(32), 1).unwrap();
    let events_count = st.events().len();

    // response from key server 1 is received => no new events
    ServerKeyGenerationService::on_generated(&mut st, KEY_SERVER0, id(32), vec![42]).unwrap();
    assert_eq!(events_count, st.events().len());

    // response from key server 2 is received => the key is published
    ServerKeyGenerationService::on_generated(&mut st, KEY_SERVER1, id(32), vec![42]).unwrap();
    assert_eq!(events_count + 1, st.events().len());
    assert!(st.events().iter().any(|e| *e == Event::ServerKeyGenerated(id(32), vec![42])));

    // another response from key server 2 is ignored without error
    ServerKeyGenerationService::on_generated(&mut st, KEY_SERVER1, id(32), vec![42]).unwrap();
}

#[test]
fn should_not_accept_generated_key_from_non_key_server() {
    let mut st = default_initialization();
    ServerKeyGenerationService::generate(&mut st, REQUESTER1, id(32), 0).unwrap();
    ServerKeyGenerationService::on_generated(&mut st, KEY_SERVER3, id(32), vec![42]).unwrap_err();
}

#[test]
fn server_key_generation_should_not_publish_generated_key_when_receiving_responses_from_same_key_server() {
    let mut st = default_initialization();
    ServerKeyGenerationService::generate(&mut st, REQUESTER1, id(32), 1).unwrap();
    let events_count = st.events().len();
    ServerKeyGenerationService::on_generated(&mut st, KEY_SERVER1, id(32), vec![42]).unwrap();
    ServerKeyGenerationService::on_generated(&mut st, KEY_SERVER1, id(32), vec![42]).unwrap();
    assert_eq!(events_count, st.events().len());
}

#[test]
fn should_raise_generation_error_when_two_servers_report_different_key() {
    let mut st = default_initialization();
    ServerKeyGenerationService::generate(&mut st, REQUESTER1, id(32), 1).unwrap();
    let events_count = st.events().len();
    ServerKeyGenerationService::on_generated(&mut st, KEY_SERVER0, id(32), vec![42]).unwrap();
    ServerKeyGenerationService::on_generated(&mut st, KEY_SERVER1, id(32), vec![43]).unwrap();
    assert_eq!(events_count + 1, st.events().len());
    assert!(st.events().iter().any(|e| *e == Event::ServerKeyGenerationError(id(32))));
}

// With threshold 1, two matching keys out of three servers confirm the key
// at the second response (two agreeing reports suffice for threshold 1); the
// third, different, response then finds no request and is ignored, so no
// generation error is raised in spite of the test's name.
#[test]
fn should_raise_generation_error_when_one_of_three_servers_report_different_key() {
    let mut st = default_initialization_with_three_servers();
    ServerKeyGenerationService::generate(&mut st, REQUESTER1, id(32), 1).unwrap();
    let events_count = st.events().len();
    ServerKeyGenerationService::on_generated(&mut st, KEY_SERVER0, id(32), vec![42]).unwrap();
    ServerKeyGenerationService::on_generated(&mut st, KEY_SERVER1, id(32), vec![42]).unwrap();
    ServerKeyGenerationService::on_generated(&mut st, KEY_SERVER2, id(32), vec![43]).unwrap();
    assert_eq!(events_count + 1, st.events().len());
    assert!(st.events().iter().any(|e| *e == Event::ServerKeyGenerated(id(32), vec![42])));
    assert!(!st.events().iter().any(|e| *e == Event::ServerKeyGenerationError(id(32))));
}

#[test]
fn should_raise_generation_error_when_at_least_one_key_server_reports_error() {
    let mut st = default_initialization();
    ServerKeyGenerationService::generate(&mut st, REQUESTER1, id(32), 1).unwrap();
    ServerKeyGenerationService::on_generation_error(&mut st, KEY_SERVER0, id(32)).unwrap();
    assert!(st.events().iter().any(|e| *e == Event::ServerKeyGenerationError(id(32))));
}

#[test]
fn should_raise_generation_error_when_at_least_one_key_server_reports_error_wth_zero_threshold() {
    let mut st = default_initialization();
    ServerKeyGenerationService::generate(&mut st, REQUESTER1, id(32), 0).unwrap();
    ServerKeyGenerationService::on_generation_error(&mut st, KEY_SERVER0, id(32)).unwrap();
    assert!(st.events().iter().any(|e| *e == Event::ServerKeyGenerationError(id(32))));
}

#[test]
fn generation_errors_have_their_kinds() {
    let mut st = default_initialization();
    assert_eq!(
        ServerKeyGenerationService::generate(&mut st, REQUESTER1, id(32), 2),
        Err(Error::BadParameters)
    );
    assert_eq!(
        ServerKeyGenerationService::generate(&mut st, REQUESTER2, id(32), 1),
        Err(Error::FeePaymentFailed)
    );
    ServerKeyGenerationService::generate(&mut st, REQUESTER1, id(32), 1).unwrap();
    assert_eq!(
        ServerKeyGenerationService::generate(&mut st, REQUESTER1, id(32), 1),
        Err(Error::DuplicateRequest)
    );
    for i in 0..3u8 {
        ServerKeyGenerationService::generate(&mut st, REQUESTER1, id(i), 1).unwrap();
    }
    assert_eq!(
        ServerKeyGenerationService::generate(&mut st, REQUESTER1, id(9), 1),
        Err(Error::QueueFull)
    );
    assert_eq!(
        ServerKeyGenerationService::on_generated(&mut st, REQUESTER1, id(32), vec![1]),
        Err(Error::InvalidOrigin)
    );
    assert_eq!(
        ServerKeyGenerationService::on_generation_error(&mut st, KEY_SERVER4, id(32)),
        Err(Error::InvalidOrigin)
    );
}

#[test]
fn generation_fee_is_split_among_key_servers() {
    let mut st = default_initialization();
    ServerKeyGenerationService::generate(&mut st, REQUESTER1, id(32), 1).unwrap();
    assert_eq!(st.free_balance(REQUESTER1), 9_000_000);
    assert_eq!(st.free_balance(KEY_SERVER0), 500_000);
    assert_eq!(st.free_balance(KEY_SERVER1), 500_000);
}

#[test]
fn uneven_fee_remainder_goes_to_the_last_key_server() {
    let mut st = SecretStore::genesis(GenesisConfig {
        owner: OWNER,
        is_initialization_completed: true,
        key_servers: key_server_set(3),
        server_key_generation_fee: 100,
        server_key_retrieval_fee: 100,
        document_key_store_fee: 100,
        balances: vec![(REQUESTER1, 1_000)],
        claims: vec![
            (REQUESTER1, id(REQUESTER1 as u8)),
            (KEY_SERVER0, id(KEY_SERVER0 as u8)),
            (KEY_SERVER1, id(KEY_SERVER1 as u8)),
            (KEY_SERVER2, id(KEY_SERVER2 as u8)),
        ],
    })
    .unwrap();
    ServerKeyGenerationService::generate(&mut st, REQUESTER1, id(32), 1).unwrap();
    assert_eq!(st.free_balance(KEY_SERVER0), 33);
    assert_eq!(st.free_balance(KEY_SERVER1), 33);
    assert_eq!(st.free_balance(KEY_SERVER2), 34);
    assert_eq!(st.free_balance(REQUESTER1), 900);
}

#[test]
fn fee_is_refused_when_a_key_server_has_no_account() {
    let mut st = SecretStore::genesis(GenesisConfig {
        owner: OWNER,
        is_initialization_completed: true,
        key_servers: key_server_set(2),
        server_key_generation_fee: 100,
        server_key_retrieval_fee: 100,
        document_key_store_fee: 100,
        balances: vec![(REQUESTER1, 1_000)],
        claims: vec![(REQUESTER1, id(REQUESTER1 as u8)), (KEY_SERVER0, id(KEY_SERVER0 as u8))],
    })
    .unwrap();
    assert_eq!(
        ServerKeyGenerationService::generate(&mut st, REQUESTER1, id(32), 1),
        Err(Error::FeePaymentFailed)
    );
    assert_eq!(st.free_balance(REQUESTER1), 1_000);
}

#[test]
fn threshold_zero_confirms_on_first_response() {
    let mut st = default_initialization();
    ServerKeyGenerationService::generate(&mut st, REQUESTER1, id(32), 0).unwrap();
    ServerKeyGenerationService::on_generated(&mut st, KEY_SERVER1, id(32), vec![7]).unwrap();
    assert_eq!(st.events().last(), Some(&Event::ServerKeyGenerated(id(32), vec![7])));
    assert_eq!(st.server_key_generation_requests_count(), 0);
}

#[test]
fn all_voters_required_confirms_after_all_agree() {
    let mut st = initialize(true, 5);
    ServerKeyGenerationService::generate(&mut st, REQUESTER1, id(32), 4).unwrap();
    for ks in [KEY_SERVER0, KEY_SERVER1, KEY_SERVER2, KEY_SERVER3] {
        ServerKeyGenerationService::on_generated(&mut st, ks, id(32), vec![5]).unwrap();
        assert_eq!(st.server_key_generation_requests_count(), 1);
    }
    ServerKeyGenerationService::on_generated(&mut st, KEY_SERVER4, id(32), vec![5]).unwrap();
    assert_eq!(st.events().last(), Some(&Event::ServerKeyGenerated(id(32), vec![5])));
}

#[test]
fn all_voters_required_one_disagreement_is_impossible_at_last() {
    let mut st = initialize(true, 3);
    ServerKeyGenerationService::generate(&mut st, REQUESTER1, id(32), 2).unwrap();
    ServerKeyGenerationService::on_generated(&mut st, KEY_SERVER0, id(32), vec![5]).unwrap();
    ServerKeyGenerationService::on_generated(&mut st, KEY_SERVER1, id(32), vec![5]).unwrap();
    assert_eq!(st.server_key_generation_requests_count(), 1);
    ServerKeyGenerationService::on_generated(&mut st, KEY_SERVER2, id(32), vec![6]).unwrap();
    assert_eq!(st.events().last(), Some(&Event::ServerKeyGenerationError(id(32))));
    assert_eq!(st.server_key_generation_requests_count(), 0);
}

#[test]
fn generation_queue_full_refuses_one_more() {
    let mut st = default_initialization();
    for i in 0..4u8 {
        ServerKeyGenerationService::generate(&mut st, REQUESTER1, id(i), 1).unwrap();
    }
    let events = st.events().len();
    assert_eq!(
        ServerKeyGenerationService::generate(&mut st, REQUESTER1, id(4), 1),
        Err(Error::QueueFull)
    );
    assert_eq!(st.events().len(), events);
    assert_eq!(st.server_key_generation_requests_count(), 4);
}

#[test]
fn generation_response_required_until_responded() {
    let mut st = default_initialization();
    let ks0 = id(KEY_SERVER0 as u8);
    let ks1 = id(KEY_SERVER1 as u8);
    assert!(!st.is_server_key_generation_response_required(ks0, id(32)));
    ServerKeyGenerationService::generate(&mut st, REQUESTER1, id(32), 1).unwrap();
    assert!(st.is_server_key_generation_response_required(ks0, id(32)));
    ServerKeyGenerationService::on_generated(&mut st, KEY_SERVER0, id(32), vec![1]).unwrap();
    assert!(!ServerKeyGenerationService::is_response_required(&st, ks0, id(32)));
    assert!(ServerKeyGenerationService::is_response_required(&st, ks1, id(32)));
    assert!(!st.is_server_key_generation_response_required(id(KEY_SERVER3 as u8), id(32)));
}

#[test]
fn retrieval_confirms_on_agreeing_reports() {
    let mut st = initialize(true, 3);
    st.retrieve_server_key(REQUESTER1, id(32)).unwrap();
    assert_eq!(st.events().last(), Some(&Event::ServerKeyRetrievalRequested(id(32))));
    assert!(st.is_server_key_retrieval_response_required(id(KEY_SERVER0 as u8), id(32)));
    // key and threshold must both agree; threshold 1 needs two reports
    ServerKeyRetrievalService::on_retrieved(&mut st, KEY_SERVER0, id(32), vec![42], 1).unwrap();
    assert!(!st.is_server_key_retrieval_response_required(id(KEY_SERVER0 as u8), id(32)));
    ServerKeyRetrievalService::on_retrieved(&mut st, KEY_SERVER1, id(32), vec![43], 1).unwrap();
    assert_eq!(st.server_key_retrieval_requests_count(), 1);
    st.service_response(KEY_SERVER2, ServiceResponse::ServerKeyRetrieved(id(32), vec![42], 1)).unwrap();
    assert_eq!(st.events().last(), Some(&Event::ServerKeyRetrieved(id(32), vec![42])));
    assert_eq!(st.server_key_retrieval_requests_count(), 0);
}

#[test]
fn retrieval_errors() {
    let mut st = default_initialization();
    assert_eq!(ServerKeyRetrievalService::retrieve(&mut st, REQUESTER2, id(32)), Err(Error::FeePaymentFailed));
    ServerKeyRetrievalService::retrieve(&mut st, REQUESTER1, id(32)).unwrap();
    assert_eq!(ServerKeyRetrievalService::retrieve(&mut st, REQUESTER1, id(32)), Err(Error::DuplicateRequest));
    assert_eq!(
        ServerKeyRetrievalService::on_retrieved(&mut st, REQUESTER1, id(32), vec![1], 0),
        Err(Error::InvalidOrigin)
    );
    ServerKeyRetrievalService::on_retrieval_error(&mut st, KEY_SERVER0, id(32)).unwrap();
    assert_eq!(st.events().last(), Some(&Event::ServerKeyRetrievalError(id(32))));
    assert!(!ServerKeyRetrievalService::is_response_required(&st, id(KEY_SERVER0 as u8), id(32)));
    for i in 0..8u8 {
        ServerKeyRetrievalService::retrieve(&mut st, REQUESTER1, id(i)).unwrap();
    }
    assert_eq!(ServerKeyRetrievalService::retrieve(&mut st, REQUESTER1, id(9)), Err(Error::QueueFull));
}
