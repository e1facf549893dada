//! The secret-store module: its storage, its events and its dispatchable
//! operations.

use vstd::prelude::*;
use crate::balances::{Balances, transfer_result};
use crate::entity::EntityRegistry;
use crate::error::Error;
use crate::id::{EntityId, KeyServerId, MigrationId, ServerKeyId, id_lt};
use crate::key_servers::{KeyServerList, MAX_KEY_SERVERS};
use crate::mask::KeyServersMask;
use crate::queue::{Request, RequestQueue, request_ok, swap_removed};
use crate::service::{
    Responses, ResponseSupport, ResponsesSupport, SecretStoreService, outcome, responses_after,
    support_after,
};

verus! {

/// Largest number of queued server key generation requests.
pub const MAX_GENERATION_REQUESTS: usize = 4;

/// Largest number of queued document key store requests.
pub const MAX_STORE_REQUESTS: usize = 8;

/// Largest number of queued server key retrieval requests.
pub const MAX_RETRIEVAL_REQUESTS: usize = 8;

/// Events that the module deposits.
#[derive(Debug, PartialEq, Eq)]
pub enum Event {
    /// A key server has been added to the new set.
    KeyServerAdded(KeyServerId),
    /// A key server has been removed from the new set.
    KeyServerRemoved(KeyServerId),
    /// The address of a key server of the new set has been updated.
    KeyServerUpdated(KeyServerId),
    /// A migration has started.
    MigrationStarted,
    /// A migration has completed.
    MigrationCompleted,
    /// Server key generation requested: key, author, threshold.
    ServerKeyGenerationRequested(ServerKeyId, EntityId, u8),
    /// Server key generated: key, public key.
    ServerKeyGenerated(ServerKeyId, Vec<u8>),
    /// Server key generation failed.
    ServerKeyGenerationError(ServerKeyId),
    /// Server key retrieval requested.
    ServerKeyRetrievalRequested(ServerKeyId),
    /// Server key retrieved: key, public key.
    ServerKeyRetrieved(ServerKeyId, Vec<u8>),
    /// Server key retrieval failed.
    ServerKeyRetrievalError(ServerKeyId),
    /// Document key store requested: key, author, common point, encrypted point.
    DocumentKeyStoreRequested(ServerKeyId, EntityId, Vec<u8>, Vec<u8>),
    /// Document key stored.
    DocumentKeyStored(ServerKeyId),
    /// Document key store failed.
    DocumentKeyStoreError(ServerKeyId),
}

/// Server key generation request: the payload is the key's threshold.
pub type ServerKeyGenerationRequest = Request<u8>;

/// Server key retrieval request: it carries no data of its own.
pub type ServerKeyRetrievalRequest = Request<()>;

/// Document key store request: the payload is the common point and the
/// encrypted point of the document key.
pub type DocumentKeyStoreRequest = Request<(Vec<u8>, Vec<u8>)>;

/// What the chain holds at genesis.
pub struct GenesisConfig {
    pub owner: u64,
    pub is_initialization_completed: bool,
    pub key_servers: Vec<(KeyServerId, Vec<u8>)>,
    pub server_key_generation_fee: u64,
    pub server_key_retrieval_fee: u64,
    pub document_key_store_fee: u64,
    /// Account => free balance.
    pub balances: Vec<(u64, u64)>,
    /// Account => claimed entity id.
    pub claims: Vec<(u64, EntityId)>,
}

/// Storage of the module.
pub struct SecretStore {
    owner: u64,
    is_initialized: bool,
    current_set_change_block: u64,
    registry: EntityRegistry,
    balances: Balances,
    current_set: KeyServerList,
    migration_set: KeyServerList,
    new_set: KeyServerList,
    migration: Option<(MigrationId, KeyServerId)>,
    migration_confirmations: Vec<KeyServerId>,
    server_key_generation_fee: u64,
    server_key_retrieval_fee: u64,
    document_key_store_fee: u64,
    generation_requests: RequestQueue<u8>,
    retrieval_requests: RequestQueue<()>,
    store_requests: RequestQueue<(Vec<u8>, Vec<u8>)>,
    events: Vec<Event>,
}

impl SecretStore {
    pub closed spec fn owner_spec(&self) -> u64 {
        self.owner
    }

    pub closed spec fn initialized(&self) -> bool {
        self.is_initialized
    }

    /// The epoch: bumped whenever the current set changes.
    pub closed spec fn change_block(&self) -> u64 {
        self.current_set_change_block
    }

    pub closed spec fn registry_spec(&self) -> EntityRegistry {
        self.registry
    }

    pub closed spec fn balances_spec(&self) -> Balances {
        self.balances
    }

    pub closed spec fn current(&self) -> KeyServerList {
        self.current_set
    }

    pub closed spec fn migrating(&self) -> KeyServerList {
        self.migration_set
    }

    pub closed spec fn new_set_spec(&self) -> KeyServerList {
        self.new_set
    }

    /// Migration id and master, while migrating.
    pub closed spec fn migration_spec(&self) -> Option<(MigrationId, KeyServerId)> {
        self.migration
    }

    /// Members of the migration set that have confirmed the migration.
    pub closed spec fn confirmations(&self) -> Set<KeyServerId> {
        self.migration_confirmations@.to_set()
    }

    pub closed spec fn generation_fee(&self) -> u64 {
        self.server_key_generation_fee
    }

    pub closed spec fn retrieval_fee(&self) -> u64 {
        self.server_key_retrieval_fee
    }

    pub closed spec fn retrieval(&self) -> RequestQueue<()> {
        self.retrieval_requests
    }

    pub closed spec fn store_fee(&self) -> u64 {
        self.document_key_store_fee
    }

    pub closed spec fn generation(&self) -> RequestQueue<u8> {
        self.generation_requests
    }

    pub closed spec fn store(&self) -> RequestQueue<(Vec<u8>, Vec<u8>)> {
        self.store_requests
    }

    pub closed spec fn events_spec(&self) -> Seq<Event> {
        self.events@
    }

    /// The storage invariant.
    pub closed spec fn wf(&self) -> bool {
        &&& self.registry.wf()
        &&& self.balances.wf()
        &&& self.current_set.wf()
        &&& self.migration_set.wf()
        &&& self.new_set.wf()
        &&& self.generation_requests.wf()
        &&& self.store_requests.wf()
        &&& self.generation_requests.capacity() == MAX_GENERATION_REQUESTS
        &&& self.store_requests.capacity() == MAX_STORE_REQUESTS
        &&& self.retrieval_requests.wf()
        &&& self.retrieval_requests.capacity() == MAX_RETRIEVAL_REQUESTS
        &&& self.retrieval_requests.all_ok(self.current_set_change_block, self.current_set)
        &&& self.generation_requests.all_ok(self.current_set_change_block, self.current_set)
        &&& self.store_requests.all_ok(self.current_set_change_block, self.current_set)
        &&& !self.is_initialized ==> self.migration is None && self.current_set.members()
            == self.new_set.members()
        &&& self.migration is None ==> self.migration_confirmations@.len() == 0
            && self.migration_set.size() == 0
        &&& self.migration_confirmations@.no_duplicates()
        &&& forall|i: int|
            0 <= i < self.migration_confirmations@.len() ==> self.migration_set.contains(
                #[trigger] self.migration_confirmations@[i],
            )
    }
}

/// Two entries of the list bind the same account or the same id.
pub open spec fn claims_conflict(claims: Seq<(u64, EntityId)>) -> bool {
    exists|i: int, j: int|
        0 <= i < j < claims.len() && (claims[i].0 == claims[j].0 || claims[i].1 == claims[j].1)
}

/// The balance of `account` at genesis: the last value listed for it, or 0.
pub open spec fn genesis_balance(balances: Seq<(u64, u64)>, account: u64) -> nat
    decreases balances.len(),
{
    if balances.len() == 0 {
        0
    } else if balances.last().0 == account {
        balances.last().1 as nat
    } else {
        genesis_balance(balances.drop_last(), account)
    }
}

/// Two entries of the list have the same key-server id.
pub open spec fn ids_repeat(key_servers: Seq<(KeyServerId, Vec<u8>)>) -> bool {
    exists|i: int, j: int| 0 <= i < j < key_servers.len() && key_servers[i].0 == key_servers[j].0
}

impl SecretStore {
    /// Builds the storage at genesis. The genesis key servers form both the
    /// current and the new set. Fails on a repeated key-server id, on more
    /// than `MAX_KEY_SERVERS` key servers, or on two claims of one account or
    /// of one id.
    pub fn genesis(config: GenesisConfig) -> (r: Result<SecretStore, Error>)
        ensures
            r is Err <==> ids_repeat(config.key_servers@) || config.key_servers@.len()
                > MAX_KEY_SERVERS || claims_conflict(config.claims@),
            r matches Ok(st) ==> {
                &&& st.wf()
                &&& st.owner_spec() == config.owner
                &&& st.initialized() == config.is_initialization_completed
                &&& st.generation_fee() == config.server_key_generation_fee
                &&& st.store_fee() == config.document_key_store_fee
                &&& st.change_block() == 0
                &&& st.migration_spec() is None
                &&& st.current().members() == st.new_set_spec().members()
                &&& st.current().size() == config.key_servers@.len()
                &&& forall|i: int|
                    0 <= i < config.key_servers@.len() ==> st.current().members()[config.key_servers@[i].0]
                        == config.key_servers@[i].1@ && #[trigger] st.current().contains(config.key_servers@[i].0)
                &&& forall|i: int|
                    0 <= i < config.claims@.len() ==> #[trigger] st.registry_spec().claimed_id(config.claims@[i].0)
                        == Some(config.claims@[i].1)
                &&& forall|a: u64|
                    #[trigger] st.balances_spec().balance(a) == genesis_balance(config.balances@, a)
                &&& forall|a: u64|
                    #[trigger] st.registry_spec().claimed_id(a) is Some ==> exists|i: int|
                        0 <= i < config.claims@.len() && config.claims@[i].0 == a
                &&& forall|e: EntityId|
                    #[trigger] st.registry_spec().claimed_by(e) is Some ==> exists|i: int|
                        0 <= i < config.claims@.len() && config.claims@[i].1 == e
                &&& st.generation().size() == 0
                &&& st.store().size() == 0
                &&& st.retrieval().size() == 0
                &&& st.generation().requests() == Map::<ServerKeyId, ServerKeyGenerationRequest>::empty()
                &&& st.store().requests() == Map::<ServerKeyId, DocumentKeyStoreRequest>::empty()
                &&& st.retrieval().requests() == Map::<ServerKeyId, ServerKeyRetrievalRequest>::empty()
                &&& st.generation().keys().len() == 0
                &&& st.store().keys().len() == 0
                &&& st.retrieval().keys().len() == 0
                &&& st.retrieval_fee() == config.server_key_retrieval_fee
                &&& st.events_spec().len() == 0
            },
    {
        let mut balances = Balances::new();
        let mut i: usize = 0;
        while i < config.balances.len()
            invariant
                balances.wf(),
                i <= config.balances@.len(),
                forall|a: u64|
                    #[trigger] balances.balance(a) == genesis_balance(
                        config.balances@.subrange(0, i as int),
                        a,
                    ),
            decreases config.balances@.len() - i,
        {
            balances.set_balance(config.balances[i].0, config.balances[i].1);
            proof {
                let s = config.balances@.subrange(0, i + 1);
                assert(s.drop_last() =~= config.balances@.subrange(0, i as int));
            }
            i = i + 1;
        }
        assert(config.balances@.subrange(0, config.balances@.len() as int) =~= config.balances@);

        let mut registry = EntityRegistry::new();
        let mut i: usize = 0;
        while i < config.claims.len()
            invariant
                registry.wf(),
                i <= config.claims@.len(),
                !claims_conflict(config.claims@.subrange(0, i as int)),
                forall|j: int|
                    0 <= j < i ==> #[trigger] registry.claimed_id(config.claims@[j].0) == Some(
                        config.claims@[j].1,
                    ),
                forall|a: u64|
                    #[trigger] registry.claimed_id(a).is_some() ==> exists|j: int|
                        0 <= j < i && config.claims@[j].0 == a,
                forall|e: EntityId|
                    #[trigger] registry.claimed_by(e).is_some() ==> exists|j: int|
                        0 <= j < i && config.claims@[j].1 == e,
            decreases config.claims@.len() - i,
        {
            let (account, id) = config.claims[i];
            let ghost prev = registry;
            match registry.claim_id(account, id) {
                Err(_) => {
                    proof {
                        if prev.claimed_by(id).is_some() {
                            let j = choose|j: int| 0 <= j < i && config.claims@[j].1 == id;
                            assert(config.claims@[j].1 == config.claims@[i as int].1);
                        } else {
                            let j = choose|j: int| 0 <= j < i && config.claims@[j].0 == account;
                            assert(config.claims@[j].0 == config.claims@[i as int].0);
                        }
                    }
                    return Err(Error::IdConflict);
                },
                Ok(()) => {},
            }
            proof {
                let s = config.claims@.subrange(0, i + 1);
                assert forall|a: int, b: int|
                    0 <= a < b < s.len() implies !(s[a].0 == s[b].0 || s[a].1 == s[b].1) by {
                    if b < i {
                        assert(config.claims@.subrange(0, i as int)[a] == s[a]);
                        assert(config.claims@.subrange(0, i as int)[b] == s[b]);
                    } else {
                        assert(prev.claimed_id(s[a].0) == Some(s[a].1));
                        prev.lemma_inverse(s[a].0, s[a].1);
                    }
                }
                assert forall|a: u64| #[trigger] registry.claimed_id(a).is_some() implies exists|j: int|
                    0 <= j < i + 1 && config.claims@[j].0 == a by {
                    if a == account {
                        assert(config.claims@[i as int].0 == a);
                    } else {
                        assert(prev.claimed_id(a).is_some());
                    }
                }
                assert forall|e: EntityId| #[trigger] registry.claimed_by(e).is_some() implies exists|j: int|
                    0 <= j < i + 1 && config.claims@[j].1 == e by {
                    if e == id {
                        assert(config.claims@[i as int].1 == e);
                    } else {
                        assert(prev.claimed_by(e).is_some());
                    }
                }
            }
            i = i + 1;
        }
        assert(config.claims@.subrange(0, config.claims@.len() as int) =~= config.claims@);

        let mut current_set = KeyServerList::new();
        let mut new_set = KeyServerList::new();
        assert forall|id: KeyServerId| !current_set.contains(id) by {
            assert(!current_set.members().contains_key(id));
        }
        let mut i: usize = 0;
        while i < config.key_servers.len()
            invariant
                current_set.wf(),
                new_set.wf(),
                i <= config.key_servers@.len(),
                current_set.size() == i,
                current_set.members() == new_set.members(),
                !ids_repeat(config.key_servers@.subrange(0, i as int)),
                forall|j: int|
                    0 <= j < i ==> current_set.members()[config.key_servers@[j].0]
                        == config.key_servers@[j].1@ && #[trigger] current_set.contains(config.key_servers@[j].0),
                forall|id: KeyServerId|
                    #[trigger] current_set.contains(id) ==> exists|j: int|
                        0 <= j < i && config.key_servers@[j].0 == id,
            decreases config.key_servers@.len() - i,
        {
            let id = config.key_servers[i].0;
            if current_set.contains_id(&id) {
                proof {
                    let j = choose|j: int| 0 <= j < i && config.key_servers@[j].0 == id;
                    assert(config.key_servers@[j].0 == config.key_servers@[i as int].0);
                }
                return Err(Error::SetInvariant);
            }
            if current_set.len() >= MAX_KEY_SERVERS {
                return Err(Error::SetInvariant);
            }
            proof {
                current_set.lemma_order();
                new_set.lemma_order();
                current_set.order().unique_seq_to_set();
                new_set.order().unique_seq_to_set();
                assert(current_set.members().dom() == new_set.members().dom());
                assert(!new_set.contains(id)) by {
                    if new_set.contains(id) {
                        assert(new_set.members().dom().contains(id));
                    }
                }
            }
            let ghost prev = current_set;
            current_set.insert(id, config.key_servers[i].1.clone());
            new_set.insert(id, config.key_servers[i].1.clone());
            proof {
                let s = config.key_servers@.subrange(0, i + 1);
                assert forall|a: int, b: int| 0 <= a < b < s.len() implies s[a].0 != s[b].0 by {
                    if b < i {
                        assert(config.key_servers@.subrange(0, i as int)[a] == s[a]);
                        assert(config.key_servers@.subrange(0, i as int)[b] == s[b]);
                    } else {
                        assert(prev.contains(s[a].0));
                    }
                }
                assert forall|j: int| 0 <= j < i + 1 implies current_set.members()[config.key_servers@[j].0]
                    == config.key_servers@[j].1@ && #[trigger] current_set.contains(config.key_servers@[j].0) by {
                    assert(current_set.members().contains_key(config.key_servers@[j].0));
                }
                assert forall|x: KeyServerId| #[trigger] current_set.contains(x) implies exists|j: int|
                    0 <= j < i + 1 && config.key_servers@[j].0 == x by {
                    assert(current_set.members().contains_key(x));
                    if x == id {
                        assert(config.key_servers@[i as int].0 == x);
                    } else {
                        assert(prev.members().contains_key(x));
                    }
                }
            }
            i = i + 1;
        }
        assert(config.key_servers@.subrange(0, config.key_servers@.len() as int) =~= config.key_servers@);
        proof {
            current_set.lemma_order();
        }

        let st = SecretStore {
            owner: config.owner,
            is_initialized: config.is_initialization_completed,
            current_set_change_block: 0,
            registry,
            balances,
            current_set,
            migration_set: KeyServerList::new(),
            new_set,
            migration: None,
            migration_confirmations: Vec::new(),
            server_key_generation_fee: config.server_key_generation_fee,
            server_key_retrieval_fee: config.server_key_retrieval_fee,
            document_key_store_fee: config.document_key_store_fee,
            generation_requests: RequestQueue::new(MAX_GENERATION_REQUESTS),
            retrieval_requests: RequestQueue::new(MAX_RETRIEVAL_REQUESTS),
            store_requests: RequestQueue::new(MAX_STORE_REQUESTS),
            events: Vec::new(),
        };
        Ok(st)
    }
}

/// What a key-server set edit does.
pub enum SetEdit {
    Add(Vec<u8>),
    Update(Vec<u8>),
    Remove,
}

impl SecretStore {
    /// Owner, initialization flag and fees are the same in both.
    pub open spec fn same_config(&self, o: &SecretStore) -> bool {
        &&& self.owner_spec() == o.owner_spec()
        &&& self.initialized() == o.initialized()
        &&& self.generation_fee() == o.generation_fee()
        &&& self.retrieval_fee() == o.retrieval_fee()
        &&& self.store_fee() == o.store_fee()
    }

    /// The three request queues are the same in both.
    pub open spec fn same_queues(&self, o: &SecretStore) -> bool {
        &&& self.generation() == o.generation()
        &&& self.retrieval() == o.retrieval()
        &&& self.store() == o.store()
    }

    /// Everything but the key-server sets, the set-change block and the
    /// events is the same in both.
    pub open spec fn same_services(&self, o: &SecretStore) -> bool {
        &&& self.same_config(o)
        &&& self.registry_spec() == o.registry_spec()
        &&& self.balances_spec() == o.balances_spec()
        &&& self.same_queues(o)
    }

    /// The key-server sets, the migration state and the set-change block are
    /// the same in both.
    pub open spec fn same_sets(&self, o: &SecretStore) -> bool {
        &&& self.current() == o.current()
        &&& self.migrating() == o.migrating()
        &&& self.new_set_spec() == o.new_set_spec()
        &&& self.migration_spec() == o.migration_spec()
        &&& self.confirmations() == o.confirmations()
        &&& self.change_block() == o.change_block()
    }

    /// Only the entity registry differs between both.
    pub open spec fn only_registry_differs(&self, o: &SecretStore) -> bool {
        &&& self.same_config(o)
        &&& self.balances_spec() == o.balances_spec()
        &&& self.same_queues(o)
        &&& self.same_sets(o)
        &&& self.events_spec() == o.events_spec()
    }

    /// The deposited events.
    pub fn events(&self) -> (r: &Vec<Event>)
        ensures
            r@ == self.events_spec(),
    {
        &self.events
    }

    /// Binds the account `origin` to entity id `id`. Fails if the id or the
    /// account is bound already.
    pub fn claim_id(&mut self, origin: u64, id: EntityId) -> (r: Result<(), Error>)
        requires
            old(self).wf(),
        ensures
            final(self).wf(),
            r is Err <==> old(self).registry_spec().claimed_by(id).is_some()
                || old(self).registry_spec().claimed_id(origin).is_some(),
            r is Err ==> r == Err::<(), Error>(Error::IdConflict) && *final(self) == *old(self),
            r is Ok ==> final(self).registry_spec().claimed_id(origin) == Some(id),
            r is Ok ==> forall|a: u64|
                a != origin ==> #[trigger] final(self).registry_spec().claimed_id(a)
                    == old(self).registry_spec().claimed_id(a),
            r is Ok ==> final(self).only_registry_differs(old(self)),
    {
        self.registry.claim_id(origin, id)
    }

    /// Completes the initialization: from then on edits touch the new set
    /// only, and migrations may start. Owner only, once.
    pub fn complete_initialization(&mut self, origin: u64) -> (r: Result<(), Error>)
        requires
            old(self).wf(),
        ensures
            final(self).wf(),
            r == (if origin != old(self).owner_spec() {
                Err(Error::InvalidOrigin)
            } else if old(self).initialized() {
                Err(Error::SetInvariant)
            } else {
                Ok(())
            }),
            r is Err ==> *final(self) == *old(self),
            r is Ok ==> final(self).initialized() && final(self).same_sets(old(self))
                && final(self).events_spec() == old(self).events_spec(),
    {
        if origin != self.owner {
            return Err(Error::InvalidOrigin);
        }
        if self.is_initialized {
            return Err(Error::SetInvariant);
        }
        self.is_initialized = true;
        Ok(())
    }

    /// The next set-change block.
    fn bump_change_block(&mut self)
        requires
            old(self).current_set_change_block < u64::MAX,
            old(self).generation_requests.all_ok(
                old(self).current_set_change_block,
                old(self).current_set,
            ),
            old(self).store_requests.all_ok(
                old(self).current_set_change_block,
                old(self).current_set,
            ),
            old(self).retrieval_requests.all_ok(
                old(self).current_set_change_block,
                old(self).current_set,
            ),
        ensures
            final(self).current_set_change_block == old(self).current_set_change_block + 1,
            *final(self) == (SecretStore {
                current_set_change_block: final(self).current_set_change_block,
                ..*old(self)
            }),
            forall|c: KeyServerList|
                #[trigger] final(self).generation_requests.all_ok(
                    final(self).current_set_change_block,
                    c,
                ) && final(self).store_requests.all_ok(final(self).current_set_change_block, c)
                    && final(self).retrieval_requests.all_ok(final(self).current_set_change_block, c),
    {
        let ghost b0 = self.current_set_change_block;
        self.current_set_change_block = self.current_set_change_block + 1;
        proof {
            assert forall|c: KeyServerList|
                #[trigger] self.generation_requests.all_ok(self.current_set_change_block, c)
                    && self.store_requests.all_ok(self.current_set_change_block, c)
                    && self.retrieval_requests.all_ok(self.current_set_change_block, c) by {
                self.retrieval_requests.lemma_bump(b0, self.current_set, self.current_set_change_block, c);
                self.generation_requests.lemma_bump(b0, self.current_set, self.current_set_change_block, c);
                self.store_requests.lemma_bump(b0, self.current_set, self.current_set_change_block, c);
            }
        }
    }

    /// Whether `edit` of `id` fits the new set.
    pub open spec fn edit_fits(new_set: KeyServerList, id: KeyServerId, edit: SetEdit) -> bool {
        match edit {
            SetEdit::Add(_) => !new_set.contains(id) && new_set.size() < MAX_KEY_SERVERS,
            _ => new_set.contains(id),
        }
    }

    /// The members of a set after `edit` of `id`.
    pub open spec fn edited(members: Map<KeyServerId, Seq<u8>>, id: KeyServerId, edit: SetEdit) -> Map<
        KeyServerId,
        Seq<u8>,
    > {
        match edit {
            SetEdit::Add(a) => members.insert(id, a@),
            SetEdit::Update(a) => members.insert(id, a@),
            SetEdit::Remove => members.remove(id),
        }
    }

    /// The event of `edit` of `id`.
    pub open spec fn edit_event(id: KeyServerId, edit: SetEdit) -> Event {
        match edit {
            SetEdit::Add(_) => Event::KeyServerAdded(id),
            SetEdit::Update(_) => Event::KeyServerUpdated(id),
            SetEdit::Remove => Event::KeyServerRemoved(id),
        }
    }

    /// Applies an edit of the owner to the new set. Before initialization
    /// completes the current set is edited too, which moves the set-change
    /// block on.
    fn edit_key_server(&mut self, origin: u64, id: KeyServerId, edit: SetEdit) -> (r: Result<(), Error>)
        requires
            old(self).wf(),
        ensures
            final(self).wf(),
            r == (if origin != old(self).owner_spec() {
                Err(Error::InvalidOrigin)
            } else if old(self).migration_spec() is Some || !Self::edit_fits(
                old(self).new_set_spec(),
                id,
                edit,
            ) || (!old(self).initialized() && old(self).change_block() == u64::MAX) {
                Err(Error::SetInvariant)
            } else {
                Ok(())
            }),
            r is Err ==> *final(self) == *old(self),
            r is Ok ==> {
                &&& final(self).same_services(old(self))
                &&& final(self).new_set_spec().members() == Self::edited(
                    old(self).new_set_spec().members(),
                    id,
                    edit,
                )
                &&& final(self).migration_spec() == old(self).migration_spec()
                &&& final(self).migrating() == old(self).migrating()
                &&& final(self).confirmations() == old(self).confirmations()
                &&& final(self).events_spec() == old(self).events_spec().push(
                    Self::edit_event(id, edit),
                )
                &&& if old(self).initialized() {
                    &&& final(self).current() == old(self).current()
                    &&& final(self).change_block() == old(self).change_block()
                } else {
                    &&& final(self).current().members() == final(self).new_set_spec().members()
                    &&& final(self).change_block() == old(self).change_block() + 1
                }
            },
    {
        if origin != self.owner {
            return Err(Error::InvalidOrigin);
        }
        if self.migration.is_some() {
            return Err(Error::SetInvariant);
        }
        let fits = match &edit {
            SetEdit::Add(_) => !self.new_set.contains_id(&id) && self.new_set.len() < MAX_KEY_SERVERS,
            _ => self.new_set.contains_id(&id),
        };
        if !fits {
            return Err(Error::SetInvariant);
        }
        if !self.is_initialized && self.current_set_change_block == u64::MAX {
            return Err(Error::SetInvariant);
        }
        let ghost prev = *self;
        proof {
            self.current_set.lemma_order();
            self.new_set.lemma_order();
            self.current_set.order().unique_seq_to_set();
            self.new_set.order().unique_seq_to_set();
            if !self.is_initialized {
                assert(self.current_set.members().dom() == self.new_set.members().dom());
                assert(self.current_set.contains(id) == self.new_set.contains(id)) by {
                    assert(self.current_set.members().dom().contains(id) == self.current_set.contains(
                        id,
                    ));
                }
            }
        }
        if !self.is_initialized {
            self.bump_change_block();
            match &edit {
                SetEdit::Add(a) => self.current_set.insert(id, a.clone()),
                SetEdit::Update(a) => self.current_set.update(id, a.clone()),
                SetEdit::Remove => self.current_set.remove(id),
            }
        }
        let event = match edit {
            SetEdit::Add(a) => {
                self.new_set.insert(id, a);
                Event::KeyServerAdded(id)
            },
            SetEdit::Update(a) => {
                self.new_set.update(id, a);
                Event::KeyServerUpdated(id)
            },
            SetEdit::Remove => {
                self.new_set.remove(id);
                Event::KeyServerRemoved(id)
            },
        };
        self.events.push(event);
        proof {
            if !prev.is_initialized {
                assert(self.current_set.members() =~= self.new_set.members());
            }
            assert(self.registry.wf());
            assert(self.balances.wf());
            assert(self.current_set.wf());
            assert(self.new_set.wf());
            assert(self.migration_set.wf());
            assert(self.generation_requests.all_ok(self.current_set_change_block, self.current_set));
            assert(self.store_requests.all_ok(self.current_set_change_block, self.current_set));
            assert(self.migration_confirmations@.no_duplicates());
        }
        Ok(())
    }

    /// Adds a key server to the new set. Owner only; not while migrating.
    pub fn add_key_server(&mut self, origin: u64, id: KeyServerId, network_address: Vec<u8>) -> (r:
        Result<(), Error>)
        requires
            old(self).wf(),
        ensures
            final(self).wf(),
            r == (if origin != old(self).owner_spec() {
                Err(Error::InvalidOrigin)
            } else if old(self).migration_spec() is Some || old(self).new_set_spec().contains(id)
                || old(self).new_set_spec().size() >= MAX_KEY_SERVERS || (!old(self).initialized()
                && old(self).change_block() == u64::MAX) {
                Err(Error::SetInvariant)
            } else {
                Ok(())
            }),
            r is Err ==> *final(self) == *old(self),
            r is Ok ==> {
                &&& final(self).same_services(old(self))
                &&& final(self).new_set_spec().members() == old(self).new_set_spec().members().insert(
                    id,
                    network_address@,
                )
                &&& final(self).events_spec() == old(self).events_spec().push(
                    Event::KeyServerAdded(id),
                )
                &&& if old(self).initialized() {
                    &&& final(self).current() == old(self).current()
                    &&& final(self).change_block() == old(self).change_block()
                } else {
                    &&& final(self).current().members() == final(self).new_set_spec().members()
                    &&& final(self).change_block() == old(self).change_block() + 1
                }
            },
    {
        self.edit_key_server(origin, id, SetEdit::Add(network_address))
    }

    /// Updates the address of a key server of the new set. Owner only; not
    /// while migrating.
    pub fn update_key_server(&mut self, origin: u64, id: KeyServerId, network_address: Vec<u8>) -> (r:
        Result<(), Error>)
        requires
            old(self).wf(),
        ensures
            final(self).wf(),
            r == (if origin != old(self).owner_spec() {
                Err(Error::InvalidOrigin)
            } else if old(self).migration_spec() is Some || !old(self).new_set_spec().contains(id) || (
            !old(self).initialized() && old(self).change_block() == u64::MAX) {
                Err(Error::SetInvariant)
            } else {
                Ok(())
            }),
            r is Err ==> *final(self) == *old(self),
            r is Ok ==> {
                &&& final(self).same_services(old(self))
                &&& final(self).new_set_spec().members() == old(self).new_set_spec().members().insert(
                    id,
                    network_address@,
                )
                &&& final(self).events_spec() == old(self).events_spec().push(
                    Event::KeyServerUpdated(id),
                )
                &&& if old(self).initialized() {
                    &&& final(self).current() == old(self).current()
                    &&& final(self).change_block() == old(self).change_block()
                } else {
                    &&& final(self).current().members() == final(self).new_set_spec().members()
                    &&& final(self).change_block() == old(self).change_block() + 1
                }
            },
    {
        self.edit_key_server(origin, id, SetEdit::Update(network_address))
    }

    /// Removes a key server from the new set. Owner only; not while
    /// migrating.
    pub fn remove_key_server(&mut self, origin: u64, id: KeyServerId) -> (r: Result<(), Error>)
        requires
            old(self).wf(),
        ensures
            final(self).wf(),
            r == (if origin != old(self).owner_spec() {
                Err(Error::InvalidOrigin)
            } else if old(self).migration_spec() is Some || !old(self).new_set_spec().contains(id) || (
            !old(self).initialized() && old(self).change_block() == u64::MAX) {
                Err(Error::SetInvariant)
            } else {
                Ok(())
            }),
            r is Err ==> *final(self) == *old(self),
            r is Ok ==> {
                &&& final(self).same_services(old(self))
                &&& final(self).new_set_spec().members() == old(self).new_set_spec().members().remove(id)
                &&& final(self).events_spec() == old(self).events_spec().push(
                    Event::KeyServerRemoved(id),
                )
                &&& if old(self).initialized() {
                    &&& final(self).current() == old(self).current()
                    &&& final(self).change_block() == old(self).change_block()
                } else {
                    &&& final(self).current().members() == final(self).new_set_spec().members()
                    &&& final(self).change_block() == old(self).change_block() + 1
                }
            },
    {
        self.edit_key_server(origin, id, SetEdit::Remove)
    }
}

/// `m` is the master of a migration from `current` to `next`: the smallest
/// key server of both sets, or, if they share none, the smallest of
/// `current` (of `next` if `current` is empty).
pub open spec fn is_master(m: KeyServerId, current: KeyServerList, next: KeyServerList) -> bool {
    if exists|o: KeyServerId| #[trigger] current.contains(o) && next.contains(o) {
        &&& current.contains(m)
        &&& next.contains(m)
        &&& forall|o: KeyServerId|
            #[trigger] current.contains(o) && next.contains(o) ==> o == m || id_lt(m, o)
    } else if exists|o: KeyServerId| #[trigger] current.contains(o) {
        &&& current.contains(m)
        &&& forall|o: KeyServerId| #[trigger] current.contains(o) ==> o == m || id_lt(m, o)
    } else {
        &&& next.contains(m)
        &&& forall|o: KeyServerId| #[trigger] next.contains(o) ==> o == m || id_lt(m, o)
    }
}

impl SecretStore {
    /// Starts a migration to the new set, on behalf of a member of the
    /// current or the new set. Fails while migrating, before initialization
    /// completes, and when the new set equals the current one.
    pub fn start_migration(&mut self, origin: u64, migration_id: MigrationId) -> (r: Result<(), Error>)
        requires
            old(self).wf(),
        ensures
            final(self).wf(),
            start_migration_post(*old(self), *final(self), origin, migration_id, r),
    {
        let caller = match self.registry.resolve_entity_id(origin) {
            Ok(c) => c,
            Err(e) => {
                return Err(e);
            },
        };
        if !self.current_set.contains_id(&caller) && !self.new_set.contains_id(&caller) {
            return Err(Error::InvalidOrigin);
        }
        if !self.is_initialized || self.migration.is_some() || self.current_set.same_members(
            &self.new_set,
        ) {
            return Err(Error::MigrationInvariant);
        }
        let migration_set = self.new_set.duplicate();
        let master = match self.current_set.min_common(&migration_set) {
            Some(m) => m,
            None => match self.current_set.min_common(&self.current_set) {
                Some(m) => m,
                None => match migration_set.min_common(&migration_set) {
                    Some(m) => m,
                    None => {
                        proof {
                            self.current_set.lemma_order();
                            migration_set.lemma_order();
                            assert(self.current_set.members() =~= self.new_set.members());
                        }
                        return Err(Error::MigrationInvariant);
                    },
                },
            },
        };
        self.migration_set = migration_set;
        self.migration = Some((migration_id, master));
        self.events.push(Event::MigrationStarted);
        proof {
            assert(self.migration_confirmations@.to_set() =~= Set::<KeyServerId>::empty());
        }
        Ok(())
    }

    /// Whether `c` has confirmed the running migration.
    fn has_confirmed(&self, c: &KeyServerId) -> (r: bool)
        ensures
            r == self.confirmations().contains(*c),
    {
        let mut i: usize = 0;
        while i < self.migration_confirmations.len()
            invariant
                i <= self.migration_confirmations@.len(),
                forall|j: int| 0 <= j < i ==> self.migration_confirmations@[j] != *c,
            decreases self.migration_confirmations@.len() - i,
        {
            if self.migration_confirmations[i] == *c {
                assert(self.migration_confirmations@.to_set().contains(*c)) by {
                    assert(self.migration_confirmations@[i as int] == *c);
                }
                return true;
            }
            i = i + 1;
        }
        false
    }

    /// Whether `c` is the last member of the migration set to confirm.
    pub open spec fn completes(&self, c: KeyServerId) -> bool {
        self.confirmations().insert(c) == self.migrating().members().dom()
    }

    /// Confirms the running migration on behalf of a member of the migration
    /// set; a second confirmation of the same member changes nothing. Once
    /// every member has confirmed, the migration set becomes the current set
    /// and the set-change block moves on.
    pub fn confirm_migration(&mut self, origin: u64, migration_id: MigrationId) -> (r: Result<
        (),
        Error,
    >)
        requires
            old(self).wf(),
        ensures
            final(self).wf(),
            confirm_migration_post(*old(self), *final(self), origin, migration_id, r),
    {
        let caller = match self.registry.resolve_entity_id(origin) {
            Ok(c) => c,
            Err(e) => {
                return Err(e);
            },
        };
        let matches = match self.migration {
            Some((id, _)) => id == migration_id,
            None => false,
        };
        if !matches || !self.migration_set.contains_id(&caller) {
            return Err(Error::MigrationInvariant);
        }
        // a repeated confirmation changes nothing
        if self.has_confirmed(&caller) {
            return Ok(());
        }
        let ghost conf = self.migration_confirmations@;
        proof {
            assert(!self.confirmations().contains(caller));
            self.migration_set.lemma_order();
            self.migration_set.order().unique_seq_to_set();
            conf.unique_seq_to_set();
            assert(conf.to_set().insert(caller).subset_of(self.migration_set.members().dom()));
            vstd::set_lib::lemma_len_subset(
                conf.to_set().insert(caller),
                self.migration_set.members().dom(),
            );
            if conf.len() + 1 == self.migration_set.size() {
                vstd::set_lib::lemma_subset_equality(
                    conf.to_set().insert(caller),
                    self.migration_set.members().dom(),
                );
            }
        }
        let completes = self.migration_confirmations.len() + 1 == self.migration_set.len();
        if !completes {
            self.migration_confirmations.push(caller);
            proof {
                assert(self.migration_confirmations@ == conf.push(caller));
                conf.lemma_push_to_set_commute(caller);
                assert forall|j: int| 0 <= j < self.migration_confirmations@.len() implies self.migration_set.contains(
                    #[trigger] self.migration_confirmations@[j],
                ) by {
                    if j < conf.len() {
                        assert(self.migration_confirmations@[j] == conf[j]);
                    }
                }
            }
            return Ok(());
        }
        if self.current_set_change_block == u64::MAX {
            return Err(Error::MigrationInvariant);
        }
        // every member has confirmed: the migration set becomes current
        self.bump_change_block();
        let mut next = KeyServerList::new();
        std::mem::swap(&mut next, &mut self.migration_set);
        self.current_set = next;
        self.migration_confirmations = Vec::new();
        self.migration = None;
        self.events.push(Event::MigrationCompleted);
        proof {
            assert(self.migration_confirmations@.to_set() =~= Set::<KeyServerId>::empty());
            assert(self.current_set.wf());
            assert(self.migration_set.wf());
            assert(self.generation_requests.all_ok(self.current_set_change_block, self.current_set));
            assert(self.store_requests.all_ok(self.current_set_change_block, self.current_set));
            assert(self.is_initialized);
        }
        Ok(())
    }
}

/// The share of a fee of `fee` split among `n` key servers that the key
/// server at position `i` receives: `fee / n` each, the remainder to the last.
pub open spec fn fee_share(fee: nat, n: nat, i: nat) -> nat {
    if i + 1 < n {
        fee / n
    } else {
        (fee - (n - 1) * (fee / n)) as nat
    }
}

/// The balances after `from` pays the shares `i..` of `fee` to `tos`, in
/// order, or `None` if a transfer fails.
pub open spec fn pay_shares(v: Map<u64, nat>, from: u64, tos: Seq<u64>, fee: nat, i: nat) -> Option<
    Map<u64, nat>,
>
    decreases tos.len() - i,
{
    if i >= tos.len() {
        Some(v)
    } else {
        match transfer_result(v, from, tos[i as int], fee_share(fee, tos.len(), i)) {
            None => None,
            Some(v2) => pay_shares(v2, from, tos, fee, i + 1),
        }
    }
}

/// Every key server of `ids` has claimed its id with an account.
pub open spec fn all_claimed(registry: EntityRegistry, ids: Seq<KeyServerId>) -> bool {
    forall|i: int| 0 <= i < ids.len() ==> (#[trigger] registry.claimed_by(ids[i])) is Some
}

/// The accounts of the key servers `ids`.
pub open spec fn accounts_of(registry: EntityRegistry, ids: Seq<KeyServerId>) -> Seq<u64> {
    Seq::new(ids.len(), |i: int| registry.claimed_by(ids[i])->Some_0)
}

proof fn lemma_share_bound(fee: nat, n: nat, i: nat)
    requires
        n > 0,
        i <= n,
    ensures
        i * (fee / n) <= fee,
        i < n ==> (i + 1) * (fee / n) <= fee,
{
    assert(n * (fee / n) <= fee) by (nonlinear_arith)
        requires
            n > 0,
    ;
    assert(i * (fee / n) <= n * (fee / n)) by (nonlinear_arith)
        requires
            i <= n,
    ;
    if i < n {
        assert((i + 1) * (fee / n) <= n * (fee / n)) by (nonlinear_arith)
            requires
                i + 1 <= n,
        ;
    }
}

impl SecretStore {
    /// Only the set-change block differs between both.
    pub open spec fn only_change_block_differs(&self, o: &SecretStore) -> bool {
        &&& self.same_services(o)
        &&& self.current() == o.current()
        &&& self.migrating() == o.migrating()
        &&& self.new_set_spec() == o.new_set_spec()
        &&& self.migration_spec() == o.migration_spec()
        &&& self.confirmations() == o.confirmations()
        &&& self.events_spec() == o.events_spec()
    }

    /// Only the balances differ between both.
    pub open spec fn only_balances_differ(&self, o: &SecretStore) -> bool {
        &&& self.same_config(o)
        &&& self.registry_spec() == o.registry_spec()
        &&& self.same_queues(o)
        &&& self.same_sets(o)
        &&& self.events_spec() == o.events_spec()
    }
}

impl SecretStore {
    /// The balances once `origin` has paid a service fee of `fee` to the
    /// current set, or `None` when the set is empty, a key server has claimed
    /// no account, or a transfer fails.
    pub open spec fn fee_paid(&self, origin: u64, fee: u64) -> Option<Map<u64, nat>> {
        let ids = self.current().order();
        if ids.len() > 0 && all_claimed(self.registry_spec(), ids) {
            pay_shares(
                self.balances_spec().balance_view(),
                origin,
                accounts_of(self.registry_spec(), ids),
                fee as nat,
                0,
            )
        } else {
            None
        }
    }

    /// The balances once `origin` has paid a fee of `fee`: each key server
    /// of the current set, in enumeration order, receives `fee / N` and the
    /// last one the remainder. Nothing is changed here.
    fn pay_service_fee(&self, origin: u64, fee: u64) -> (r: Result<Balances, Error>)
        requires
            self.wf(),
        ensures
            match r {
                Ok(b) => b.wf() && self.fee_paid(origin, fee) == Some(b.balance_view()),
                Err(e) => self.fee_paid(origin, fee) is None && e == (if self.current().size() == 0 {
                    Error::BadParameters
                } else {
                    Error::FeePaymentFailed
                }),
            },
    {
        proof {
            self.current_set.lemma_order();
        }
        let ids = self.current_set.ids();
        let n = ids.len();
        if n == 0 {
            return Err(Error::BadParameters);
        }
        let ghost order = self.current_set.order();
        let ghost accts = accounts_of(self.registry, order);
        let ghost v0 = self.balances.balance_view();
        let share: u64 = fee / (n as u64);
        let mut rest: u64 = fee;
        let mut balances = self.balances.duplicate();
        let mut i: usize = 0;
        while i < n
            invariant
                self.wf(),
                balances.wf(),
                n == ids@.len(),
                n == self.current_set.size(),
                n > 0,
                ids@ == order,
                accts == accounts_of(self.registry, order),
                order == self.current_set.order(),
                v0 == self.balances.balance_view(),
                i <= n,
                share == fee / (n as u64),
                rest == fee - i * share,
                forall|j: int| 0 <= j < i ==> (#[trigger] self.registry.claimed_by(order[j])) is Some,
                pay_shares(balances.balance_view(), origin, accts, fee as nat, i as nat) == pay_shares(
                    v0,
                    origin,
                    accts,
                    fee as nat,
                    0,
                ),
            decreases n - i,
        {
            proof {
                lemma_share_bound(fee as nat, n as nat, i as nat);
                assert((i + 1) * share == i * share + share) by (nonlinear_arith);
            }
            let account = match self.registry.account_of(&ids[i]) {
                Some(a) => a,
                None => {
                    assert(self.registry.claimed_by(order[i as int]) is None);
                    assert(!all_claimed(self.registry, order));
                    return Err(Error::FeePaymentFailed);
                },
            };
            let amount: u64 = if i + 1 < n {
                share
            } else {
                rest
            };
            assert(amount == fee_share(fee as nat, n as nat, i as nat));
            assert(accts[i as int] == account);
            let ghost before = balances.balance_view();
            match balances.transfer(origin, account, amount) {
                Err(_) => {
                    assert(pay_shares(before, origin, accts, fee as nat, i as nat) is None);
                    return Err(Error::FeePaymentFailed);
                },
                Ok(()) => {},
            }
            rest = rest - share;
            i = i + 1;
        }
        proof {
            assert(all_claimed(self.registry, order));
        }
        Ok(balances)
    }
}

impl SecretStoreService {
    /// Collects a service fee of `fee` from `origin`: each key server of the
    /// current set, in enumeration order, receives `fee / N` and the last one
    /// the remainder. Fails, changing nothing, when the set is empty, when a
    /// key server has claimed no account, or when a transfer fails.
    pub fn collect_service_fee(store: &mut SecretStore, origin: u64, fee: u64) -> (r: Result<(), Error>)
        requires
            old(store).wf(),
        ensures
            final(store).wf(),
            r is Ok <==> old(store).fee_paid(origin, fee) is Some,
            r is Err ==> *final(store) == *old(store) && r == Err::<(), Error>(
                if old(store).current().size() == 0 {
                    Error::BadParameters
                } else {
                    Error::FeePaymentFailed
                },
            ),
            r is Ok ==> final(store).only_balances_differ(old(store))
                && final(store).balances_spec().balance_view() == old(store).fee_paid(origin, fee)->Some_0,
    {
        match store.pay_service_fee(origin, fee) {
            Ok(b) => {
                store.balances = b;
                Ok(())
            },
            Err(e) => Err(e),
        }
    }

    /// Number of key servers in the current set.
    pub fn key_servers_count(store: &SecretStore) -> (r: u8)
        requires
            store.wf(),
        ensures
            r == store.current().size(),
    {
        proof {
            store.current_set.lemma_order();
        }
        store.current_set.len() as u8
    }

    /// Index of key server `id` in the current set.
    pub fn key_server_index_from_id(store: &SecretStore, id: KeyServerId) -> (r: Result<u8, Error>)
        requires
            store.wf(),
        ensures
            match r {
                Ok(k) => store.current().contains(id) && k == store.current().index_of(id),
                Err(e) => !store.current().contains(id) && e == Error::InvalidOrigin,
            },
    {
        match store.current_set.index_from_id(&id) {
            Some(k) => Ok(k),
            None => Err(Error::InvalidOrigin),
        }
    }

    /// Index, in the current set, of the key server whose account is
    /// `origin`.
    pub fn key_server_index_from_origin(store: &SecretStore, origin: u64) -> (r: Result<u8, Error>)
        requires
            store.wf(),
        ensures
            match r {
                Ok(k) => store.is_key_server(origin) && k == store.index_of_origin(origin),
                Err(e) => !store.is_key_server(origin) && e == Error::InvalidOrigin,
            },
    {
        match store.registry.resolve_entity_id(origin) {
            Ok(id) => Self::key_server_index_from_id(store, id),
            Err(e) => Err(e),
        }
    }

    /// Whether the key server `key_server` still has to respond to a request
    /// with response meta data `responses`.
    pub fn is_response_required(store: &SecretStore, key_server: KeyServerId, responses: &Responses) -> (r:
        bool)
        requires
            store.wf(),
        ensures
            r == store.response_required(key_server, *responses),
    {
        match store.current_set.index_from_id(&key_server) {
            None => false,
            Some(k) => store.current_set_change_block != responses.key_servers_change_block
                || !responses.responded_key_servers_mask.is_set(k),
        }
    }
}

impl SecretStore {
    /// The account `origin` has claimed the id of a member of the current
    /// set.
    pub open spec fn is_key_server(&self, origin: u64) -> bool {
        self.registry_spec().claimed_id(origin) matches Some(c) && self.current().contains(c)
    }

    /// Index in the current set of the key server whose account is `origin`.
    pub open spec fn index_of_origin(&self, origin: u64) -> u8 {
        self.current().index_of(self.registry_spec().claimed_id(origin)->Some_0)
    }

    /// Whether key server `key_server` still has to respond to a request with
    /// response meta data `rs`: it is a member of the current set, and the
    /// tally began under another set or lacks its response.
    pub open spec fn response_required(&self, key_server: KeyServerId, rs: Responses) -> bool {
        &&& self.current().contains(key_server)
        &&& (rs.key_servers_change_block != self.change_block()
            || !rs.responded_key_servers_mask@.contains(self.current().index_of(key_server) as int))
    }
}

/// Counts the response of member `c` of `current` to request `rq`, where
/// `threshold + 1` key servers must agree.
fn count_response<P>(
    current: &KeyServerList,
    change_block: u64,
    c: KeyServerId,
    index: u8,
    threshold: u8,
    rq: &mut Request<P>,
    response: &Vec<u8>,
) -> (r: ResponseSupport)
    requires
        current.wf(),
        current.contains(c),
        index == current.index_of(c),
        request_ok(*old(rq), change_block, *current),
    ensures
        request_ok(*final(rq), change_block, *current),
        final(rq).author == old(rq).author,
        final(rq).payload == old(rq).payload,
        r == outcome(
            current.size(),
            change_block,
            index,
            threshold as nat,
            old(rq).responses,
            old(rq).support,
            response@,
        ),
        final(rq).responses == responses_after(
            change_block,
            index,
            old(rq).responses,
            old(rq).support,
            response@,
        ),
        forall|x: Seq<u8>|
            #[trigger] final(rq).support.count_of(x) == support_after(
                change_block,
                index,
                old(rq).responses,
                old(rq).support,
                response@,
                x,
            ),
{
    let ghost rs = rq.responses;
    proof {
        current.lemma_order();
        rs.responded_key_servers_mask.lemma_finite();
        let mask = rs.responded_key_servers_mask@;
        let ix = current.indices();
        if !rs.is_stale(change_block) {
            if rs.responded_key_servers_count == 0 {
                mask.lemma_len0_is_empty();
            }
            assert(mask.subset_of(ix));
            vstd::set_lib::lemma_len_subset(mask, ix);
            if !mask.contains(index as int) {
                assert(mask.subset_of(ix.remove(index as int)));
                vstd::set_lib::lemma_len_subset(mask, ix.remove(index as int));
            }
        }
    }
    let n = SecretStoreService::key_servers_count_of(current);
    let r = SecretStoreService::insert_response(
        n,
        change_block,
        index,
        threshold,
        &mut rq.responses,
        &mut rq.support,
        response,
    );
    proof {
        current.lemma_order();
        let b = rs.rebase(change_block);
        b.responded_key_servers_mask.lemma_finite();
        if rs.is_stale(change_block) {
            KeyServersMask::lemma_spec_empty();
        } else if rs.responded_key_servers_count == 0 {
            rs.responded_key_servers_mask.lemma_finite();
            rs.responded_key_servers_mask@.lemma_len0_is_empty();
        }
        assert(b.responded_key_servers_mask@.subset_of(current.indices()));
        b.responded_key_servers_mask.lemma_spec_with(index);
    }
    r
}

impl SecretStoreService {
    /// Number of members of `set`.
    fn key_servers_count_of(set: &KeyServerList) -> (r: u8)
        requires
            set.wf(),
        ensures
            r == set.size(),
            r >= 1 <==> set.size() > 0,
    {
        proof {
            set.lemma_order();
        }
        set.len() as u8
    }
}

impl SecretStore {
    /// Only the balances, the generation queue and the events differ between
    /// both.
    pub open spec fn same_except_generation(&self, o: &SecretStore) -> bool {
        &&& self.same_config(o)
        &&& self.registry_spec() == o.registry_spec()
        &&& self.same_sets(o)
        &&& self.retrieval() == o.retrieval()
        &&& self.store() == o.store()
    }

    /// Only the balances, the retrieval queue and the events differ between
    /// both.
    pub open spec fn same_except_retrieval(&self, o: &SecretStore) -> bool {
        &&& self.same_config(o)
        &&& self.registry_spec() == o.registry_spec()
        &&& self.same_sets(o)
        &&& self.generation() == o.generation()
        &&& self.store() == o.store()
    }

    /// Only the balances, the store queue and the events differ between both.
    pub open spec fn same_except_store(&self, o: &SecretStore) -> bool {
        &&& self.same_config(o)
        &&& self.registry_spec() == o.registry_spec()
        &&& self.same_sets(o)
        &&& self.generation() == o.generation()
        &&& self.retrieval() == o.retrieval()
    }

    /// A fresh request of `author`.
    pub open spec fn is_fresh<P>(&self, rq: Request<P>, author: EntityId) -> bool {
        &&& rq.author == author
        &&& rq.responses.key_servers_change_block == self.change_block()
        &&& rq.responses.responded_key_servers_mask@ == Set::<int>::empty()
        &&& rq.responses.responded_key_servers_count == 0
        &&& rq.responses.max_response_support == 0
        &&& forall|x: Seq<u8>| #[trigger] rq.support.count_of(x) == 0
    }

    /// How the queue `q2` follows from `q1` when member `c` responds with
    /// `response` to request `id`, with `threshold + 1` agreeing key servers
    /// needed, in this state's current set.
    pub open spec fn responded<P>(
        &self,
        q1: RequestQueue<P>,
        q2: RequestQueue<P>,
        id: ServerKeyId,
        c: KeyServerId,
        threshold: nat,
        response: Seq<u8>,
    ) -> bool {
        let rq = q1.requests()[id];
        let index = self.current().index_of(c);
        let r = outcome(
            self.current().size(),
            self.change_block(),
            index,
            threshold,
            rq.responses,
            rq.support,
            response,
        );
        if r == ResponseSupport::Unconfirmed {
            &&& q2.keys() == q1.keys()
            &&& q2.size() == q1.size()
            &&& q2.requests().dom() == q1.requests().dom()
            &&& forall|k: ServerKeyId| k != id ==> #[trigger] q2.requests()[k] == q1.requests()[k]
            &&& q2.requests()[id].author == rq.author
            &&& q2.requests()[id].payload == rq.payload
            &&& q2.requests()[id].responses == responses_after(
                self.change_block(),
                index,
                rq.responses,
                rq.support,
                response,
            )
            &&& forall|x: Seq<u8>|
                #[trigger] q2.requests()[id].support.count_of(x) == support_after(
                    self.change_block(),
                    index,
                    rq.responses,
                    rq.support,
                    response,
                    x,
                )
        } else {
            &&& q2.requests() == q1.requests().remove(id)
            &&& q2.keys() == swap_removed(q1.keys(), id)
            &&& q2.size() == q1.size() - 1
        }
    }

    /// The outcome of member `c`'s response `response` to request `rq`.
    pub open spec fn outcome_of<P>(&self, rq: Request<P>, c: KeyServerId, threshold: nat, response: Seq<u8>) -> ResponseSupport {
        outcome(
            self.current().size(),
            self.change_block(),
            self.current().index_of(c),
            threshold,
            rq.responses,
            rq.support,
            response,
        )
    }
}

/// Server key generation.
pub struct ServerKeyGenerationService;

impl ServerKeyGenerationService {
    /// Requests generation of server key `id` with threshold `threshold`; the
    /// key will be published by a `ServerKeyGenerated` event. Fails when the
    /// queue is full, when the key is queued already, when `threshold + 1`
    /// exceeds the number of key servers, when the fee cannot be paid, and
    /// when `origin` has claimed no id, in this order.
    pub fn generate(store: &mut SecretStore, origin: u64, id: ServerKeyId, threshold: u8) -> (r: Result<(), Error>)
        requires
            old(store).wf(),
        ensures
            final(store).wf(),
            generate_post(*old(store), *final(store), origin, id, threshold, r),
    {
        if store.generation_requests.is_full() {
            return Err(Error::QueueFull);
        }
        if store.generation_requests.contains(&id) {
            return Err(Error::DuplicateRequest);
        }
        let n = SecretStoreService::key_servers_count(store);
        if threshold as u16 + 1 > n as u16 {
            return Err(Error::BadParameters);
        }
        let balances = match store.pay_service_fee(origin, store.server_key_generation_fee) {
            Ok(b) => b,
            Err(_) => {
                return Err(Error::FeePaymentFailed);
            },
        };
        let author = match store.registry.resolve_entity_id(origin) {
            Ok(a) => a,
            Err(e) => {
                return Err(e);
            },
        };
        let request = Request {
            author,
            payload: threshold,
            responses: SecretStoreService::new_responses(store.current_set_change_block),
            support: ResponsesSupport::new(),
        };
        proof {
            KeyServersMask::lemma_spec_empty();
            assert(request.responses.responded_key_servers_mask@.subset_of(store.current_set.indices()));
        }
        store.balances = balances;
        store.generation_requests.push(id, request);
        store.events.push(Event::ServerKeyGenerationRequested(id, author, threshold));
        Ok(())
    }

    /// Called when key server `origin` reports the generated key `key`. A
    /// response to a request that is not queued is ignored. Once the key is
    /// confirmed it is published and the request leaves the queue; once no
    /// key can be confirmed any more the failure is published and the request
    /// leaves the queue.
    pub fn on_generated(store: &mut SecretStore, origin: u64, id: ServerKeyId, key: Vec<u8>) -> (r: Result<(), Error>)
        requires
            old(store).wf(),
        ensures
            final(store).wf(),
            on_generated_post(*old(store), *final(store), origin, id, key, r),
    {
        if !store.generation_requests.contains(&id) {
            return Ok(());
        }
        let c = match store.registry.resolve_entity_id(origin) {
            Ok(c) => c,
            Err(e) => {
                return Err(e);
            },
        };
        let index = match store.current_set.index_from_id(&c) {
            Some(k) => k,
            None => {
                return Err(Error::InvalidOrigin);
            },
        };
        let ghost q1 = store.generation_requests;
        let (pos, mut rq) = store.generation_requests.take(&id).unwrap();
        proof {
            q1.lemma_all_ok(store.current_set_change_block, store.current_set);
        }
        let threshold = rq.payload;
        let out = count_response(
            &store.current_set,
            store.current_set_change_block,
            c,
            index,
            threshold,
            &mut rq,
            &key,
        );
        match out {
            ResponseSupport::Unconfirmed => {
                store.generation_requests.put_back(pos, id, rq);
                proof {
                    let q2 = store.generation_requests;
                    assert(q2.requests().dom() =~= q1.requests().dom());
                    assert(q2.keys() =~= q1.keys());
                    q1.lemma_keys();
                    q2.lemma_keys();
                }
            },
            _ => {
                // the request is done: it leaves the queue the way every
                // finished request does
                store.generation_requests.put_back(pos, id, rq);
                let ghost q2 = store.generation_requests;
                store.generation_requests.remove(&id);
                proof {
                    assert(q2.keys() =~= q1.keys());
                    assert(q2.requests().remove(id) =~= q1.requests().remove(id));
                    q1.lemma_keys();
                    let q3 = store.generation_requests;
                    q3.lemma_keys();
                    assert(q3.requests().dom() =~= q1.requests().dom().remove(id));
                }
                if out == ResponseSupport::Confirmed {
                    store.events.push(Event::ServerKeyGenerated(id, key));
                } else {
                    store.events.push(Event::ServerKeyGenerationError(id));
                }
            },
        }
        Ok(())
    }

    /// Called when key server `origin` reports that generation of key `id`
    /// failed: any failure is fatal, the failure is published and the
    /// request leaves the queue.
    pub fn on_generation_error(store: &mut SecretStore, origin: u64, id: ServerKeyId) -> (r: Result<(), Error>)
        requires
            old(store).wf(),
        ensures
            final(store).wf(),
            on_generation_error_post(*old(store), *final(store), origin, id, r),
    {
        match SecretStoreService::key_server_index_from_origin(store, origin) {
            Ok(_) => {},
            Err(e) => {
                return Err(e);
            },
        }
        if !store.generation_requests.contains(&id) {
            return Ok(());
        }
        let ghost q1 = store.generation_requests;
        store.generation_requests.remove(&id);
        proof {
            q1.lemma_keys();
            store.generation_requests.lemma_keys();
            assert(store.generation_requests.requests().dom() =~= q1.requests().dom().remove(id));
        }
        store.events.push(Event::ServerKeyGenerationError(id));
        Ok(())
    }

    /// Whether key server `key_server` still has to respond to the
    /// generation of key `id`.
    pub fn is_response_required(store: &SecretStore, key_server: KeyServerId, id: ServerKeyId) -> (r: bool)
        requires
            store.wf(),
        ensures
            r == (store.generation().requests().contains_key(id) && store.response_required(
                key_server,
                store.generation().requests()[id].responses,
            )),
    {
        match store.generation_requests.get(&id) {
            Some(rq) => SecretStoreService::is_response_required(store, key_server, &rq.responses),
            None => false,
        }
    }
}

/// Server key retrieval.
pub struct ServerKeyRetrievalService;

impl ServerKeyRetrievalService {
    /// Requests retrieval of the public part of server key `id`; it will be
    /// published by a `ServerKeyRetrieved` event. Fails when the queue is
    /// full, when the key is queued already, when the fee cannot be paid (or
    /// there is no key server to pay), and when `origin` has claimed no id,
    /// in this order.
    pub fn retrieve(store: &mut SecretStore, origin: u64, id: ServerKeyId) -> (r: Result<(), Error>)
        requires
            old(store).wf(),
        ensures
            final(store).wf(),
            retrieve_post(*old(store), *final(store), origin, id, r),
    {
        if store.retrieval_requests.is_full() {
            return Err(Error::QueueFull);
        }
        if store.retrieval_requests.contains(&id) {
            return Err(Error::DuplicateRequest);
        }
        let balances = match store.pay_service_fee(origin, store.server_key_retrieval_fee) {
            Ok(b) => b,
            Err(e) => {
                return Err(e);
            },
        };
        let author = match store.registry.resolve_entity_id(origin) {
            Ok(a) => a,
            Err(e) => {
                return Err(e);
            },
        };
        let request = Request {
            author,
            payload: (),
            responses: SecretStoreService::new_responses(store.current_set_change_block),
            support: ResponsesSupport::new(),
        };
        proof {
            KeyServersMask::lemma_spec_empty();
            assert(request.responses.responded_key_servers_mask@.subset_of(store.current_set.indices()));
        }
        store.balances = balances;
        store.retrieval_requests.push(id, request);
        store.events.push(Event::ServerKeyRetrievalRequested(id));
        Ok(())
    }

    /// Called when key server `origin` reports the public key `key` of `id`
    /// and its threshold `threshold`. Reports agree when both key and
    /// threshold agree; `threshold + 1` agreeing reports confirm. A report on
    /// a request that is not queued is ignored. Once confirmed the key is
    /// published and the request leaves the queue; once no report can be
    /// confirmed any more the failure is published and the request leaves the
    /// queue.
    pub fn on_retrieved(store: &mut SecretStore, origin: u64, id: ServerKeyId, key: Vec<u8>, threshold: u8) -> (r: Result<(), Error>)
        requires
            old(store).wf(),
        ensures
            final(store).wf(),
            on_retrieved_post(*old(store), *final(store), origin, id, key, threshold, r),
    {
        if !store.retrieval_requests.contains(&id) {
            return Ok(());
        }
        let c = match store.registry.resolve_entity_id(origin) {
            Ok(c) => c,
            Err(e) => {
                return Err(e);
            },
        };
        let index = match store.current_set.index_from_id(&c) {
            Some(k) => k,
            None => {
                return Err(Error::InvalidOrigin);
            },
        };
        let ghost q1 = store.retrieval_requests;
        let (pos, mut rq) = store.retrieval_requests.take(&id).unwrap();
        proof {
            q1.lemma_all_ok(store.current_set_change_block, store.current_set);
        }
        let mut response = key.clone();
        response.push(threshold);
        let out = count_response(
            &store.current_set,
            store.current_set_change_block,
            c,
            index,
            threshold,
            &mut rq,
            &response,
        );
        match out {
            ResponseSupport::Unconfirmed => {
                store.retrieval_requests.put_back(pos, id, rq);
                proof {
                    let q2 = store.retrieval_requests;
                    assert(q2.requests().dom() =~= q1.requests().dom());
                    assert(q2.keys() =~= q1.keys());
                    q1.lemma_keys();
                    q2.lemma_keys();
                }
            },
            _ => {
                // the request is done: it leaves the queue the way every
                // finished request does
                store.retrieval_requests.put_back(pos, id, rq);
                let ghost q2 = store.retrieval_requests;
                store.retrieval_requests.remove(&id);
                proof {
                    assert(q2.keys() =~= q1.keys());
                    assert(q2.requests().remove(id) =~= q1.requests().remove(id));
                    q1.lemma_keys();
                    let q3 = store.retrieval_requests;
                    q3.lemma_keys();
                    assert(q3.requests().dom() =~= q1.requests().dom().remove(id));
                }
                if out == ResponseSupport::Confirmed {
                    store.events.push(Event::ServerKeyRetrieved(id, key));
                } else {
                    store.events.push(Event::ServerKeyRetrievalError(id));
                }
            },
        }
        Ok(())
    }

    /// Called when key server `origin` reports that retrieval of key `id`
    /// failed: any failure is fatal, the failure is published and the
    /// request leaves the queue.
    pub fn on_retrieval_error(store: &mut SecretStore, origin: u64, id: ServerKeyId) -> (r: Result<(), Error>)
        requires
            old(store).wf(),
        ensures
            final(store).wf(),
            on_retrieval_error_post(*old(store), *final(store), origin, id, r),
    {
        match SecretStoreService::key_server_index_from_origin(store, origin) {
            Ok(_) => {},
            Err(e) => {
                return Err(e);
            },
        }
        if !store.retrieval_requests.contains(&id) {
            return Ok(());
        }
        let ghost q1 = store.retrieval_requests;
        store.retrieval_requests.remove(&id);
        proof {
            q1.lemma_keys();
            store.retrieval_requests.lemma_keys();
            assert(store.retrieval_requests.requests().dom() =~= q1.requests().dom().remove(id));
        }
        store.events.push(Event::ServerKeyRetrievalError(id));
        Ok(())
    }

    /// Whether key server `key_server` still has to respond to the
    /// retrieval of key `id`.
    pub fn is_response_required(store: &SecretStore, key_server: KeyServerId, id: ServerKeyId) -> (r: bool)
        requires
            store.wf(),
        ensures
            r == (store.retrieval().requests().contains_key(id) && store.response_required(
                key_server,
                store.retrieval().requests()[id].responses,
            )),
    {
        match store.retrieval_requests.get(&id) {
            Some(rq) => SecretStoreService::is_response_required(store, key_server, &rq.responses),
            None => false,
        }
    }
}

/// Document key storing.
pub struct DocumentKeyStoreService;

impl DocumentKeyStoreService {
    /// Requests storing of a document key for server key `id`. Fails when the
    /// queue is full, when the key is queued already, when the fee cannot be
    /// paid (or there is no key server to pay), and when `origin` has claimed
    /// no id, in this order.
    pub fn store(
        store: &mut SecretStore,
        origin: u64,
        id: ServerKeyId,
        common_point: Vec<u8>,
        encrypted_point: Vec<u8>,
    ) -> (r: Result<(), Error>)
        requires
            old(store).wf(),
        ensures
            final(store).wf(),
            store_post(*old(store), *final(store), origin, id, common_point, encrypted_point, r),
    {
        if store.store_requests.is_full() {
            return Err(Error::QueueFull);
        }
        if store.store_requests.contains(&id) {
            return Err(Error::DuplicateRequest);
        }
        let balances = match store.pay_service_fee(origin, store.document_key_store_fee) {
            Ok(b) => b,
            Err(e) => {
                return Err(e);
            },
        };
        let author = match store.registry.resolve_entity_id(origin) {
            Ok(a) => a,
            Err(e) => {
                return Err(e);
            },
        };
        let event = Event::DocumentKeyStoreRequested(
            id,
            author,
            common_point.clone(),
            encrypted_point.clone(),
        );
        let request = Request {
            author,
            payload: (common_point, encrypted_point),
            responses: SecretStoreService::new_responses(store.current_set_change_block),
            support: ResponsesSupport::new(),
        };
        proof {
            KeyServersMask::lemma_spec_empty();
            assert(request.responses.responded_key_servers_mask@.subset_of(store.current_set.indices()));
        }
        store.balances = balances;
        store.store_requests.push(id, request);
        store.events.push(event);
        assert(store.events@.drop_last() =~= old(store).events@);
        Ok(())
    }

    /// Called when key server `origin` reports that the document key of `id`
    /// is stored. A report on a request that is not queued is ignored. Once
    /// every key server of the current set has reported, the store is
    /// published and the request leaves the queue.
    pub fn on_stored(store: &mut SecretStore, origin: u64, id: ServerKeyId) -> (r: Result<(), Error>)
        requires
            old(store).wf(),
        ensures
            final(store).wf(),
            on_stored_post(*old(store), *final(store), origin, id, r),
    {
        if !store.store_requests.contains(&id) {
            return Ok(());
        }
        let c = match store.registry.resolve_entity_id(origin) {
            Ok(c) => c,
            Err(e) => {
                return Err(e);
            },
        };
        let index = match store.current_set.index_from_id(&c) {
            Some(k) => k,
            None => {
                return Err(Error::InvalidOrigin);
            },
        };
        // every key server of the current set must report
        let n = SecretStoreService::key_servers_count(store);
        proof {
            store.current_set.lemma_order();
        }
        let ghost q1 = store.store_requests;
        let (pos, mut rq) = store.store_requests.take(&id).unwrap();
        proof {
            q1.lemma_all_ok(store.current_set_change_block, store.current_set);
        }
        let response: Vec<u8> = Vec::new();
        let out = count_response(
            &store.current_set,
            store.current_set_change_block,
            c,
            index,
            n - 1,
            &mut rq,
            &response,
        );
        assert(response@ =~= Seq::<u8>::empty());
        match out {
            ResponseSupport::Unconfirmed => {
                store.store_requests.put_back(pos, id, rq);
                proof {
                    let q2 = store.store_requests;
                    assert(q2.requests().dom() =~= q1.requests().dom());
                    assert(q2.keys() =~= q1.keys());
                    q1.lemma_keys();
                    q2.lemma_keys();
                }
            },
            _ => {
                // the request is done: it leaves the queue the way every
                // finished request does
                store.store_requests.put_back(pos, id, rq);
                let ghost q2 = store.store_requests;
                store.store_requests.remove(&id);
                proof {
                    assert(q2.keys() =~= q1.keys());
                    assert(q2.requests().remove(id) =~= q1.requests().remove(id));
                    q1.lemma_keys();
                    let q3 = store.store_requests;
                    q3.lemma_keys();
                    assert(q3.requests().dom() =~= q1.requests().dom().remove(id));
                }
                if out == ResponseSupport::Confirmed {
                    store.events.push(Event::DocumentKeyStored(id));
                } else {
                    store.events.push(Event::DocumentKeyStoreError(id));
                }
            },
        }
        Ok(())
    }

    /// Called when key server `origin` reports that storing the document key
    /// of `id` failed: any failure is fatal, the failure is published and the
    /// request leaves the queue.
    pub fn on_store_error(store: &mut SecretStore, origin: u64, id: ServerKeyId) -> (r: Result<(), Error>)
        requires
            old(store).wf(),
        ensures
            final(store).wf(),
            on_store_error_post(*old(store), *final(store), origin, id, r),
    {
        match SecretStoreService::key_server_index_from_origin(store, origin) {
            Ok(_) => {},
            Err(e) => {
                return Err(e);
            },
        }
        if !store.store_requests.contains(&id) {
            return Ok(());
        }
        let ghost q1 = store.store_requests;
        store.store_requests.remove(&id);
        proof {
            q1.lemma_keys();
            store.store_requests.lemma_keys();
            assert(store.store_requests.requests().dom() =~= q1.requests().dom().remove(id));
        }
        store.events.push(Event::DocumentKeyStoreError(id));
        Ok(())
    }

    /// Whether key server `key_server` still has to report on the document
    /// key store of `id`.
    pub fn is_response_required(store: &SecretStore, key_server: KeyServerId, id: ServerKeyId) -> (r: bool)
        requires
            store.wf(),
        ensures
            r == (store.store().requests().contains_key(id) && store.response_required(
                key_server,
                store.store().requests()[id].responses,
            )),
    {
        match store.store_requests.get(&id) {
            Some(rq) => SecretStoreService::is_response_required(store, key_server, &rq.responses),
            None => false,
        }
    }
}

/// A key server's response to a service request.
#[derive(Debug, PartialEq, Eq)]
pub enum ServiceResponse {
    /// Server key generated: key, public key.
    ServerKeyGenerated(ServerKeyId, Vec<u8>),
    /// Server key generation failed.
    ServerKeyGenerationFailed(ServerKeyId),
    /// Server key retrieved: key, public key, threshold.
    ServerKeyRetrieved(ServerKeyId, Vec<u8>, u8),
    /// Server key retrieval failed.
    ServerKeyRetrievalFailed(ServerKeyId),
    /// Document key stored.
    DocumentKeyStored(ServerKeyId),
    /// Document key store failed.
    DocumentKeyStoreFailed(ServerKeyId),
}

/// A running migration as one key server sees it.
#[derive(Debug, PartialEq, Eq)]
pub struct KeyServerSetMigration {
    /// Migration id.
    pub id: MigrationId,
    /// The migration set: the new set when the migration started.
    pub set: Vec<(KeyServerId, Vec<u8>)>,
    /// Master of the migration.
    pub master: KeyServerId,
    /// Whether that key server has confirmed the migration.
    pub is_confirmed: bool,
}

/// The key-server sets as one key server sees them.
#[derive(Debug, PartialEq, Eq)]
pub struct KeyServerSetSnapshot {
    /// Current set.
    pub current_set: Vec<(KeyServerId, Vec<u8>)>,
    /// New set.
    pub new_set: Vec<(KeyServerId, Vec<u8>)>,
    /// Running migration.
    pub migration: Option<KeyServerSetMigration>,
}

/// `list` enumerates the members of `set` with their addresses.
pub open spec fn lists(list: Seq<(KeyServerId, Vec<u8>)>, set: KeyServerList) -> bool {
    &&& list.len() == set.size()
    &&& forall|i: int|
        0 <= i < list.len() ==> #[trigger] list[i].0 == set.order()[i] && set.members()[list[i].0]
            == list[i].1@
}

impl KeyServerSetSnapshot {
    /// Whether key server `self_id` is outside the current set.
    pub fn is_isolated(&self, self_id: &KeyServerId) -> (r: bool)
        ensures
            r == !exists|i: int| 0 <= i < self.current_set@.len() && self.current_set@[i].0 == *self_id,
    {
        let mut i: usize = 0;
        while i < self.current_set.len()
            invariant
                i <= self.current_set@.len(),
                forall|j: int| 0 <= j < i ==> self.current_set@[j].0 != *self_id,
            decreases self.current_set@.len() - i,
        {
            if self.current_set[i].0 == *self_id {
                return false;
            }
            i = i + 1;
        }
        true
    }
}

impl SecretStore {
    /// Snapshot of the key-server sets, as key server `key_server` sees them.
    pub fn key_server_set_snapshot(&self, key_server: KeyServerId) -> (r: KeyServerSetSnapshot)
        requires
            self.wf(),
        ensures
            lists(r.current_set@, self.current()),
            lists(r.new_set@, self.new_set_spec()),
            match (r.migration, self.migration_spec()) {
                (Some(m), Some((id, master))) => m.id == id && m.master == master && lists(
                    m.set@,
                    self.migrating(),
                ) && m.is_confirmed == self.confirmations().contains(key_server),
                (None, None) => true,
                _ => false,
            },
    {
        let migration = match self.migration {
            Some((id, master)) => Some(
                KeyServerSetMigration {
                    id,
                    set: self.migration_set.to_vec(),
                    master,
                    is_confirmed: self.has_confirmed(&key_server),
                },
            ),
            None => None,
        };
        KeyServerSetSnapshot {
            current_set: self.current_set.to_vec(),
            new_set: self.new_set.to_vec(),
            migration,
        }
    }
}

/// What `generate` does.
pub open spec fn generate_post(
    o: SecretStore,
    f: SecretStore,
    origin: u64,
    id: ServerKeyId,
    threshold: u8,
    r: Result<(), Error>,
) -> bool {
    &&& (r == (if o.generation().size() >= MAX_GENERATION_REQUESTS {
        Err(Error::QueueFull)
    } else if o.generation().requests().contains_key(id) {
        Err(Error::DuplicateRequest)
    } else if threshold as nat + 1 > o.current().size() {
        Err(Error::BadParameters)
    } else if o.fee_paid(origin, o.generation_fee()) is None {
        Err(Error::FeePaymentFailed)
    } else if o.registry_spec().claimed_id(origin) is None {
        Err(Error::InvalidOrigin)
    } else {
        Ok(())
    }))
    &&& (r is Err ==> f == o)
    &&& (r is Ok ==> {
        let author = o.registry_spec().claimed_id(origin)->Some_0;
        &&& f.same_except_generation(&o)
        &&& f.balances_spec().balance_view() == o.fee_paid(
            origin,
            o.generation_fee(),
        )->Some_0
        &&& f.generation().requests().dom() == o.generation().requests().dom().insert(id)
        &&& f.generation().keys() == o.generation().keys().push(id)
        &&& f.generation().size() == o.generation().size() + 1
        &&& forall|k: ServerKeyId| k != id ==> #[trigger] f.generation().requests()[k]
            == o.generation().requests()[k]
        &&& o.is_fresh(f.generation().requests()[id], author)
        &&& f.generation().requests()[id].payload == threshold
        &&& f.events_spec() == o.events_spec().push(
            Event::ServerKeyGenerationRequested(id, author, threshold),
        )
    })
}

/// What `on_generated` does.
pub open spec fn on_generated_post(
    o: SecretStore,
    f: SecretStore,
    origin: u64,
    id: ServerKeyId,
    key: Vec<u8>,
    r: Result<(), Error>,
) -> bool {
    &&& (r == (if o.generation().requests().contains_key(id) && !o.is_key_server(origin) {
        Err(Error::InvalidOrigin)
    } else {
        Ok(())
    }))
    &&& (r is Err || !o.generation().requests().contains_key(id) ==> f == o)
    &&& (r is Ok && o.generation().requests().contains_key(id) ==> {
        let c = o.registry_spec().claimed_id(origin)->Some_0;
        let rq = o.generation().requests()[id];
        let out = o.outcome_of(rq, c, rq.payload as nat, key@);
        &&& f.same_except_generation(&o)
        &&& f.balances_spec() == o.balances_spec()
        &&& o.responded(
            o.generation(),
            f.generation(),
            id,
            c,
            rq.payload as nat,
            key@,
        )
        &&& f.events_spec() == match out {
            ResponseSupport::Unconfirmed => o.events_spec(),
            ResponseSupport::Confirmed => o.events_spec().push(
                Event::ServerKeyGenerated(id, key),
            ),
            ResponseSupport::Impossible => o.events_spec().push(
                Event::ServerKeyGenerationError(id),
            ),
        }
    })
}

/// What `on_generation_error` does.
pub open spec fn on_generation_error_post(
    o: SecretStore,
    f: SecretStore,
    origin: u64,
    id: ServerKeyId,
    r: Result<(), Error>,
) -> bool {
    &&& (r == (if !o.is_key_server(origin) {
        Err(Error::InvalidOrigin)
    } else {
        Ok(())
    }))
    &&& (r is Err || !o.generation().requests().contains_key(id) ==> f == o)
    &&& (r is Ok && o.generation().requests().contains_key(id) ==> {
        &&& f.same_except_generation(&o)
        &&& f.balances_spec() == o.balances_spec()
        &&& f.generation().requests() == o.generation().requests().remove(id)
        &&& f.generation().keys() == swap_removed(o.generation().keys(), id)
        &&& f.generation().size() == o.generation().size() - 1
        &&& f.events_spec() == o.events_spec().push(
            Event::ServerKeyGenerationError(id),
        )
    })
}

/// What `store` does.
pub open spec fn store_post(
    o: SecretStore,
    f: SecretStore,
    origin: u64,
    id: ServerKeyId,
    common_point: Vec<u8>,
    encrypted_point: Vec<u8>,
    r: Result<(), Error>,
) -> bool {
    &&& (r == (if o.store().size() >= MAX_STORE_REQUESTS {
        Err(Error::QueueFull)
    } else if o.store().requests().contains_key(id) {
        Err(Error::DuplicateRequest)
    } else if o.fee_paid(origin, o.store_fee()) is None {
        Err(
            if o.current().size() == 0 {
                Error::BadParameters
            } else {
                Error::FeePaymentFailed
            },
        )
    } else if o.registry_spec().claimed_id(origin) is None {
        Err(Error::InvalidOrigin)
    } else {
        Ok(())
    }))
    &&& (r is Err ==> f == o)
    &&& (r is Ok ==> {
        let author = o.registry_spec().claimed_id(origin)->Some_0;
        &&& f.same_except_store(&o)
        &&& f.balances_spec().balance_view() == o.fee_paid(
            origin,
            o.store_fee(),
        )->Some_0
        &&& f.store().requests().dom() == o.store().requests().dom().insert(id)
        &&& f.store().keys() == o.store().keys().push(id)
        &&& f.store().size() == o.store().size() + 1
        &&& forall|k: ServerKeyId| k != id ==> #[trigger] f.store().requests()[k]
            == o.store().requests()[k]
        &&& o.is_fresh(f.store().requests()[id], author)
        &&& f.store().requests()[id].payload.0@ == common_point@
        &&& f.store().requests()[id].payload.1@ == encrypted_point@
        &&& f.events_spec().drop_last() == o.events_spec()
        &&& f.events_spec().last() matches Event::DocumentKeyStoreRequested(
            k,
            a,
            cp,
            ep,
        ) && k == id && a == author && cp@ == common_point@ && ep@ == encrypted_point@
    })
}

/// What `on_stored` does.
pub open spec fn on_stored_post(
    o: SecretStore,
    f: SecretStore,
    origin: u64,
    id: ServerKeyId,
    r: Result<(), Error>,
) -> bool {
    &&& (r == (if o.store().requests().contains_key(id) && !o.is_key_server(origin) {
        Err(Error::InvalidOrigin)
    } else {
        Ok(())
    }))
    &&& (r is Err || !o.store().requests().contains_key(id) ==> f == o)
    &&& (r is Ok && o.store().requests().contains_key(id) ==> {
        let c = o.registry_spec().claimed_id(origin)->Some_0;
        let rq = o.store().requests()[id];
        let threshold = (o.current().size() - 1) as nat;
        let out = o.outcome_of(rq, c, threshold, Seq::<u8>::empty());
        &&& f.same_except_store(&o)
        &&& f.balances_spec() == o.balances_spec()
        &&& o.responded(
            o.store(),
            f.store(),
            id,
            c,
            threshold,
            Seq::<u8>::empty(),
        )
        &&& f.events_spec() == match out {
            ResponseSupport::Unconfirmed => o.events_spec(),
            ResponseSupport::Confirmed => o.events_spec().push(
                Event::DocumentKeyStored(id),
            ),
            ResponseSupport::Impossible => o.events_spec().push(
                Event::DocumentKeyStoreError(id),
            ),
        }
    })
}

/// What `on_store_error` does.
pub open spec fn on_store_error_post(
    o: SecretStore,
    f: SecretStore,
    origin: u64,
    id: ServerKeyId,
    r: Result<(), Error>,
) -> bool {
    &&& (r == (if !o.is_key_server(origin) {
        Err(Error::InvalidOrigin)
    } else {
        Ok(())
    }))
    &&& (r is Err || !o.store().requests().contains_key(id) ==> f == o)
    &&& (r is Ok && o.store().requests().contains_key(id) ==> {
        &&& f.same_except_store(&o)
        &&& f.balances_spec() == o.balances_spec()
        &&& f.store().requests() == o.store().requests().remove(id)
        &&& f.store().keys() == swap_removed(o.store().keys(), id)
        &&& f.store().size() == o.store().size() - 1
        &&& f.events_spec() == o.events_spec().push(
            Event::DocumentKeyStoreError(id),
        )
    })
}

impl SecretStore {
    /// Requests generation of a server key: see
    /// `ServerKeyGenerationService::generate`.
    pub fn generate_server_key(&mut self, origin: u64, id: ServerKeyId, threshold: u8) -> (r: Result<
        (),
        Error,
    >)
        requires
            old(self).wf(),
        ensures
            final(self).wf(),
            generate_post(*old(self), *final(self), origin, id, threshold, r),
    {
        ServerKeyGenerationService::generate(self, origin, id, threshold)
    }

    /// Hands a key server's response to the callback of its kind.
    pub fn service_response(&mut self, origin: u64, response: ServiceResponse) -> (r: Result<(), Error>)
        requires
            old(self).wf(),
        ensures
            final(self).wf(),
            match response {
                ServiceResponse::ServerKeyGenerated(id, key) => on_generated_post(
                    *old(self),
                    *final(self),
                    origin,
                    id,
                    key,
                    r,
                ),
                ServiceResponse::ServerKeyGenerationFailed(id) => on_generation_error_post(
                    *old(self),
                    *final(self),
                    origin,
                    id,
                    r,
                ),
                ServiceResponse::ServerKeyRetrieved(id, key, threshold) => on_retrieved_post(
                    *old(self),
                    *final(self),
                    origin,
                    id,
                    key,
                    threshold,
                    r,
                ),
                ServiceResponse::ServerKeyRetrievalFailed(id) => on_retrieval_error_post(
                    *old(self),
                    *final(self),
                    origin,
                    id,
                    r,
                ),
                ServiceResponse::DocumentKeyStored(id) => on_stored_post(
                    *old(self),
                    *final(self),
                    origin,
                    id,
                    r,
                ),
                ServiceResponse::DocumentKeyStoreFailed(id) => on_store_error_post(
                    *old(self),
                    *final(self),
                    origin,
                    id,
                    r,
                ),
            },
    {
        match response {
            ServiceResponse::ServerKeyGenerated(id, key) => ServerKeyGenerationService::on_generated(
                self,
                origin,
                id,
                key,
            ),
            ServiceResponse::ServerKeyGenerationFailed(id) => ServerKeyGenerationService::on_generation_error(
                self,
                origin,
                id,
            ),
            ServiceResponse::ServerKeyRetrieved(id, key, threshold) => ServerKeyRetrievalService::on_retrieved(
                self,
                origin,
                id,
                key,
                threshold,
            ),
            ServiceResponse::ServerKeyRetrievalFailed(id) => ServerKeyRetrievalService::on_retrieval_error(
                self,
                origin,
                id,
            ),
            ServiceResponse::DocumentKeyStored(id) => DocumentKeyStoreService::on_stored(self, origin, id),
            ServiceResponse::DocumentKeyStoreFailed(id) => DocumentKeyStoreService::on_store_error(
                self,
                origin,
                id,
            ),
        }
    }

    /// Whether key server `key_server` still has to respond to the
    /// generation of key `key`.
    pub fn is_server_key_generation_response_required(&self, key_server: KeyServerId, key: ServerKeyId) -> (r:
        bool)
        requires
            self.wf(),
        ensures
            r == (self.generation().requests().contains_key(key) && self.response_required(
                key_server,
                self.generation().requests()[key].responses,
            )),
    {
        ServerKeyGenerationService::is_response_required(self, key_server, key)
    }

    /// Whether key server `key_server` still has to respond to the
    /// retrieval of key `key`.
    pub fn is_server_key_retrieval_response_required(&self, key_server: KeyServerId, key: ServerKeyId) -> (r:
        bool)
        requires
            self.wf(),
        ensures
            r == (self.retrieval().requests().contains_key(key) && self.response_required(
                key_server,
                self.retrieval().requests()[key].responses,
            )),
    {
        ServerKeyRetrievalService::is_response_required(self, key_server, key)
    }

    /// Requests retrieval of a server key: see
    /// `ServerKeyRetrievalService::retrieve`.
    pub fn retrieve_server_key(&mut self, origin: u64, id: ServerKeyId) -> (r: Result<(), Error>)
        requires
            old(self).wf(),
        ensures
            final(self).wf(),
            retrieve_post(*old(self), *final(self), origin, id, r),
    {
        ServerKeyRetrievalService::retrieve(self, origin, id)
    }

    /// Whether key server `key_server` still has to report on the document
    /// key store of `key`.
    pub fn is_document_key_store_response_required(&self, key_server: KeyServerId, key: ServerKeyId) -> (r:
        bool)
        requires
            self.wf(),
        ensures
            r == (self.store().requests().contains_key(key) && self.response_required(
                key_server,
                self.store().requests()[key].responses,
            )),
    {
        DocumentKeyStoreService::is_response_required(self, key_server, key)
    }

    /// The owner of the module.
    pub fn owner(&self) -> (r: u64)
        ensures
            r == self.owner_spec(),
    {
        self.owner
    }

    /// The set-change block: it moves on whenever the current set changes.
    pub fn current_set_change_block(&self) -> (r: u64)
        ensures
            r == self.change_block(),
    {
        self.current_set_change_block
    }

    /// Records that the key-server set changed at block `block`, as the host
    /// does when it rotates the set by other means: every request tally that
    /// began earlier starts over on its next response.
    pub fn set_current_set_change_block(&mut self, block: u64)
        requires
            old(self).wf(),
            block >= old(self).change_block(),
        ensures
            final(self).wf(),
            final(self).change_block() == block,
            final(self).only_change_block_differs(old(self)),
    {
        if block > self.current_set_change_block {
            proof {
                self.generation_requests.lemma_bump(self.current_set_change_block, self.current_set, block, self.current_set);
                self.store_requests.lemma_bump(self.current_set_change_block, self.current_set, block, self.current_set);
                self.retrieval_requests.lemma_bump(self.current_set_change_block, self.current_set, block, self.current_set);
            }
            self.current_set_change_block = block;
        }
    }

    /// Free balance of `account`.
    pub fn free_balance(&self, account: u64) -> (r: u64)
        requires
            self.wf(),
        ensures
            r == self.balances_spec().balance(account),
    {
        self.balances.free_balance(account)
    }

    /// The queued server key generation request of key `key`.
    pub fn server_key_generation_request(&self, key: &ServerKeyId) -> (r: Option<&ServerKeyGenerationRequest>)
        requires
            self.wf(),
        ensures
            match r {
                Some(rq) => self.generation().requests().contains_key(*key) && *rq
                    == self.generation().requests()[*key],
                None => !self.generation().requests().contains_key(*key),
            },
    {
        self.generation_requests.get(key)
    }

    /// Number of queued server key generation requests.
    pub fn server_key_generation_requests_count(&self) -> (r: usize)
        ensures
            r == self.generation().size(),
    {
        self.generation_requests.len()
    }

    /// Number of queued server key retrieval requests.
    pub fn server_key_retrieval_requests_count(&self) -> (r: usize)
        ensures
            r == self.retrieval().size(),
    {
        self.retrieval_requests.len()
    }

    /// Number of queued document key store requests.
    pub fn document_key_store_requests_count(&self) -> (r: usize)
        ensures
            r == self.store().size(),
    {
        self.store_requests.len()
    }
}

/// The entity id that account `origin` has claimed.
pub fn resolve_entity_id(store: &SecretStore, origin: u64) -> (r: Result<EntityId, Error>)
    requires
        store.wf(),
    ensures
        match r {
            Ok(e) => store.registry_spec().claimed_id(origin) == Some(e),
            Err(err) => store.registry_spec().claimed_id(origin) is None && err == Error::InvalidOrigin,
        },
{
    store.registry.resolve_entity_id(origin)
}

/// What `confirm_migration` does.
pub open spec fn confirm_migration_post(
    o: SecretStore,
    f: SecretStore,
    origin: u64,
    migration_id: MigrationId,
    r: Result<(), Error>,
) -> bool {
    &&& (r == (match o.registry_spec().claimed_id(origin) {
        None => Err(Error::InvalidOrigin),
        Some(c) => if !(o.migration_spec() matches Some((id, _)) && id
            == migration_id) || !o.migrating().contains(c) {
            Err(Error::MigrationInvariant)
        } else if !o.confirmations().contains(c) && o.completes(c)
            && o.change_block() == u64::MAX {
            Err(Error::MigrationInvariant)
        } else {
            Ok(())
        },
    }))
    &&& (r is Err ==> f == o)
    &&& (r is Ok ==> {
        let c = o.registry_spec().claimed_id(origin)->Some_0;
        if o.confirmations().contains(c) {
            f == o
        } else if !o.completes(c) {
            &&& f.same_services(&o)
            &&& f.current() == o.current()
            &&& f.new_set_spec() == o.new_set_spec()
            &&& f.migrating() == o.migrating()
            &&& f.migration_spec() == o.migration_spec()
            &&& f.change_block() == o.change_block()
            &&& f.confirmations() == o.confirmations().insert(c)
            &&& f.events_spec() == o.events_spec()
        } else {
            &&& f.same_services(&o)
            &&& f.current() == o.migrating()
            &&& f.new_set_spec() == o.new_set_spec()
            &&& f.migrating().size() == 0
            &&& f.migration_spec() is None
            &&& f.confirmations() == Set::<KeyServerId>::empty()
            &&& f.change_block() == o.change_block() + 1
            &&& f.events_spec() == o.events_spec().push(
                Event::MigrationCompleted,
            )
        }
    })
}

/// What `start_migration` does.
pub open spec fn start_migration_post(
    o: SecretStore,
    f: SecretStore,
    origin: u64,
    migration_id: MigrationId,
    r: Result<(), Error>,
) -> bool {
    &&& (r == (match o.registry_spec().claimed_id(origin) {
        None => Err(Error::InvalidOrigin),
        Some(c) => if !o.current().contains(c) && !o.new_set_spec().contains(c) {
            Err(Error::InvalidOrigin)
        } else if !o.initialized() || o.migration_spec() is Some
            || o.current().members() == o.new_set_spec().members() {
            Err(Error::MigrationInvariant)
        } else {
            Ok(())
        },
    }))
    &&& (r is Err ==> f == o)
    &&& (r is Ok ==> {
        &&& f.same_services(&o)
        &&& f.current() == o.current()
        &&& f.new_set_spec() == o.new_set_spec()
        &&& f.change_block() == o.change_block()
        &&& f.migrating().members() == o.new_set_spec().members()
        &&& f.confirmations() == Set::<KeyServerId>::empty()
        &&& f.migration_spec() matches Some((id, m)) && id == migration_id
            && is_master(m, o.current(), f.migrating())
        &&& f.events_spec() == o.events_spec().push(Event::MigrationStarted)
    })
}

impl SecretStore {
    /// Every queued request counts each responder once: the responded count
    /// is the number of set bits of the mask, and no response has more
    /// supporters than there are responders. While the tally belongs to the
    /// current set-change block, there are no more responders than members
    /// of the current set.
    pub proof fn lemma_request_tallies(&self, id: ServerKeyId)
        requires
            self.wf(),
        ensures
            self.generation().requests().contains_key(id) ==> {
                let rs = self.generation().requests()[id].responses;
                &&& rs.responded_key_servers_mask@.len() == rs.responded_key_servers_count
                &&& rs.max_response_support <= rs.responded_key_servers_count
                &&& rs.key_servers_change_block == self.change_block()
                    ==> rs.responded_key_servers_count <= self.current().size()
            },
            self.store().requests().contains_key(id) ==> {
                let rs = self.store().requests()[id].responses;
                &&& rs.responded_key_servers_mask@.len() == rs.responded_key_servers_count
                &&& rs.max_response_support <= rs.responded_key_servers_count
                &&& rs.key_servers_change_block == self.change_block()
                    ==> rs.responded_key_servers_count <= self.current().size()
            },
    {
        self.generation_requests.lemma_all_ok(self.current_set_change_block, self.current_set);
        self.store_requests.lemma_all_ok(self.current_set_change_block, self.current_set);
        self.current_set.lemma_order();
        if self.generation().requests().contains_key(id) {
            let rs = self.generation().requests()[id].responses;
            if rs.key_servers_change_block == self.change_block() {
                vstd::set_lib::lemma_len_subset(
                    rs.responded_key_servers_mask@,
                    self.current_set.indices(),
                );
            }
        }
        if self.store().requests().contains_key(id) {
            let rs = self.store().requests()[id].responses;
            if rs.key_servers_change_block == self.change_block() {
                vstd::set_lib::lemma_len_subset(
                    rs.responded_key_servers_mask@,
                    self.current_set.indices(),
                );
            }
        }
    }

    /// A request whose tally began under an older set-change block needs a
    /// response from every member of the current set again.
    pub proof fn lemma_stale_request_needs_everyone(&self, rs: Responses, key_server: KeyServerId)
        requires
            rs.key_servers_change_block != self.change_block(),
            self.current().contains(key_server),
        ensures
            self.response_required(key_server, rs),
    {
    }

    /// `claimed_id` and `claimed_by` are mutual inverses.
    pub proof fn lemma_claims_inverse(&self, account: u64, id: EntityId)
        requires
            self.wf(),
        ensures
            self.registry_spec().claimed_id(account) == Some(id)
                <==> self.registry_spec().claimed_by(id) == Some(account),
    {
        self.registry.lemma_inverse(account, id);
    }

    /// Each queue's size is the number of its requests, and its key list
    /// names each request once.
    pub proof fn lemma_queue_sizes(&self)
        requires
            self.wf(),
        ensures
            self.generation().size() == self.generation().requests().dom().len(),
            self.generation().keys().len() == self.generation().size(),
            self.generation().keys().no_duplicates(),
            forall|k: ServerKeyId| #[trigger] self.generation().keys().contains(k) <==> self.generation().requests().contains_key(k),
            self.generation().requests().dom().finite(),
            self.store().size() == self.store().requests().dom().len(),
            self.store().keys().len() == self.store().size(),
            self.store().keys().no_duplicates(),
            forall|k: ServerKeyId| #[trigger] self.store().keys().contains(k) <==> self.store().requests().contains_key(k),
            self.store().requests().dom().finite(),
            self.retrieval().size() == self.retrieval().requests().dom().len(),
            self.retrieval().keys().len() == self.retrieval().size(),
            self.retrieval().keys().no_duplicates(),
            forall|k: ServerKeyId| #[trigger] self.retrieval().keys().contains(k) <==> self.retrieval().requests().contains_key(k),
            self.retrieval().requests().dom().finite(),
    {
        self.generation_requests.lemma_keys();
        self.store_requests.lemma_keys();
        self.retrieval_requests.lemma_keys();
    }

    /// No queue holds more requests than its kind allows.
    pub proof fn lemma_queue_caps(&self)
        requires
            self.wf(),
        ensures
            self.generation().size() <= MAX_GENERATION_REQUESTS,
            self.store().size() <= MAX_STORE_REQUESTS,
            self.retrieval().size() <= MAX_RETRIEVAL_REQUESTS,
    {
        self.generation_requests.lemma_size_bound();
        self.store_requests.lemma_size_bound();
        self.retrieval_requests.lemma_size_bound();
    }
}

/// Confirming the same migration twice from the same account has the same
/// effect as confirming it once.
pub proof fn lemma_confirm_migration_twice(
    s0: SecretStore,
    s1: SecretStore,
    s2: SecretStore,
    origin: u64,
    migration_id: MigrationId,
    r1: Result<(), Error>,
    r2: Result<(), Error>,
)
    requires
        s0.wf(),
        confirm_migration_post(s0, s1, origin, migration_id, r1),
        s1.wf(),
        confirm_migration_post(s1, s2, origin, migration_id, r2),
    ensures
        s2 == s1,
{
    if r1 is Ok {
        let c = s0.registry_spec().claimed_id(origin)->Some_0;
        if !s0.confirmations().contains(c) && s0.completes(c) {
            assert(s1.migration_spec() is None);
            assert(r2 is Err);
        } else if !s0.confirmations().contains(c) {
            assert(s1.registry_spec() == s0.registry_spec());
            assert(s1.confirmations().contains(c));
        }
    }
}

/// A rotation to a migration set with the same members as the current set
/// changes no membership: only the set-change block moves on.
pub proof fn lemma_identical_rotation(
    s0: SecretStore,
    s1: SecretStore,
    origin: u64,
    migration_id: MigrationId,
    r: Result<(), Error>,
)
    requires
        s0.wf(),
        confirm_migration_post(s0, s1, origin, migration_id, r),
        r is Ok,
        s0.migrating().members() == s0.current().members(),
        s0.registry_spec().claimed_id(origin) matches Some(c) && !s0.confirmations().contains(c)
            && s0.completes(c),
    ensures
        s1.current() == s0.migrating(),
        s1.current().members() == s0.current().members(),
        s1.new_set_spec() == s0.new_set_spec(),
        s1.same_services(&s0),
        s1.change_block() == s0.change_block() + 1,
{
}

/// With the generation queue full, one more request is refused and changes
/// nothing.
pub proof fn lemma_full_generation_queue(
    s0: SecretStore,
    s1: SecretStore,
    origin: u64,
    id: ServerKeyId,
    threshold: u8,
    r: Result<(), Error>,
)
    requires
        s0.wf(),
        s0.generation().size() == MAX_GENERATION_REQUESTS,
        generate_post(s0, s1, origin, id, threshold, r),
    ensures
        r is Err,
        s1 == s0,
{
}

/// With the store queue full, one more request is refused and changes
/// nothing.
pub proof fn lemma_full_store_queue(
    s0: SecretStore,
    s1: SecretStore,
    origin: u64,
    id: ServerKeyId,
    common_point: Vec<u8>,
    encrypted_point: Vec<u8>,
    r: Result<(), Error>,
)
    requires
        s0.wf(),
        s0.store().size() == MAX_STORE_REQUESTS,
        store_post(s0, s1, origin, id, common_point, encrypted_point, r),
    ensures
        r == Err::<(), Error>(Error::QueueFull),
        s1 == s0,
{
}

/// Reporting the same generated key twice from the same key server leaves
/// the state of the first report: no event, and every queued request with
/// the same responses and the same tallies.
pub proof fn lemma_generated_twice(
    s0: SecretStore,
    s1: SecretStore,
    s2: SecretStore,
    origin: u64,
    id: ServerKeyId,
    key: Vec<u8>,
    r1: Result<(), Error>,
    r2: Result<(), Error>,
)
    requires
        s0.wf(),
        on_generated_post(s0, s1, origin, id, key, r1),
        s1.wf(),
        on_generated_post(s1, s2, origin, id, key, r2),
    ensures
        s2.events_spec() == s1.events_spec(),
        s2.balances_spec() == s1.balances_spec(),
        s2.same_except_generation(&s1),
        s2.generation().requests().dom() == s1.generation().requests().dom(),
        forall|k: ServerKeyId| #[trigger] s1.generation().requests().contains_key(k) ==> {
            &&& s2.generation().requests()[k].responses == s1.generation().requests()[k].responses
            &&& s2.generation().requests()[k].author == s1.generation().requests()[k].author
            &&& s2.generation().requests()[k].payload == s1.generation().requests()[k].payload
            &&& forall|x: Seq<u8>|
                #[trigger] s2.generation().requests()[k].support.count_of(x)
                    == s1.generation().requests()[k].support.count_of(x)
        },
{
    if r1 is Ok && s0.generation().requests().contains_key(id) {
        let c = s0.registry_spec().claimed_id(origin)->Some_0;
        let rq = s0.generation().requests()[id];
        let out = s0.outcome_of(rq, c, rq.payload as nat, key@);
        if out == ResponseSupport::Unconfirmed {
            let rq1 = s1.generation().requests()[id];
            let index = s0.current().index_of(c);
            s0.generation_requests.lemma_all_ok(s0.current_set_change_block, s0.current_set);
            crate::service::lemma_duplicate_response(
                s0.current().size(),
                s0.change_block(),
                index,
                rq.payload as nat,
                rq.responses,
                rq.support,
                rq1.support,
                key@,
            );
            assert(s1.registry_spec() == s0.registry_spec());
            assert(s1.current() == s0.current());
            assert(s1.change_block() == s0.change_block());
            assert(s1.outcome_of(rq1, c, rq1.payload as nat, key@) == ResponseSupport::Unconfirmed);
            assert(s2.generation().requests().dom() =~= s1.generation().requests().dom());
        }
    }
}

/// What `retrieve` does.
pub open spec fn retrieve_post(
    o: SecretStore,
    f: SecretStore,
    origin: u64,
    id: ServerKeyId,
    r: Result<(), Error>,
) -> bool {
    &&& (r == (if o.retrieval().size() >= MAX_RETRIEVAL_REQUESTS {
        Err(Error::QueueFull)
    } else if o.retrieval().requests().contains_key(id) {
        Err(Error::DuplicateRequest)
    } else if o.fee_paid(origin, o.retrieval_fee()) is None {
        Err(
            if o.current().size() == 0 {
                Error::BadParameters
            } else {
                Error::FeePaymentFailed
            },
        )
    } else if o.registry_spec().claimed_id(origin) is None {
        Err(Error::InvalidOrigin)
    } else {
        Ok(())
    }))
    &&& (r is Err ==> f == o)
    &&& (r is Ok ==> {
        let author = o.registry_spec().claimed_id(origin)->Some_0;
        &&& f.same_except_retrieval(&o)
        &&& f.balances_spec().balance_view() == o.fee_paid(
            origin,
            o.retrieval_fee(),
        )->Some_0
        &&& f.retrieval().requests().dom() == o.retrieval().requests().dom().insert(id)
        &&& f.retrieval().keys() == o.retrieval().keys().push(id)
        &&& f.retrieval().size() == o.retrieval().size() + 1
        &&& forall|k: ServerKeyId| k != id ==> #[trigger] f.retrieval().requests()[k]
            == o.retrieval().requests()[k]
        &&& o.is_fresh(f.retrieval().requests()[id], author)
        &&& f.events_spec() == o.events_spec().push(
            Event::ServerKeyRetrievalRequested(id),
        )
    })
}

/// What `on_retrieved` does.
pub open spec fn on_retrieved_post(
    o: SecretStore,
    f: SecretStore,
    origin: u64,
    id: ServerKeyId,
    key: Vec<u8>,
    threshold: u8,
    r: Result<(), Error>,
) -> bool {
    &&& (r == (if o.retrieval().requests().contains_key(id) && !o.is_key_server(origin) {
        Err(Error::InvalidOrigin)
    } else {
        Ok(())
    }))
    &&& (r is Err || !o.retrieval().requests().contains_key(id) ==> f == o)
    &&& (r is Ok && o.retrieval().requests().contains_key(id) ==> {
        let c = o.registry_spec().claimed_id(origin)->Some_0;
        let rq = o.retrieval().requests()[id];
        let out = o.outcome_of(rq, c, threshold as nat, key@.push(threshold));
        &&& f.same_except_retrieval(&o)
        &&& f.balances_spec() == o.balances_spec()
        &&& o.responded(
            o.retrieval(),
            f.retrieval(),
            id,
            c,
            threshold as nat,
            key@.push(threshold),
        )
        &&& f.events_spec() == match out {
            ResponseSupport::Unconfirmed => o.events_spec(),
            ResponseSupport::Confirmed => o.events_spec().push(
                Event::ServerKeyRetrieved(id, key),
            ),
            ResponseSupport::Impossible => o.events_spec().push(
                Event::ServerKeyRetrievalError(id),
            ),
        }
    })
}

/// What `on_retrieval_error` does.
pub open spec fn on_retrieval_error_post(
    o: SecretStore,
    f: SecretStore,
    origin: u64,
    id: ServerKeyId,
    r: Result<(), Error>,
) -> bool {
    &&& (r == (if !o.is_key_server(origin) {
        Err(Error::InvalidOrigin)
    } else {
        Ok(())
    }))
    &&& (r is Err || !o.retrieval().requests().contains_key(id) ==> f == o)
    &&& (r is Ok && o.retrieval().requests().contains_key(id) ==> {
        &&& f.same_except_retrieval(&o)
        &&& f.balances_spec() == o.balances_spec()
        &&& f.retrieval().requests() == o.retrieval().requests().remove(id)
        &&& f.retrieval().keys() == swap_removed(o.retrieval().keys(), id)
        &&& f.retrieval().size() == o.retrieval().size() - 1
        &&& f.events_spec() == o.events_spec().push(
            Event::ServerKeyRetrievalError(id),
        )
    })
}

/// With the retrieval queue full, one more request is refused and changes
/// nothing.
pub proof fn lemma_full_retrieval_queue(
    s0: SecretStore,
    s1: SecretStore,
    origin: u64,
    id: ServerKeyId,
    r: Result<(), Error>,
)
    requires
        s0.wf(),
        s0.retrieval().size() == MAX_RETRIEVAL_REQUESTS,
        retrieve_post(s0, s1, origin, id, r),
    ensures
        r == Err::<(), Error>(Error::QueueFull),
        s1 == s0,
{
}

} // verus!
