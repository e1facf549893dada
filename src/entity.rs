//! Binding between host-chain accounts and entity ids.

use vstd::prelude::*;
use crate::error::Error;
use crate::id::EntityId;

verus! {

/// Account => entity id, and its inverse. Each account claims at most one id
/// and each id is claimed by at most one account.
pub struct EntityRegistry {
    claims: Vec<(u64, EntityId)>,
}

impl EntityRegistry {
    /// No account and no id occurs twice.
    pub closed spec fn wf(&self) -> bool {
        forall|i: int, j: int|
            0 <= i < self.claims@.len() && 0 <= j < self.claims@.len() && i != j ==> {
                &&& self.claims@[i].0 != self.claims@[j].0
                &&& self.claims@[i].1 != self.claims@[j].1
            }
    }

    /// The id that `account` has claimed.
    pub closed spec fn claimed_id(&self, account: u64) -> Option<EntityId> {
        if exists|i: int| 0 <= i < self.claims@.len() && self.claims@[i].0 == account {
            let i = choose|i: int| 0 <= i < self.claims@.len() && self.claims@[i].0 == account;
            Some(self.claims@[i].1)
        } else {
            None
        }
    }

    /// The account that has claimed `id`.
    pub closed spec fn claimed_by(&self, id: EntityId) -> Option<u64> {
        if exists|i: int| 0 <= i < self.claims@.len() && self.claims@[i].1 == id {
            let i = choose|i: int| 0 <= i < self.claims@.len() && self.claims@[i].1 == id;
            Some(self.claims@[i].0)
        } else {
            None
        }
    }

    proof fn lemma_at(&self, i: int)
        requires
            self.wf(),
            0 <= i < self.claims@.len(),
        ensures
            self.claimed_id(self.claims@[i].0) == Some(self.claims@[i].1),
            self.claimed_by(self.claims@[i].1) == Some(self.claims@[i].0),
    {
        assert(self.claims@[i].0 == self.claims@[i].0);
        assert(self.claims@[i].1 == self.claims@[i].1);
    }

    /// `claimed_id` and `claimed_by` are mutual inverses.
    pub proof fn lemma_inverse(&self, account: u64, id: EntityId)
        requires
            self.wf(),
        ensures
            self.claimed_id(account) == Some(id) <==> self.claimed_by(id) == Some(account),
    {
        if self.claimed_id(account) == Some(id) {
            let i = choose|i: int| 0 <= i < self.claims@.len() && self.claims@[i].0 == account;
            self.lemma_at(i);
        }
        if self.claimed_by(id) == Some(account) {
            let i = choose|i: int| 0 <= i < self.claims@.len() && self.claims@[i].1 == id;
            self.lemma_at(i);
        }
    }

    /// No claims.
    pub fn new() -> (r: Self)
        ensures
            r.wf(),
            forall|a: u64| r.claimed_id(a).is_none(),
            forall|e: EntityId| r.claimed_by(e).is_none(),
    {
        EntityRegistry { claims: Vec::new() }
    }

    /// Binds `account` to `id`. Fails if either is bound already.
    pub fn claim_id(&mut self, account: u64, id: EntityId) -> (r: Result<(), Error>)
        requires
            old(self).wf(),
        ensures
            final(self).wf(),
            r is Err <==> old(self).claimed_by(id).is_some() || old(self).claimed_id(account).is_some(),
            r is Err ==> r == Err::<(), Error>(Error::IdConflict) && *final(self) == *old(self),
            r is Ok ==> forall|a: u64|
                #[trigger] final(self).claimed_id(a) == if a == account {
                    Some(id)
                } else {
                    old(self).claimed_id(a)
                },
            r is Ok ==> forall|e: EntityId|
                #[trigger] final(self).claimed_by(e) == if e == id {
                    Some(account)
                } else {
                    old(self).claimed_by(e)
                },
    {
        let mut i: usize = 0;
        while i < self.claims.len()
            invariant
                self.wf(),
                i <= self.claims@.len(),
                forall|j: int|
                    0 <= j < i ==> self.claims@[j].0 != account && self.claims@[j].1 != id,
            decreases self.claims@.len() - i,
        {
            if self.claims[i].0 == account || self.claims[i].1 == id {
                proof {
                    self.lemma_at(i as int);
                }
                return Err(Error::IdConflict);
            }
            i = i + 1;
        }
        let ghost prev = *self;
        self.claims.push((account, id));
        let ghost n = prev.claims@.len() as int;
        assert(self.wf());
        proof {
            self.lemma_at(n);
            assert forall|a: u64| #[trigger] self.claimed_id(a) == if a == account {
                Some(id)
            } else {
                prev.claimed_id(a)
            } by {
                if a != account {
                    if exists|j: int| 0 <= j < prev.claims@.len() && prev.claims@[j].0 == a {
                        let j = choose|j: int| 0 <= j < prev.claims@.len() && prev.claims@[j].0 == a;
                        prev.lemma_at(j);
                        assert(self.claims@[j] == prev.claims@[j]);
                        self.lemma_at(j);
                    } else {
                        if exists|j: int| 0 <= j < self.claims@.len() && self.claims@[j].0 == a {
                            let j = choose|j: int| 0 <= j < self.claims@.len() && self.claims@[j].0 == a;
                            assert(prev.claims@[j].0 == a);
                        }
                    }
                }
            }
            assert forall|e: EntityId| #[trigger] self.claimed_by(e) == if e == id {
                Some(account)
            } else {
                prev.claimed_by(e)
            } by {
                if e != id {
                    if exists|j: int| 0 <= j < prev.claims@.len() && prev.claims@[j].1 == e {
                        let j = choose|j: int| 0 <= j < prev.claims@.len() && prev.claims@[j].1 == e;
                        prev.lemma_at(j);
                        assert(self.claims@[j] == prev.claims@[j]);
                        self.lemma_at(j);
                    } else {
                        if exists|j: int| 0 <= j < self.claims@.len() && self.claims@[j].1 == e {
                            let j = choose|j: int| 0 <= j < self.claims@.len() && self.claims@[j].1 == e;
                            assert(prev.claims@[j].1 == e);
                        }
                    }
                }
            }
        }
        Ok(())
    }

    /// The id that `account` has claimed.
    pub fn resolve_entity_id(&self, account: u64) -> (r: Result<EntityId, Error>)
        requires
            self.wf(),
        ensures
            match r {
                Ok(e) => self.claimed_id(account) == Some(e),
                Err(err) => self.claimed_id(account).is_none() && err == Error::InvalidOrigin,
            },
    {
        let mut i: usize = 0;
        while i < self.claims.len()
            invariant
                self.wf(),
                i <= self.claims@.len(),
                forall|j: int| 0 <= j < i ==> self.claims@[j].0 != account,
            decreases self.claims@.len() - i,
        {
            if self.claims[i].0 == account {
                proof {
                    self.lemma_at(i as int);
                }
                return Ok(self.claims[i].1);
            }
            i = i + 1;
        }
        Err(Error::InvalidOrigin)
    }

    /// The account that has claimed `id`.
    pub fn account_of(&self, id: &EntityId) -> (r: Option<u64>)
        requires
            self.wf(),
        ensures
            r == self.claimed_by(*id),
    {
        let mut i: usize = 0;
        while i < self.claims.len()
            invariant
                self.wf(),
                i <= self.claims@.len(),
                forall|j: int| 0 <= j < i ==> self.claims@[j].1 != *id,
            decreases self.claims@.len() - i,
        {
            if self.claims[i].1 == *id {
                proof {
                    self.lemma_at(i as int);
                }
                return Some(self.claims[i].0);
            }
            i = i + 1;
        }
        None
    }
}

} // verus!
