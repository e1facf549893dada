//! Bounded queue of outstanding requests of one service kind.

use vstd::prelude::*;
use crate::id::{EntityId, ServerKeyId};
use crate::key_servers::KeyServerList;
use crate::service::{Responses, ResponsesSupport};

verus! {

/// One outstanding request: its author, the kind's own data, and the tally of
/// key-server responses.
pub struct Request<P> {
    pub author: EntityId,
    pub payload: P,
    pub responses: Responses,
    pub support: ResponsesSupport,
}

/// The tally of a request is consistent, and while it belongs to the current
/// set-change block its responders are members of the current set.
pub open spec fn request_ok<P>(rq: Request<P>, change_block: u64, current: KeyServerList) -> bool {
    &&& rq.responses.wf()
    &&& rq.support.wf()
    &&& rq.support.bounded_by(rq.responses.responded_key_servers_count as nat)
    &&& rq.responses.key_servers_change_block <= change_block
    &&& rq.responses.key_servers_change_block == change_block
        ==> rq.responses.responded_key_servers_mask@.subset_of(current.indices())
}

/// The key list after removing `key` the way the queue removes: the last key
/// takes its place.
pub open spec fn swap_removed(keys: Seq<ServerKeyId>, key: ServerKeyId) -> Seq<ServerKeyId> {
    if keys.contains(key) {
        keys.update(keys.index_of(key), keys.last()).drop_last()
    } else {
        keys
    }
}

/// Outstanding requests in queue order, each key at most once, at most `cap`
/// of them.
pub struct RequestQueue<P> {
    entries: Vec<(ServerKeyId, Request<P>)>,
    cap: usize,
}

impl<P> RequestQueue<P> {
    /// Keys are unique and the queue holds at most `cap` requests.
    pub closed spec fn wf(&self) -> bool {
        &&& self.entries@.len() <= self.cap
        &&& forall|i: int, j: int|
            0 <= i < self.entries@.len() && 0 <= j < self.entries@.len() && i != j
                ==> self.entries@[i].0 != self.entries@[j].0
    }

    /// Largest number of outstanding requests.
    pub closed spec fn capacity(&self) -> nat {
        self.cap as nat
    }

    /// Number of outstanding requests.
    pub closed spec fn size(&self) -> nat {
        self.entries@.len()
    }

    /// Keys of the outstanding requests, in queue order.
    pub closed spec fn keys(&self) -> Seq<ServerKeyId> {
        self.entries@.map_values(|e: (ServerKeyId, Request<P>)| e.0)
    }

    /// Request key => request.
    pub closed spec fn requests(&self) -> Map<ServerKeyId, Request<P>> {
        Map::new(
            |k: ServerKeyId| exists|i: int| 0 <= i < self.entries@.len() && self.entries@[i].0 == k,
            |k: ServerKeyId|
                self.entries@[choose|i: int| 0 <= i < self.entries@.len() && self.entries@[i].0 == k].1,
        )
    }

    /// Every request is consistent with the current set.
    pub closed spec fn all_ok(&self, change_block: u64, current: KeyServerList) -> bool {
        forall|i: int| 0 <= i < self.entries@.len() ==> request_ok(#[trigger] self.entries@[i].1, change_block, current)
    }

    proof fn lemma_at(&self, i: int)
        requires
            self.wf(),
            0 <= i < self.entries@.len(),
        ensures
            self.requests().contains_key(self.entries@[i].0),
            self.requests()[self.entries@[i].0] == self.entries@[i].1,
    {
        let k = self.entries@[i].0;
        assert(self.entries@[i].0 == k);
        let j = choose|j: int| 0 <= j < self.entries@.len() && self.entries@[j].0 == k;
        assert(j == i);
    }

    /// `all_ok` speaks of every request of the map.
    pub proof fn lemma_all_ok(&self, change_block: u64, current: KeyServerList)
        requires
            self.wf(),
        ensures
            self.all_ok(change_block, current) <==> forall|k: ServerKeyId|
                #[trigger] self.requests().contains_key(k) ==> request_ok(
                    self.requests()[k],
                    change_block,
                    current,
                ),
            self.requests().dom().finite(),
            self.requests().dom().len() == self.size(),
    {
        if self.all_ok(change_block, current) {
            assert forall|k: ServerKeyId| #[trigger] self.requests().contains_key(k) implies request_ok(
                self.requests()[k],
                change_block,
                current,
            ) by {
                let i = choose|i: int| 0 <= i < self.entries@.len() && self.entries@[i].0 == k;
                self.lemma_at(i);
            }
        }
        if forall|k: ServerKeyId| #[trigger] self.requests().contains_key(k) ==> request_ok(
            self.requests()[k],
            change_block,
            current,
        ) {
            assert forall|i: int| 0 <= i < self.entries@.len() implies request_ok(
                #[trigger] self.entries@[i].1,
                change_block,
                current,
            ) by {
                self.lemma_at(i);
            }
        }
        self.lemma_dom();
    }

    proof fn lemma_dom(&self)
        requires
            self.wf(),
        ensures
            self.requests().dom().finite(),
            self.requests().dom().len() == self.size(),
    {
        let keys = self.entries@.map_values(|e: (ServerKeyId, Request<P>)| e.0);
        assert(self.requests().dom() =~= keys.to_set()) by {
            assert forall|k: ServerKeyId| self.requests().dom().contains(k) implies keys.to_set().contains(k) by {
                let i = choose|i: int| 0 <= i < self.entries@.len() && self.entries@[i].0 == k;
                assert(keys[i] == k);
            }
            assert forall|k: ServerKeyId| keys.to_set().contains(k) implies self.requests().dom().contains(k) by {
                let i = choose|i: int| 0 <= i < keys.len() && keys[i] == k;
                assert(self.entries@[i].0 == k);
            }
        }
        assert(keys.no_duplicates());
        keys.unique_seq_to_set();
    }

    /// The key list has one entry per queued request and no repetition.
    pub proof fn lemma_keys(&self)
        requires
            self.wf(),
        ensures
            self.keys().len() == self.size(),
            self.keys().no_duplicates(),
            forall|k: ServerKeyId| #[trigger] self.keys().contains(k) <==> self.requests().contains_key(k),
            self.requests().dom().finite(),
            self.requests().dom().len() == self.size(),
            self.size() <= self.capacity(),
    {
        let keys = self.keys();
        assert forall|k: ServerKeyId| #[trigger] keys.contains(k) <==> self.requests().contains_key(k) by {
            if keys.contains(k) {
                let i = choose|i: int| 0 <= i < keys.len() && keys[i] == k;
                assert(self.entries@[i].0 == k);
            }
            if self.requests().contains_key(k) {
                let i = choose|i: int| 0 <= i < self.entries@.len() && self.entries@[i].0 == k;
                assert(keys[i] == k);
            }
        }
        self.lemma_dom();
    }

    /// A well-formed queue holds at most its capacity.
    pub proof fn lemma_size_bound(&self)
        requires
            self.wf(),
        ensures
            self.size() <= self.capacity(),
    {
    }

    /// Once the set-change block moves past every stamp, no request is tied
    /// to a set any more.
    pub proof fn lemma_bump(&self, b: u64, c: KeyServerList, b2: u64, c2: KeyServerList)
        requires
            self.all_ok(b, c),
            b < b2,
        ensures
            self.all_ok(b2, c2),
    {
    }

    /// An empty queue that holds at most `cap` requests.
    pub fn new(cap: usize) -> (r: Self)
        ensures
            r.wf(),
            r.capacity() == cap,
            r.size() == 0,
            r.requests() == Map::<ServerKeyId, Request<P>>::empty(),
            r.keys() == Seq::<ServerKeyId>::empty(),
            forall|b: u64, c: KeyServerList| #[trigger] r.all_ok(b, c),
    {
        let r = RequestQueue { entries: Vec::new(), cap };
        assert(r.requests() =~= Map::<ServerKeyId, Request<P>>::empty());
        r
    }

    /// Number of outstanding requests.
    pub fn len(&self) -> (r: usize)
        ensures
            r == self.size(),
    {
        self.entries.len()
    }

    /// Whether the queue holds `cap` requests.
    pub fn is_full(&self) -> (r: bool)
        ensures
            r == (self.size() >= self.capacity()),
    {
        self.entries.len() >= self.cap
    }

    /// Position of the request with key `key`.
    fn find(&self, key: &ServerKeyId) -> (r: Option<usize>)
        requires
            self.wf(),
        ensures
            match r {
                Some(i) => i < self.entries@.len() && self.entries@[i as int].0 == *key
                    && self.requests().contains_key(*key),
                None => !self.requests().contains_key(*key),
            },
    {
        let mut i: usize = 0;
        while i < self.entries.len()
            invariant
                self.wf(),
                i <= self.entries@.len(),
                forall|j: int| 0 <= j < i ==> self.entries@[j].0 != *key,
            decreases self.entries@.len() - i,
        {
            if self.entries[i].0 == *key {
                proof {
                    self.lemma_at(i as int);
                }
                return Some(i);
            }
            i = i + 1;
        }
        None
    }

    /// Whether a request with key `key` is queued.
    pub fn contains(&self, key: &ServerKeyId) -> (r: bool)
        requires
            self.wf(),
        ensures
            r == self.requests().contains_key(*key),
    {
        self.find(key).is_some()
    }

    /// The request with key `key`, if queued.
    pub fn get(&self, key: &ServerKeyId) -> (r: Option<&Request<P>>)
        requires
            self.wf(),
        ensures
            match r {
                Some(rq) => self.requests().contains_key(*key) && *rq == self.requests()[*key],
                None => !self.requests().contains_key(*key),
            },
    {
        match self.find(key) {
            Some(i) => {
                proof {
                    self.lemma_at(i as int);
                }
                Some(&self.entries[i].1)
            },
            None => None,
        }
    }

    /// Appends a request.
    pub fn push(&mut self, key: ServerKeyId, request: Request<P>)
        requires
            old(self).wf(),
            !old(self).requests().contains_key(key),
            old(self).size() < old(self).capacity(),
        ensures
            final(self).keys() == old(self).keys().push(key),
            final(self).wf(),
            final(self).capacity() == old(self).capacity(),
            final(self).size() == old(self).size() + 1,
            final(self).requests() == old(self).requests().insert(key, request),
            forall|b: u64, c: KeyServerList|
                old(self).all_ok(b, c) && request_ok(request, b, c) ==> #[trigger] final(self).all_ok(b, c),
    {
        let ghost prev = *self;
        let ghost rq = request;
        self.entries.push((key, request));
        assert(self.keys() =~= prev.keys().push(key));
        let ghost n = prev.entries@.len() as int;
        assert forall|i: int| 0 <= i < n implies self.entries@[i] == prev.entries@[i] by {}
        assert(!(exists|i: int| 0 <= i < prev.entries@.len() && prev.entries@[i].0 == key));
        assert(self.wf());
        proof {
            self.lemma_at(n);
            assert forall|k: ServerKeyId| #[trigger] prev.requests().contains_key(k) implies
                self.requests().contains_key(k) && self.requests()[k] == prev.requests()[k] by {
                let i = choose|i: int| 0 <= i < prev.entries@.len() && prev.entries@[i].0 == k;
                prev.lemma_at(i);
                self.lemma_at(i);
            }
            assert forall|k: ServerKeyId| #[trigger] self.requests().contains_key(k) implies
                prev.requests().contains_key(k) || k == key by {
                let i = choose|i: int| 0 <= i < self.entries@.len() && self.entries@[i].0 == k;
                if i < n {
                    assert(prev.entries@[i].0 == k);
                }
            }
        }
        assert(self.requests() =~= prev.requests().insert(key, rq));
    }

    /// Removes the request with key `key`; the last request takes its place.
    pub fn remove(&mut self, key: &ServerKeyId)
        requires
            old(self).wf(),
        ensures
            final(self).wf(),
            final(self).capacity() == old(self).capacity(),
            final(self).requests() == old(self).requests().remove(*key),
            final(self).keys() == swap_removed(old(self).keys(), *key),
            forall|b: u64, c: KeyServerList| old(self).all_ok(b, c) ==> #[trigger] final(self).all_ok(b, c),
    {
        let ghost prev = *self;
        proof {
            prev.lemma_keys();
        }
        match self.find(key) {
            None => {
                assert(self.requests() =~= prev.requests().remove(*key));
                assert(!prev.keys().contains(*key));
            },
            Some(i) => {
                let ghost n = prev.entries@.len() as int;
                let _ = self.entries.swap_remove(i);
                proof {
                    let ks = prev.keys();
                    assert(ks[i as int] == *key);
                    assert(ks.contains(*key));
                    assert(ks.index_of(*key) == i);
                    assert(self.keys() =~= ks.update(i as int, ks.last()).drop_last());
                }
                let ghost src = |j: int| if j == i && i < n - 1 { n - 1 } else { j };
                assert forall|j: int| 0 <= j < self.entries@.len() implies self.entries@[j]
                    == prev.entries@[src(j)] && src(j) != i && 0 <= src(j) < n by {}
                assert(self.wf()) by {
                    assert forall|a: int, b: int|
                        0 <= a < self.entries@.len() && 0 <= b < self.entries@.len() && a != b implies
                        self.entries@[a].0 != self.entries@[b].0 by {
                        assert(self.entries@[a] == prev.entries@[src(a)]);
                        assert(self.entries@[b] == prev.entries@[src(b)]);
                    }
                }
                proof {
                    assert forall|k: ServerKeyId| #[trigger] self.requests().contains_key(k) implies
                        prev.requests().contains_key(k) && k != *key && self.requests()[k]
                        == prev.requests()[k] by {
                        let j = choose|j: int| 0 <= j < self.entries@.len() && self.entries@[j].0 == k;
                        self.lemma_at(j);
                        prev.lemma_at(src(j));
                    }
                    assert forall|k: ServerKeyId| #[trigger] prev.requests().contains_key(k) && k != *key
                        implies self.requests().contains_key(k) by {
                        let p = choose|p: int| 0 <= p < prev.entries@.len() && prev.entries@[p].0 == k;
                        assert(p != i);
                        let j = if p == n - 1 { i as int } else { p };
                        assert(self.entries@[j].0 == k);
                    }
                }
                assert(self.requests() =~= prev.requests().remove(*key));
            },
        }
    }

    /// Takes the request with key `key` out of the queue, with its position,
    /// so that it can be put back at the same place.
    pub fn take(&mut self, key: &ServerKeyId) -> (r: Option<(usize, Request<P>)>)
        requires
            old(self).wf(),
        ensures
            final(self).wf(),
            final(self).capacity() == old(self).capacity(),
            final(self).requests() == old(self).requests().remove(*key),
            final(self).size() + (if r is Some { 1int } else { 0 }) == old(self).size(),
            r is Some ==> final(self).size() < final(self).capacity(),
            match r {
                Some((pos, rq)) => old(self).requests().contains_key(*key) && rq == old(self).requests()[*key]
                    && pos <= final(self).size() && pos < old(self).keys().len() && old(self).keys()[pos as int] == *key
                    && final(self).keys() == old(self).keys().remove(pos as int),
                None => !old(self).requests().contains_key(*key),
            },
            forall|b: u64, c: KeyServerList| old(self).all_ok(b, c) ==> #[trigger] final(self).all_ok(b, c),
    {
        let ghost prev = *self;
        match self.find(key) {
            None => {
                assert(self.requests() =~= prev.requests().remove(*key));
                None
            },
            Some(i) => {
                proof {
                    prev.lemma_at(i as int);
                }
                let (k, rq) = self.entries.remove(i);
                assert(self.keys() =~= prev.keys().remove(i as int));
                let ghost src = |j: int| if j < i { j } else { j + 1 };
                assert forall|j: int| 0 <= j < self.entries@.len() implies self.entries@[j]
                    == prev.entries@[src(j)] by {}
                assert(self.wf()) by {
                    assert forall|a: int, b: int|
                        0 <= a < self.entries@.len() && 0 <= b < self.entries@.len() && a != b implies
                        self.entries@[a].0 != self.entries@[b].0 by {
                        assert(self.entries@[a] == prev.entries@[src(a)]);
                        assert(self.entries@[b] == prev.entries@[src(b)]);
                    }
                }
                proof {
                    assert forall|k: ServerKeyId| #[trigger] self.requests().contains_key(k) implies
                        prev.requests().contains_key(k) && k != *key && self.requests()[k]
                        == prev.requests()[k] by {
                        let j = choose|j: int| 0 <= j < self.entries@.len() && self.entries@[j].0 == k;
                        self.lemma_at(j);
                        prev.lemma_at(src(j));
                    }
                    assert forall|k: ServerKeyId| #[trigger] prev.requests().contains_key(k) && k != *key
                        implies self.requests().contains_key(k) by {
                        let p = choose|p: int| 0 <= p < prev.entries@.len() && prev.entries@[p].0 == k;
                        assert(p != i);
                        let j = if p < i { p } else { p - 1 };
                        assert(self.entries@[j].0 == k);
                    }
                }
                assert(self.requests() =~= prev.requests().remove(*key));
                Some((i, rq))
            },
        }
    }

    /// Puts a request back at position `pos`.
    pub fn put_back(&mut self, pos: usize, key: ServerKeyId, request: Request<P>)
        requires
            old(self).wf(),
            !old(self).requests().contains_key(key),
            old(self).size() < old(self).capacity(),
            pos <= old(self).size(),
        ensures
            final(self).wf(),
            final(self).capacity() == old(self).capacity(),
            final(self).size() == old(self).size() + 1,
            final(self).requests() == old(self).requests().insert(key, request),
            final(self).keys() == old(self).keys().insert(pos as int, key),
            forall|b: u64, c: KeyServerList|
                old(self).all_ok(b, c) && request_ok(request, b, c) ==> #[trigger] final(self).all_ok(b, c),
    {
        let ghost prev = *self;
        let ghost rq = request;
        self.entries.insert(pos, (key, request));
        assert(self.keys() =~= prev.keys().insert(pos as int, key));
        let ghost src = |j: int| if j < pos { j } else { j - 1 };
        assert forall|j: int| 0 <= j < self.entries@.len() && j != pos implies self.entries@[j]
            == prev.entries@[src(j)] by {}
        assert(!(exists|i: int| 0 <= i < prev.entries@.len() && prev.entries@[i].0 == key));
        assert(self.wf()) by {
            assert forall|a: int, b: int|
                0 <= a < self.entries@.len() && 0 <= b < self.entries@.len() && a != b implies
                self.entries@[a].0 != self.entries@[b].0 by {
                if a != pos {
                    assert(prev.entries@[src(a)].0 != key);
                }
                if b != pos {
                    assert(prev.entries@[src(b)].0 != key);
                }
            }
        }
        proof {
            self.lemma_at(pos as int);
            assert forall|k: ServerKeyId| #[trigger] prev.requests().contains_key(k) implies
                self.requests().contains_key(k) && self.requests()[k] == prev.requests()[k] by {
                let i = choose|i: int| 0 <= i < prev.entries@.len() && prev.entries@[i].0 == k;
                prev.lemma_at(i);
                let j = if i < pos { i } else { i + 1 };
                assert(self.entries@[j] == prev.entries@[i]);
                self.lemma_at(j);
            }
            assert forall|k: ServerKeyId| #[trigger] self.requests().contains_key(k) implies
                prev.requests().contains_key(k) || k == key by {
                let i = choose|i: int| 0 <= i < self.entries@.len() && self.entries@[i].0 == k;
                if i != pos {
                    assert(prev.entries@[src(i)].0 == k);
                }
            }
        }
        assert(self.requests() =~= prev.requests().insert(key, rq));
    }
}

} // verus!
