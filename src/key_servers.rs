//! One key-server set: key-server id => network address and index.
//!
//! The index of a key server is its bit in a `KeyServersMask`. An inserted key
//! server takes the smallest index that no other member holds, and keeps it
//! while it stays in the set.

use vstd::prelude::*;
use vstd::set_lib::{set_int_range, lemma_int_range, lemma_len_subset};
use crate::bytes::bytes_eq;
use crate::id::{H256, KeyServerId, id_lt};

verus! {

/// Largest number of members of a set: a request counts its responders in a
/// `u8`.
pub const MAX_KEY_SERVERS: usize = 255;

/// Network address and mask index of a key server.
pub struct KeyServer {
    pub address: Vec<u8>,
    pub index: u8,
}

/// A key-server set.
pub struct KeyServerList {
    entries: Vec<(KeyServerId, KeyServer)>,
}

impl KeyServerList {
    /// Ids and indices are unique and the set is not too large.
    pub closed spec fn wf(&self) -> bool {
        &&& self.entries@.len() <= MAX_KEY_SERVERS
        &&& forall|i: int, j: int|
            0 <= i < self.entries@.len() && 0 <= j < self.entries@.len() && i != j ==> {
                &&& self.entries@[i].0 != self.entries@[j].0
                &&& self.entries@[i].1.index != self.entries@[j].1.index
            }
    }

    /// Number of members.
    pub closed spec fn size(&self) -> nat {
        self.entries@.len()
    }

    /// Whether `id` is a member.
    pub closed spec fn contains(&self, id: KeyServerId) -> bool {
        exists|i: int| 0 <= i < self.entries@.len() && self.entries@[i].0 == id
    }

    /// Position of member `id` in the list.
    closed spec fn pos(&self, id: KeyServerId) -> int {
        choose|i: int| 0 <= i < self.entries@.len() && self.entries@[i].0 == id
    }

    /// Mask index of member `id`.
    pub closed spec fn index_of(&self, id: KeyServerId) -> u8 {
        self.entries@[self.pos(id)].1.index
    }

    /// Network address of member `id`.
    pub closed spec fn address_of(&self, id: KeyServerId) -> Seq<u8> {
        self.entries@[self.pos(id)].1.address@
    }

    /// Member => network address.
    pub open spec fn members(&self) -> Map<KeyServerId, Seq<u8>> {
        Map::new(|id: KeyServerId| self.contains(id), |id: KeyServerId| self.address_of(id))
    }

    /// The indices held by members.
    pub open spec fn indices(&self) -> Set<int> {
        Set::new(|k: int| exists|id: KeyServerId| self.contains(id) && self.index_of(id) == k)
    }

    /// Members in the order in which the set enumerates them.
    pub closed spec fn order(&self) -> Seq<KeyServerId> {
        self.entries@.map_values(|e: (KeyServerId, KeyServer)| e.0)
    }

    proof fn lemma_pos(&self, i: int)
        requires
            self.wf(),
            0 <= i < self.entries@.len(),
        ensures
            self.contains(self.entries@[i].0),
            self.pos(self.entries@[i].0) == i,
    {
        let id = self.entries@[i].0;
        assert(self.entries@[i].0 == id);
        let p = self.pos(id);
        assert(self.entries@[p].0 == id);
    }

    /// Members of a well-formed set are exactly its enumeration, with no
    /// repetition, and there are as many indices as members.
    pub proof fn lemma_order(&self)
        requires
            self.wf(),
        ensures
            self.order().len() == self.size(),
            self.size() <= MAX_KEY_SERVERS,
            self.order().no_duplicates(),
            forall|id: KeyServerId| self.contains(id) <==> self.order().contains(id),
            forall|id: KeyServerId| #[trigger] self.contains(id) ==> self.indices().contains(self.index_of(id) as int),
            forall|k: int| #[trigger] self.indices().contains(k) ==> 0 <= k < 256,
            self.indices().finite(),
            self.indices().len() == self.size(),
            self.members().dom() == self.order().to_set(),
    {
        let o = self.order();
        assert forall|id: KeyServerId| self.contains(id) <==> o.contains(id) by {
            if self.contains(id) {
                let p = self.pos(id);
                assert(o[p] == id);
            }
            if o.contains(id) {
                let j = choose|j: int| 0 <= j < o.len() && o[j] == id;
                assert(self.entries@[j].0 == id);
            }
        }
        let ix = self.entries@.map_values(|e: (KeyServerId, KeyServer)| e.1.index as int);
        assert forall|k: int| self.indices().contains(k) <==> ix.to_set().contains(k) by {
            if self.indices().contains(k) {
                let id = choose|id: KeyServerId| self.contains(id) && self.index_of(id) == k;
                assert(ix[self.pos(id)] == k);
            }
            if ix.to_set().contains(k) {
                let j = choose|j: int| 0 <= j < ix.len() && ix[j] == k;
                self.lemma_pos(j);
                assert(self.index_of(self.entries@[j].0) == k);
            }
        }
        assert(self.indices() =~= ix.to_set());
        assert forall|i: int, j: int| 0 <= i < ix.len() && 0 <= j < ix.len() && i != j implies ix[i]
            != ix[j] by {
            assert(self.entries@[i].1.index != self.entries@[j].1.index);
        }
        assert(ix.no_duplicates());
        ix.unique_seq_to_set();
        assert forall|id: KeyServerId| #[trigger] self.contains(id) implies self.indices().contains(
            self.index_of(id) as int,
        ) by {
            assert(ix[self.pos(id)] == self.index_of(id) as int);
        }
        assert forall|k: int| #[trigger] self.indices().contains(k) implies 0 <= k < 256 by {
            let j = choose|j: int| 0 <= j < ix.len() && ix[j] == k;
        }
        assert(self.members().dom() =~= o.to_set());
    }

    /// The empty set.
    pub fn new() -> (r: Self)
        ensures
            r.wf(),
            r.size() == 0,
            r.members() == Map::<KeyServerId, Seq<u8>>::empty(),
    {
        let r = KeyServerList { entries: Vec::new() };
        assert(r.members() =~= Map::<KeyServerId, Seq<u8>>::empty());
        r
    }

    /// Number of members.
    pub fn len(&self) -> (r: usize)
        ensures
            r == self.size(),
    {
        self.entries.len()
    }

    /// Position of member `id`, if it is a member.
    fn find(&self, id: &KeyServerId) -> (r: Option<usize>)
        requires
            self.wf(),
        ensures
            match r {
                Some(i) => i < self.entries@.len() && self.entries@[i as int].0 == *id
                    && self.contains(*id) && self.pos(*id) == i,
                None => !self.contains(*id),
            },
    {
        let mut i: usize = 0;
        while i < self.entries.len()
            invariant
                self.wf(),
                i <= self.entries@.len(),
                forall|j: int| 0 <= j < i ==> self.entries@[j].0 != *id,
            decreases self.entries@.len() - i,
        {
            if self.entries[i].0 == *id {
                proof {
                    self.lemma_pos(i as int);
                }
                return Some(i);
            }
            i = i + 1;
        }
        None
    }

    /// Whether `id` is a member.
    pub fn contains_id(&self, id: &KeyServerId) -> (r: bool)
        requires
            self.wf(),
        ensures
            r == self.contains(*id),
    {
        self.find(id).is_some()
    }

    /// Mask index of `id`, if it is a member.
    pub fn index_from_id(&self, id: &KeyServerId) -> (r: Option<u8>)
        requires
            self.wf(),
        ensures
            match r {
                Some(k) => self.contains(*id) && k == self.index_of(*id),
                None => !self.contains(*id),
            },
    {
        match self.find(id) {
            Some(i) => Some(self.entries[i].1.index),
            None => None,
        }
    }

    /// The members, in enumeration order.
    pub fn ids(&self) -> (r: Vec<KeyServerId>)
        requires
            self.wf(),
        ensures
            r@ == self.order(),
    {
        let mut r: Vec<KeyServerId> = Vec::new();
        let mut i: usize = 0;
        while i < self.entries.len()
            invariant
                i <= self.entries@.len(),
                r@ == self.order().subrange(0, i as int),
            decreases self.entries@.len() - i,
        {
            r.push(self.entries[i].0);
            i = i + 1;
            assert(r@ =~= self.order().subrange(0, i as int));
        }
        assert(r@ =~= self.order());
        r
    }

    /// The members with their addresses, in enumeration order.
    pub fn to_vec(&self) -> (r: Vec<(KeyServerId, Vec<u8>)>)
        requires
            self.wf(),
        ensures
            r@.len() == self.size(),
            forall|i: int|
                0 <= i < r@.len() ==> #[trigger] r@[i].0 == self.order()[i]
                    && self.members()[r@[i].0] == r@[i].1@,
    {
        let mut r: Vec<(KeyServerId, Vec<u8>)> = Vec::new();
        let mut i: usize = 0;
        while i < self.entries.len()
            invariant
                self.wf(),
                i <= self.entries@.len(),
                r@.len() == i,
                forall|j: int|
                    0 <= j < i ==> #[trigger] r@[j].0 == self.order()[j]
                        && self.members()[r@[j].0] == r@[j].1@,
            decreases self.entries@.len() - i,
        {
            let a = self.entries[i].1.address.clone();
            proof {
                self.lemma_pos(i as int);
            }
            r.push((self.entries[i].0, a));
            i = i + 1;
        }
        r
    }

    /// The smallest index that no member holds.
    fn free_index(&self) -> (r: u8)
        requires
            self.wf(),
            self.size() < MAX_KEY_SERVERS,
        ensures
            !self.indices().contains(r as int),
            forall|k: int| 0 <= k < r ==> self.indices().contains(k),
    {
        proof {
            self.lemma_order();
        }
        let mut c: u16 = 0;
        while c < 256
            invariant
                self.wf(),
                c <= 256,
                self.size() < MAX_KEY_SERVERS,
                forall|k: int| 0 <= k < c ==> self.indices().contains(k),
            decreases 256 - c,
        {
            let mut used = false;
            let mut i: usize = 0;
            while i < self.entries.len()
                invariant
                    self.wf(),
                    i <= self.entries@.len(),
                    c < 256,
                    used ==> self.indices().contains(c as int),
                    !used ==> forall|j: int| 0 <= j < i ==> self.entries@[j].1.index != c,
                decreases self.entries@.len() - i,
            {
                if self.entries[i].1.index as u16 == c {
                    proof {
                        self.lemma_pos(i as int);
                        assert(self.index_of(self.entries@[i as int].0) == c);
                    }
                    used = true;
                }
                i = i + 1;
            }
            if !used {
                assert(!self.indices().contains(c as int)) by {
                    if self.indices().contains(c as int) {
                        let id = choose|id: KeyServerId| self.contains(id) && self.index_of(id) == c;
                        assert(self.entries@[self.pos(id)].1.index == c);
                    }
                }
                return c as u8;
            }
            c = c + 1;
        }
        proof {
            lemma_int_range(0, 256);
            assert(set_int_range(0, 256).subset_of(self.indices()));
            lemma_len_subset(set_int_range(0, 256), self.indices());
            self.lemma_order();
        }
        0
    }

    /// Adds `id` with `address`; it takes the smallest index that no member
    /// holds.
    pub fn insert(&mut self, id: KeyServerId, address: Vec<u8>)
        requires
            old(self).wf(),
            !old(self).contains(id),
            old(self).size() < MAX_KEY_SERVERS,
        ensures
            final(self).wf(),
            final(self).size() == old(self).size() + 1,
            final(self).members() == old(self).members().insert(id, address@),
            final(self).order() == old(self).order().push(id),
            !old(self).indices().contains(final(self).index_of(id) as int),
            forall|k: int| 0 <= k < final(self).index_of(id) ==> old(self).indices().contains(k),
            forall|o: KeyServerId|
                #[trigger] old(self).contains(o) ==> final(self).index_of(o) == old(self).index_of(o),
    {
        let index = self.free_index();
        let ghost prev = *self;
        proof {
            prev.lemma_order();
        }
        self.entries.push((id, KeyServer { address, index }));
        let ghost n = prev.entries@.len() as int;
        assert forall|i: int, j: int|
            0 <= i < self.entries@.len() && 0 <= j < self.entries@.len() && i != j implies {
            &&& self.entries@[i].0 != self.entries@[j].0
            &&& self.entries@[i].1.index != self.entries@[j].1.index
        } by {
            if i < n && j < n {
            } else if i < n {
                assert(prev.contains(self.entries@[i].0) ==> self.entries@[i].0 != id);
                prev.lemma_pos(i);
                assert(prev.indices().contains(prev.entries@[i].1.index as int));
            } else if j < n {
                prev.lemma_pos(j);
                assert(prev.indices().contains(prev.entries@[j].1.index as int));
            }
        }
        assert(self.wf());
        proof {
            self.lemma_pos(n);
            assert forall|o: KeyServerId| #[trigger] prev.contains(o) implies self.contains(o)
                && self.pos(o) == prev.pos(o) by {
                let p = prev.pos(o);
                assert(self.entries@[p] == prev.entries@[p]);
                self.lemma_pos(p);
            }
            assert forall|o: KeyServerId| #[trigger] self.contains(o) implies prev.contains(o) || o
                == id by {
                let p = self.pos(o);
                if p < n {
                    assert(prev.entries@[p].0 == o);
                }
            }
        }
        assert(self.members() =~= prev.members().insert(id, self.entries@[n].1.address@));
        assert(self.order() =~= prev.order().push(id));
    }

    /// Sets the address of member `id`; indices do not change.
    pub fn update(&mut self, id: KeyServerId, address: Vec<u8>)
        requires
            old(self).wf(),
            old(self).contains(id),
        ensures
            final(self).wf(),
            final(self).size() == old(self).size(),
            final(self).members() == old(self).members().insert(id, address@),
            final(self).order() == old(self).order(),
            final(self).indices() == old(self).indices(),
            forall|o: KeyServerId|
                #[trigger] old(self).contains(o) ==> final(self).index_of(o) == old(self).index_of(o),
    {
        let ghost prev = *self;
        let i = self.find(&id).unwrap();
        let index = self.entries[i].1.index;
        self.entries.set(i, (id, KeyServer { address, index }));
        assert(self.wf());
        proof {
            assert forall|o: KeyServerId| #[trigger] prev.contains(o) implies self.contains(o)
                && self.pos(o) == prev.pos(o) by {
                let p = prev.pos(o);
                assert(self.entries@[p].0 == prev.entries@[p].0);
                self.lemma_pos(p);
            }
            assert forall|o: KeyServerId| #[trigger] self.contains(o) implies prev.contains(o) by {
                let p = self.pos(o);
                assert(prev.entries@[p].0 == o);
            }
        }
        assert(self.members() =~= prev.members().insert(id, self.entries@[i as int].1.address@));
        assert(self.order() =~= prev.order());
        assert(self.indices() =~= prev.indices());
    }

    /// Removes member `id`; the others keep their indices.
    pub fn remove(&mut self, id: KeyServerId)
        requires
            old(self).wf(),
            old(self).contains(id),
        ensures
            final(self).wf(),
            final(self).size() == old(self).size() - 1,
            final(self).members() == old(self).members().remove(id),
            forall|o: KeyServerId|
                #[trigger] old(self).contains(o) && o != id ==> final(self).index_of(o)
                    == old(self).index_of(o),
    {
        let ghost prev = *self;
        let i = self.find(&id).unwrap();
        self.entries.remove(i);
        assert forall|a: int, b: int|
            0 <= a < self.entries@.len() && 0 <= b < self.entries@.len() && a != b implies {
            &&& self.entries@[a].0 != self.entries@[b].0
            &&& self.entries@[a].1.index != self.entries@[b].1.index
        } by {
            let pa = if a < i { a } else { a + 1 };
            let pb = if b < i { b } else { b + 1 };
            assert(self.entries@[a] == prev.entries@[pa]);
            assert(self.entries@[b] == prev.entries@[pb]);
        }
        assert(self.wf());
        proof {
            assert forall|o: KeyServerId| #[trigger] prev.contains(o) && o != id implies self.contains(
                o,
            ) && self.entries@[self.pos(o)] == prev.entries@[prev.pos(o)] by {
                let p = prev.pos(o);
                let q = if p < i { p } else { p - 1 };
                assert(p != i);
                assert(self.entries@[q] == prev.entries@[p]);
                self.lemma_pos(q);
            }
            assert forall|o: KeyServerId| #[trigger] self.contains(o) implies prev.contains(o) && o
                != id by {
                let q = self.pos(o);
                let p = if q < i { q } else { q + 1 };
                assert(self.entries@[q] == prev.entries@[p]);
                prev.lemma_pos(p);
            }
        }
        assert(self.members() =~= prev.members().remove(id));
    }

    /// Whether both sets have the same members with the same addresses
    /// (indices are not compared).
    pub fn same_members(&self, other: &Self) -> (r: bool)
        requires
            self.wf(),
            other.wf(),
        ensures
            r == (self.members() == other.members()),
    {
        proof {
            self.lemma_order();
            other.lemma_order();
            self.order().unique_seq_to_set();
            other.order().unique_seq_to_set();
        }
        if self.entries.len() != other.entries.len() {
            assert(self.members().dom().len() != other.members().dom().len());
            return false;
        }
        let mut i: usize = 0;
        while i < self.entries.len()
            invariant
                self.wf(),
                other.wf(),
                i <= self.entries@.len(),
                forall|j: int|
                    0 <= j < i ==> #[trigger] other.contains(self.entries@[j].0)
                        && other.members()[self.entries@[j].0] == self.entries@[j].1.address@,
            decreases self.entries@.len() - i,
        {
            proof {
                self.lemma_pos(i as int);
            }
            match other.find(&self.entries[i].0) {
                None => {
                    assert(!other.members().dom().contains(self.entries@[i as int].0));
                    return false;
                },
                Some(k) => {
                    if !bytes_eq(&self.entries[i].1.address, &other.entries[k].1.address) {
                        assert(other.members()[self.entries@[i as int].0] != self.members()[self.entries@[i as int].0]);
                        return false;
                    }
                },
            }
            i = i + 1;
        }
        proof {
            assert forall|o: KeyServerId| #[trigger] self.contains(o) implies other.contains(o)
                && other.members()[o] == self.members()[o] by {
                let p = self.pos(o);
                assert(self.entries@[p].0 == o);
            }
            assert(self.members().dom().subset_of(other.members().dom()));
            vstd::set_lib::lemma_subset_equality(self.members().dom(), other.members().dom());
            assert(self.members() =~= other.members());
        }
        true
    }

    /// A copy of the set: same members, addresses, indices and order.
    pub fn duplicate(&self) -> (r: Self)
        requires
            self.wf(),
        ensures
            r.wf(),
            r.size() == self.size(),
            r.members() == self.members(),
            r.order() == self.order(),
            r.indices() == self.indices(),
            forall|o: KeyServerId| #[trigger] self.contains(o) ==> r.index_of(o) == self.index_of(o),
    {
        let mut entries: Vec<(KeyServerId, KeyServer)> = Vec::new();
        let mut i: usize = 0;
        while i < self.entries.len()
            invariant
                i <= self.entries@.len(),
                entries@.len() == i,
                forall|j: int|
                    0 <= j < i ==> #[trigger] entries@[j].0 == self.entries@[j].0
                        && entries@[j].1.index == self.entries@[j].1.index
                        && entries@[j].1.address@ == self.entries@[j].1.address@,
            decreases self.entries@.len() - i,
        {
            let address = self.entries[i].1.address.clone();
            entries.push((self.entries[i].0, KeyServer { address, index: self.entries[i].1.index }));
            i = i + 1;
        }
        let r = KeyServerList { entries };
        assert forall|o: KeyServerId| #[trigger] self.contains(o) <==> r.contains(o) by {
            if self.contains(o) {
                assert(r.entries@[self.pos(o)].0 == o);
            }
            if r.contains(o) {
                assert(self.entries@[r.pos(o)].0 == o);
            }
        }
        assert(r.wf());
        assert forall|o: KeyServerId| #[trigger] self.contains(o) implies r.pos(o) == self.pos(o) by {
            self.lemma_pos(self.pos(o));
            r.lemma_pos(self.pos(o));
        }
        assert(r.members() =~= self.members());
        assert(r.order() =~= self.order());
        assert forall|k: int| r.indices().contains(k) <==> self.indices().contains(k) by {
            if r.indices().contains(k) {
                let o = choose|o: KeyServerId| r.contains(o) && r.index_of(o) == k;
                assert(self.contains(o) && self.index_of(o) == k);
            }
            if self.indices().contains(k) {
                let o = choose|o: KeyServerId| self.contains(o) && self.index_of(o) == k;
                assert(r.contains(o) && r.index_of(o) == k);
            }
        }
        assert(r.indices() =~= self.indices());
        r
    }

    /// The lexicographically smallest member that `other` holds too, if any.
    pub fn min_common(&self, other: &Self) -> (r: Option<KeyServerId>)
        requires
            self.wf(),
            other.wf(),
        ensures
            match r {
                Some(m) => self.contains(m) && other.contains(m) && forall|o: KeyServerId|
                    #[trigger] self.contains(o) && other.contains(o) ==> o == m || id_lt(m, o),
                None => forall|o: KeyServerId| #[trigger] self.contains(o) ==> !other.contains(o),
            },
    {
        let mut best: Option<KeyServerId> = None;
        let mut i: usize = 0;
        while i < self.entries.len()
            invariant
                self.wf(),
                other.wf(),
                i <= self.entries@.len(),
                match best {
                    Some(m) => self.contains(m) && other.contains(m) && forall|j: int|
                        0 <= j < i && other.contains(#[trigger] self.entries@[j].0) ==> self.entries@[j].0
                            == m || id_lt(m, self.entries@[j].0),
                    None => forall|j: int|
                        0 <= j < i ==> !other.contains(#[trigger] self.entries@[j].0),
                },
            decreases self.entries@.len() - i,
        {
            let id = self.entries[i].0;
            proof {
                self.lemma_pos(i as int);
            }
            if other.contains_id(&id) {
                match best {
                    None => {
                        best = Some(id);
                    },
                    Some(m) => {
                        if id.lt(&m) {
                            best = Some(id);
                        }
                    },
                }
            }
            i = i + 1;
        }
        assert forall|o: KeyServerId| #[trigger] self.contains(o) implies self.entries@[self.pos(
            o,
        )].0 == o by {}
        best
    }
}

} // verus!
