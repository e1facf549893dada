//! Changes-trie build cache.
//!
//! Keeps the changed keys of every changes trie that a future digest block may
//! reference, so that building the digest does not read them back from the
//! database. Entries that a digest block covers are pruned once that digest
//! block is inserted. Block numbers and trie roots are both `u64` here.

use std::collections::HashMap;
use vstd::prelude::*;
use crate::bytes::{key_set, distinct_keys, position_of};

verus! {

broadcast use vstd::std_specs::hash::group_hash_axioms;

/// Changes trie build cache.
pub struct BuildCache {
    /// Block number => changes trie root.
    roots_by_number: HashMap<u64, u64>,
    /// Changes trie root => keys changed in that trie.
    changed_keys: HashMap<u64, Vec<Vec<u8>>>,
}

/// The data that has been cached during changes trie building.
pub struct CachedBuildData {
    pub trie_root: u64,
    pub digest_input_blocks: Vec<u64>,
    pub changed_keys: Vec<Vec<u8>>,
}

/// The data (without changes trie root) that has been cached during changes
/// trie building.
/// No changed key is held twice.
pub struct IncompleteCachedBuildData {
    digest_input_blocks: Vec<u64>,
    changed_keys: Vec<Vec<u8>>,
}

/// The effect of pruning the entries of the given digest input blocks, in order:
/// a block that has a recorded root loses it, and that root loses its keys.
pub open spec fn prune(
    roots: Map<u64, u64>,
    changed: Map<u64, Set<Seq<u8>>>,
    blocks: Seq<u64>,
) -> (Map<u64, u64>, Map<u64, Set<Seq<u8>>>)
    decreases blocks.len(),
{
    if blocks.len() == 0 {
        (roots, changed)
    } else {
        let b = blocks[0];
        if roots.contains_key(b) {
            prune(roots.remove(b), changed.remove(roots[b]), blocks.drop_first())
        } else {
            prune(roots, changed, blocks.drop_first())
        }
    }
}

impl BuildCache {
    /// Block number => changes trie root.
    pub closed spec fn roots(&self) -> Map<u64, u64> {
        self.roots_by_number@
    }

    /// Changes trie root => set of changed keys.
    pub closed spec fn changed(&self) -> Map<u64, Set<Seq<u8>>> {
        self.changed_keys@.map_values(|v: Vec<Vec<u8>>| key_set(v@))
    }

    /// Create new changes trie build cache.
    pub fn new() -> (r: Self)
        ensures
            r.roots() == Map::<u64, u64>::empty(),
            r.changed() == Map::<u64, Set<Seq<u8>>>::empty(),
    {
        let r = BuildCache { roots_by_number: HashMap::new(), changed_keys: HashMap::new() };
        assert(r.changed() =~= Map::<u64, Set<Seq<u8>>>::empty());
        r
    }

    /// Get cached changed keys for changes trie with given root.
    pub fn get(&self, root: &u64) -> (r: Option<&Vec<Vec<u8>>>)
        ensures
            match r {
                Some(keys) => self.changed().contains_key(*root)
                    && key_set(keys@) == self.changed()[*root],
                None => !self.changed().contains_key(*root),
            },
    {
        self.changed_keys.get(root)
    }

    /// Insert data into cache.
    pub fn insert(&mut self, data: CachedBuildData)
        ensures
            (final(self).roots(), final(self).changed()) == prune(
                old(self).roots(),
                old(self).changed().insert(data.trie_root, key_set(data.changed_keys@)),
                data.digest_input_blocks@,
            ),
    {
        let ghost changed0 = old(self).changed().insert(data.trie_root, key_set(data.changed_keys@));
        self.changed_keys.insert(data.trie_root, data.changed_keys);
        assert(self.changed() =~= changed0);
        let blocks = data.digest_input_blocks;
        let mut i: usize = 0;
        assert(blocks@.subrange(0, blocks@.len() as int) =~= blocks@);
        while i < blocks.len()
            invariant
                i <= blocks@.len(),
                prune(self.roots(), self.changed(), blocks@.subrange(i as int, blocks@.len() as int))
                    == prune(old(self).roots(), changed0, blocks@),
            decreases blocks@.len() - i,
        {
            let ghost rest = blocks@.subrange(i as int, blocks@.len() as int);
            assert(rest.drop_first() =~= blocks@.subrange(i + 1, blocks@.len() as int));
            let block = blocks[i];
            assert(rest[0] == block);
            let ghost roots_before = self.roots();
            let ghost changed_before = self.changed();
            let removed = self.roots_by_number.remove(&block);
            if let Some(hash) = removed {
                assert(roots_before.contains_key(block) && roots_before[block] == hash);
                let ghost before = self.changed();
                self.changed_keys.remove(&hash);
                assert(self.changed() =~= before.remove(hash));
            } else {
                assert(!roots_before.contains_key(block));
                assert(self.roots() =~= roots_before);
            }
            assert(prune(roots_before, changed_before, rest) == prune(
                self.roots(),
                self.changed(),
                rest.drop_first(),
            ));
            i = i + 1;
        }
        assert(blocks@.subrange(blocks@.len() as int, blocks@.len() as int) =~= Seq::<u64>::empty());
    }
}

impl IncompleteCachedBuildData {
    #[verifier::type_invariant]
    spec fn inv(self) -> bool {
        distinct_keys(self.changed_keys@)
    }

    /// Numbers of the blocks that this entry supersedes.
    pub closed spec fn digest_input_blocks_spec(&self) -> Seq<u64> {
        self.digest_input_blocks@
    }

    /// The changed keys, each once.
    pub closed spec fn changed_keys_spec(&self) -> Seq<Vec<u8>> {
        self.changed_keys@
    }

    /// The changed keys, each once.
    pub fn changed_keys(&self) -> (r: &Vec<Vec<u8>>)
        ensures
            r@ == self.changed_keys_spec(),
            distinct_keys(r@),
    {
        proof {
            use_type_invariant(self);
        }
        &self.changed_keys
    }

    /// Numbers of the blocks that this entry supersedes.
    pub fn digest_input_blocks(&self) -> (r: &Vec<u64>)
        ensures
            r@ == self.digest_input_blocks_spec(),
    {
        &self.digest_input_blocks
    }

    /// Create new cached data.
    pub fn new() -> (r: Self)
        ensures
            r.digest_input_blocks_spec() == Seq::<u64>::empty(),
            r.changed_keys_spec() == Seq::<Vec<u8>>::empty(),
    {
        IncompleteCachedBuildData { digest_input_blocks: Vec::new(), changed_keys: Vec::new() }
    }

    /// Complete cached data with computed changes trie root.
    pub fn complete(self, trie_root: u64) -> (r: CachedBuildData)
        ensures
            r.trie_root == trie_root,
            r.digest_input_blocks@ == self.digest_input_blocks_spec(),
            r.changed_keys@ == self.changed_keys_spec(),
            distinct_keys(r.changed_keys@),
    {
        proof {
            use_type_invariant(&self);
        }
        CachedBuildData {
            trie_root,
            digest_input_blocks: self.digest_input_blocks,
            changed_keys: self.changed_keys,
        }
    }

    /// Called for digest entries only. Set numbers of blocks that are
    /// superseded by this new entry.
    pub fn set_digest_input_blocks(&mut self, digest_input_blocks: Vec<u64>)
        ensures
            final(self).digest_input_blocks_spec() == digest_input_blocks@,
            final(self).changed_keys_spec() == old(self).changed_keys_spec(),
    {
        proof {
            use_type_invariant(&*self);
        }
        self.digest_input_blocks = digest_input_blocks;
    }

    /// Insert changed keys into cached data. A key that is already there is
    /// not added twice.
    pub fn insert(&mut self, changed_keys: Vec<Vec<u8>>)
        ensures
            key_set(final(self).changed_keys_spec()) == key_set(old(self).changed_keys_spec()).union(
                key_set(changed_keys@),
            ),
            final(self).digest_input_blocks_spec() == old(self).digest_input_blocks_spec(),
    {
        proof {
            use_type_invariant(&*self);
        }
        let ghost old_keys = self.changed_keys@;
        let mut keys: Vec<Vec<u8>> = Vec::new();
        std::mem::swap(&mut keys, &mut self.changed_keys);
        let mut i: usize = 0;
        while i < changed_keys.len()
            invariant
                i <= changed_keys@.len(),
                distinct_keys(keys@),
                key_set(keys@) == key_set(old_keys).union(
                    key_set(changed_keys@.subrange(0, i as int)),
                ),
            decreases changed_keys@.len() - i,
        {
            let key = changed_keys[i].clone();
            let ghost prev = keys@;
            assert(changed_keys@.subrange(0, i + 1) =~= changed_keys@.subrange(0, i as int).push(
                changed_keys@[i as int],
            ));
            assert(key_set(changed_keys@.subrange(0, i + 1)) =~= key_set(
                changed_keys@.subrange(0, i as int),
            ).insert(key@)) by {
                let s = changed_keys@.subrange(0, i as int);
                assert(s.push(changed_keys@[i as int]).map_values(|k: Vec<u8>| k@) =~= s.map_values(
                    |k: Vec<u8>| k@,
                ).push(key@));
                s.map_values(|k: Vec<u8>| k@).lemma_push_to_set_commute(key@);
            }
            match position_of(&keys, &key) {
                Some(j) => {
                    assert(key_set(prev).contains(key@)) by {
                        assert(prev.map_values(|k: Vec<u8>| k@)[j as int] == key@);
                    }
                },
                None => {
                    keys.push(key);
                    assert(keys@.map_values(|k: Vec<u8>| k@) =~= prev.map_values(
                        |k: Vec<u8>| k@,
                    ).push(key@));
                    proof {
                        prev.map_values(|k: Vec<u8>| k@).lemma_push_to_set_commute(key@);
                    }
                },
            }
            i = i + 1;
        }
        assert(changed_keys@.subrange(0, changed_keys@.len() as int) =~= changed_keys@);
        std::mem::swap(&mut keys, &mut self.changed_keys);
    }
}

} // verus!
