//! Fixed-width bitset over key-server indices.

use vstd::prelude::*;
use vstd::set_lib::{set_int_range, lemma_int_range, lemma_len_subset};

verus! {

/// A 256-bit set of key-server indices, as four 64-bit words: bit `i` of the
/// mask is bit `i % 64` of word `i / 64`.
#[derive(Clone, Copy, Debug, PartialEq, Eq, Structural)]
pub struct KeyServersMask {
    m0: u64,
    m1: u64,
    m2: u64,
    m3: u64,
}

/// Whether bit `j` of `w` is set.
pub open spec fn word_bit(w: u64, j: u64) -> bool {
    (w >> j) & 1u64 == 1u64
}

proof fn lemma_single_bit(k: u64, j: u64)
    requires
        k < 64,
        j < 64,
    ensures
        word_bit(1u64 << k, j) <==> j == k,
{
    assert(((1u64 << k) >> j) & 1u64 == 1u64 <==> j == k) by (bit_vector)
        requires
            k < 64,
            j < 64,
    ;
}

proof fn lemma_or_bit(a: u64, b: u64, j: u64)
    requires
        j < 64,
    ensures
        word_bit(a | b, j) <==> (word_bit(a, j) || word_bit(b, j)),
{
    assert((((a | b) >> j) & 1u64 == 1u64) <==> (((a >> j) & 1u64 == 1u64) || ((b >> j) & 1u64
        == 1u64))) by (bit_vector)
        requires
            j < 64,
    ;
}

proof fn lemma_zero_bit(j: u64)
    requires
        j < 64,
    ensures
        !word_bit(0u64, j),
{
    assert((0u64 >> j) & 1u64 != 1u64) by (bit_vector)
        requires
            j < 64,
    ;
}

impl KeyServersMask {
    /// The word that holds bit `i`.
    pub closed spec fn word(self, i: int) -> u64 {
        if i < 64 {
            self.m0
        } else if i < 128 {
            self.m1
        } else if i < 192 {
            self.m2
        } else {
            self.m3
        }
    }

    /// Whether index `i` is in the mask.
    pub closed spec fn has(self, i: int) -> bool {
        0 <= i < 256 && word_bit(self.word(i), (i % 64) as u64)
    }

    /// The indices in the mask.
    pub closed spec fn view(self) -> Set<int> {
        Set::new(|i: int| self.has(i))
    }

    /// The indices of a mask lie in `0..256`, so there are finitely many.
    pub proof fn lemma_finite(self)
        ensures
            self@.finite(),
            self@.subset_of(set_int_range(0, 256)),
            self@.len() <= 256,
    {
        lemma_int_range(0, 256);
        lemma_len_subset(self@, set_int_range(0, 256));
    }

    /// The mask with no index set, as a value.
    pub closed spec fn spec_empty() -> Self {
        KeyServersMask { m0: 0, m1: 0, m2: 0, m3: 0 }
    }

    /// The mask that also has index `i`, as a value.
    pub closed spec fn spec_with(self, i: u8) -> Self {
        let bit = 1u64 << ((i % 64) as u64);
        if i < 64 {
            KeyServersMask { m0: self.m0 | bit, ..self }
        } else if i < 128 {
            KeyServersMask { m1: self.m1 | bit, ..self }
        } else if i < 192 {
            KeyServersMask { m2: self.m2 | bit, ..self }
        } else {
            KeyServersMask { m3: self.m3 | bit, ..self }
        }
    }

    /// The empty mask holds no index.
    pub proof fn lemma_spec_empty()
        ensures
            Self::spec_empty()@ == Set::<int>::empty(),
    {
        let r = Self::spec_empty();
        assert forall|i: int| !r.has(i) by {
            if 0 <= i < 256 {
                lemma_zero_bit((i % 64) as u64);
            }
        }
        assert(r@ =~= Set::<int>::empty());
    }

    /// Adding index `i` to a mask adds it to its indices and nothing else.
    pub proof fn lemma_spec_with(self, i: u8)
        ensures
            self.spec_with(i)@ == self@.insert(i as int),
    {
        let k = (i % 64) as u64;
        let bit = 1u64 << k;
        let r = self.spec_with(i);
        assert forall|j: int| r.has(j) <==> (self.has(j) || j == i as int) by {
            if 0 <= j < 256 {
                let jj = (j % 64) as u64;
                lemma_single_bit(k, jj);
                lemma_or_bit(self.word(j), bit, jj);
            }
        }
        assert(r@ =~= self@.insert(i as int));
    }

    /// The mask with no index set.
    pub fn empty() -> (r: Self)
        ensures
            r == Self::spec_empty(),
            r@ == Set::<int>::empty(),
    {
        proof {
            Self::lemma_spec_empty();
        }
        KeyServersMask { m0: 0, m1: 0, m2: 0, m3: 0 }
    }

    /// The mask with only index `i` set.
    pub fn from_index(i: u8) -> (r: Self)
        ensures
            r == Self::spec_empty().spec_with(i),
            r@ == set![i as int],
    {
        let k: u64 = (i % 64) as u64;
        let bit: u64 = 1u64 << k;
        assert(0u64 | bit == bit) by (bit_vector);
        let r = if i < 64 {
            KeyServersMask { m0: bit, m1: 0, m2: 0, m3: 0 }
        } else if i < 128 {
            KeyServersMask { m0: 0, m1: bit, m2: 0, m3: 0 }
        } else if i < 192 {
            KeyServersMask { m0: 0, m1: 0, m2: bit, m3: 0 }
        } else {
            KeyServersMask { m0: 0, m1: 0, m2: 0, m3: bit }
        };
        assert forall|j: int| r.has(j) <==> j == i as int by {
            if 0 <= j < 256 {
                let jj = (j % 64) as u64;
                lemma_single_bit(k, jj);
                lemma_zero_bit(jj);
            }
        }
        assert(r@ =~= set![i as int]);
        r
    }

    /// Whether index `i` is in the mask.
    pub fn is_set(&self, i: u8) -> (r: bool)
        ensures
            r == self@.contains(i as int),
    {
        let k: u64 = (i % 64) as u64;
        let w = if i < 64 {
            self.m0
        } else if i < 128 {
            self.m1
        } else if i < 192 {
            self.m2
        } else {
            self.m3
        };
        (w >> k) & 1u64 == 1u64
    }

    /// The mask that also has index `i`.
    pub fn with_index(&self, i: u8) -> (r: Self)
        ensures
            r == self.spec_with(i),
            r@ == self@.insert(i as int),
    {
        proof {
            self.lemma_spec_with(i);
        }
        let bit: u64 = 1u64 << ((i % 64) as u64);
        if i < 64 {
            KeyServersMask { m0: self.m0 | bit, ..*self }
        } else if i < 128 {
            KeyServersMask { m1: self.m1 | bit, ..*self }
        } else if i < 192 {
            KeyServersMask { m2: self.m2 | bit, ..*self }
        } else {
            KeyServersMask { m3: self.m3 | bit, ..*self }
        }
    }

    /// The indices of both masks.
    pub fn union(&self, other: &Self) -> (r: Self)
        ensures
            r@ == self@.union(other@),
    {
        let r = KeyServersMask {
            m0: self.m0 | other.m0,
            m1: self.m1 | other.m1,
            m2: self.m2 | other.m2,
            m3: self.m3 | other.m3,
        };
        assert forall|j: int| r.has(j) <==> (self.has(j) || other.has(j)) by {
            if 0 <= j < 256 {
                lemma_or_bit(self.word(j), other.word(j), (j % 64) as u64);
            }
        }
        assert(r@ =~= self@.union(other@));
        r
    }
}

} // verus!
