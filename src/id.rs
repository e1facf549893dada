//! 256-bit identifiers: entities, key servers, server keys and migrations.

use vstd::prelude::*;

verus! {

/// A 256-bit identifier held as four big-endian 64-bit words: `w0` carries
/// bytes 0..8, `w3` bytes 24..32.
#[derive(Clone, Copy, Debug, PartialEq, Eq, Structural, Hash)]
pub struct H256 {
    pub w0: u64,
    pub w1: u64,
    pub w2: u64,
    pub w3: u64,
}

/// Any principal: a requester or a key server.
pub type EntityId = H256;

/// An entity that has been admitted into a key-server set.
pub type KeyServerId = H256;

/// Logical key identifier chosen by the requester.
pub type ServerKeyId = H256;

/// Identifier chosen by the key server that starts a migration.
pub type MigrationId = H256;

/// The big-endian value of the bytes `b[start .. start + n]`.
pub open spec fn be_value(b: Seq<u8>, start: int, n: nat) -> nat
    decreases n,
{
    if n == 0 {
        0
    } else {
        be_value(b, start, (n - 1) as nat) * 256 + b[start + n - 1] as nat
    }
}

/// Lexicographic order of identifiers, which is the order of their bytes.
pub open spec fn id_lt(a: H256, b: H256) -> bool {
    a.w0 < b.w0 || (a.w0 == b.w0 && (a.w1 < b.w1 || (a.w1 == b.w1 && (a.w2 < b.w2 || (a.w2
        == b.w2 && a.w3 < b.w3)))))
}

proof fn lemma_be_value_bound(b: Seq<u8>, start: int, n: nat)
    requires
        0 <= start,
        start + n <= b.len(),
    ensures
        be_value(b, start, n) < pow256(n),
    decreases n,
{
    if n > 0 {
        lemma_be_value_bound(b, start, (n - 1) as nat);
        let v = be_value(b, start, (n - 1) as nat);
        let p = pow256((n - 1) as nat);
        assert(v * 256 + 255 < p * 256) by (nonlinear_arith)
            requires
                v < p,
        ;
    }
}

/// `256` to the power `n`.
pub open spec fn pow256(n: nat) -> nat
    decreases n,
{
    if n == 0 {
        1
    } else {
        256 * pow256((n - 1) as nat)
    }
}

/// The big-endian word of eight bytes starting at `start`.
fn word_from_bytes(b: &[u8; 32], start: usize) -> (r: u64)
    requires
        start + 8 <= 32,
    ensures
        r as nat == be_value(b@, start as int, 8),
{
    let mut w: u64 = 0;
    let mut j: usize = 0;
    while j < 8
        invariant
            j <= 8,
            start + 8 <= 32,
            b@.len() == 32,
            w as nat == be_value(b@, start as int, j as nat),
        decreases 8 - j,
    {
        proof {
            lemma_be_value_bound(b@, start as int, j as nat);
            reveal_with_fuel(pow256, 8);
            assert(pow256(7) == 72057594037927936nat);
            assert(pow256(j as nat) <= pow256(7)) by {
                lemma_pow256_mono(j as nat, 7);
            }
        }
        w = w * 256 + b[start + j] as u64;
        j = j + 1;
    }
    w
}

proof fn lemma_pow256_mono(a: nat, b: nat)
    requires
        a <= b,
    ensures
        pow256(a) <= pow256(b),
    decreases b,
{
    if a < b {
        lemma_pow256_mono(a, (b - 1) as nat);
    }
}

impl H256 {
    /// The identifier of 32 bytes, most significant first.
    pub fn from_bytes(b: [u8; 32]) -> (r: H256)
        ensures
            r.w0 as nat == be_value(b@, 0, 8),
            r.w1 as nat == be_value(b@, 8, 8),
            r.w2 as nat == be_value(b@, 16, 8),
            r.w3 as nat == be_value(b@, 24, 8),
    {
        H256 {
            w0: word_from_bytes(&b, 0),
            w1: word_from_bytes(&b, 8),
            w2: word_from_bytes(&b, 16),
            w3: word_from_bytes(&b, 24),
        }
    }

    /// Lexicographic comparison.
    pub fn lt(&self, other: &H256) -> (r: bool)
        ensures
            r == id_lt(*self, *other),
    {
        if self.w0 != other.w0 {
            self.w0 < other.w0
        } else if self.w1 != other.w1 {
            self.w1 < other.w1
        } else if self.w2 != other.w2 {
            self.w2 < other.w2
        } else {
            self.w3 < other.w3
        }
    }
}

} // verus!
