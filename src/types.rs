//! Identities, digests and signatures, with the bytewise order on keys.
use vstd::prelude::*;

verus! {

/// An authority's public identity: its key encoding.
#[derive(Clone, Copy, Debug, PartialEq, Eq, Hash, PartialOrd, Ord)]
pub struct PublicKey {
    pub bytes: [u8; 32],
}

/// Content address of a batch, header or certificate.
#[derive(Clone, Copy, Debug, PartialEq, Eq, Hash, PartialOrd, Ord)]
pub struct Digest {
    pub bytes: [u8; 32],
}

/// A signature share over a digest.
#[derive(Clone, Copy, Debug, PartialEq, Eq, Hash)]
pub struct Signature {
    pub bytes: [u8; 64],
}

/// Logical clock of the DAG.
pub type Round = u64;

/// Index of a worker under a primary.
pub type WorkerId = u32;

/// Outcome of comparing two byte strings.
#[derive(Clone, Copy, Debug, PartialEq, Eq)]
pub enum KeyOrder {
    Less,
    Equal,
    Greater,
}

/// `a` comes strictly before `b` in bytewise lexicographic order.
pub open spec fn bytes_lt(a: Seq<u8>, b: Seq<u8>) -> bool {
    exists|i: int|
        0 <= i < a.len() && i < b.len() && a[i] < b[i] && (forall|j: int|
            0 <= j < i ==> a[j] == b[j])
}

/// Strict order on keys.
pub open spec fn key_lt(a: PublicKey, b: PublicKey) -> bool {
    bytes_lt(a.bytes@, b.bytes@)
}

/// The bytewise order is transitive.
pub proof fn lemma_bytes_lt_transitive(a: Seq<u8>, b: Seq<u8>, c: Seq<u8>)
    requires
        bytes_lt(a, b),
        bytes_lt(b, c),
    ensures
        bytes_lt(a, c),
{
    let i = choose|i: int|
        0 <= i < a.len() && i < b.len() && a[i] < b[i] && (forall|j: int| 0 <= j < i ==> a[j] == b[j]);
    let k = choose|k: int|
        0 <= k < b.len() && k < c.len() && b[k] < c[k] && (forall|j: int| 0 <= j < k ==> b[j] == c[j]);
    let m = if i < k { i } else { k };
    assert(0 <= m < a.len() && m < c.len() && a[m] < c[m] && (forall|j: int| 0 <= j < m ==> a[j] == c[j]));
}

/// The bytewise order is asymmetric.
pub proof fn lemma_bytes_lt_asymmetric(a: Seq<u8>, b: Seq<u8>)
    requires
        bytes_lt(a, b),
    ensures
        !bytes_lt(b, a),
        a != b,
{
    let i = choose|i: int|
        0 <= i < a.len() && i < b.len() && a[i] < b[i] && (forall|j: int| 0 <= j < i ==> a[j] == b[j]);
    if bytes_lt(b, a) {
        let k = choose|k: int|
            0 <= k < b.len() && k < a.len() && b[k] < a[k] && (forall|j: int| 0 <= j < k ==> b[j] == a[j]);
        if i < k {
            assert(b[i] == a[i]);
        } else if k < i {
            assert(a[k] == b[k]);
        }
    }
}

/// Compares two keys bytewise.
pub fn compare_keys(a: &PublicKey, b: &PublicKey) -> (r: KeyOrder)
    ensures
        r == KeyOrder::Less <==> key_lt(*a, *b),
        r == KeyOrder::Greater <==> key_lt(*b, *a),
        r == KeyOrder::Equal <==> *a == *b,
{
    let mut i: usize = 0;
    while i < 32
        invariant
            0 <= i <= 32,
            forall|j: int| 0 <= j < i ==> a.bytes@[j] == b.bytes@[j],
        decreases 32 - i,
    {
        if a.bytes[i] < b.bytes[i] {
            assert(bytes_lt(a.bytes@, b.bytes@));
            proof { lemma_bytes_lt_asymmetric(a.bytes@, b.bytes@); }
            assert(a.bytes@ != b.bytes@);
            return KeyOrder::Less;
        }
        if a.bytes[i] > b.bytes[i] {
            assert(bytes_lt(b.bytes@, a.bytes@));
            proof { lemma_bytes_lt_asymmetric(b.bytes@, a.bytes@); }
            assert(a.bytes@ != b.bytes@);
            return KeyOrder::Greater;
        }
        i = i + 1;
    }
    assert(a.bytes =~= b.bytes);
    proof { lemma_bytes_lt_irreflexive(a.bytes@); }
    KeyOrder::Equal
}

/// No byte string comes before itself.
pub proof fn lemma_bytes_lt_irreflexive(a: Seq<u8>)
    ensures
        !bytes_lt(a, a),
{
}

/// Two keys are equal exactly when their bytes are.
pub fn keys_equal(a: &PublicKey, b: &PublicKey) -> (r: bool)
    ensures
        r == (*a == *b),
{
    match compare_keys(a, b) {
        KeyOrder::Equal => true,
        _ => false,
    }
}

/// Two digests are equal exactly when their bytes are.
pub fn digests_equal(a: &Digest, b: &Digest) -> (r: bool)
    ensures
        r == (*a == *b),
{
    let mut i: usize = 0;
    while i < 32
        invariant
            0 <= i <= 32,
            forall|j: int| 0 <= j < i ==> a.bytes@[j] == b.bytes@[j],
        decreases 32 - i,
    {
        if a.bytes[i] != b.bytes[i] {
            return false;
        }
        i = i + 1;
    }
    assert(a.bytes =~= b.bytes);
    true
}

} // verus!
