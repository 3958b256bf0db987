use sha2::Digest;
use vstd::prelude::*;

verus! {

/// The SHA-256 digest of a byte string.
pub uninterp spec fn sha256_of(data: Seq<u8>) -> Seq<u8>;

/// Relies on sha2's `Sha256::digest`: the SHA-256 digest of `data`.
#[verifier::external_body]
pub(crate) fn sha256(data: &[u8]) -> (r: [u8; 32])
    ensures
        r@ == sha256_of(data@),
{
    sha2::Sha256::digest(data).into()
}

/// Relies on rand's `random`, drawn from the thread-local CSPRNG; nothing is
/// promised about the value.
pub assume_specification<T>[ rand::random::<T> ]() -> (r: T)
    where
        rand::distributions::Standard: rand::distributions::Distribution<T>,
;

/// Whether two byte arrays are equal.
fn bytes_equal(a: &[u8; 32], b: &[u8; 32]) -> (r: bool)
    ensures
        r <==> a@ == b@,
{
    let mut i: usize = 0;
    while i < 32
        invariant
            i <= 32,
            a@.len() == 32,
            b@.len() == 32,
            forall|j: int| 0 <= j < i ==> a@[j] == b@[j],
        decreases 32 - i,
    {
        if a[i] != b[i] {
            return false;
        }
        i = i + 1;
    }
    assert(a@ =~= b@);
    true
}

/// The two secret preimages of a wire's bit commitment: the first reveals
/// the bit 0, the second the bit 1.
#[derive(Debug, PartialEq, Eq)]
pub struct BitCommitmentPreimages(pub [u8; 32], pub [u8; 32]);

/// The public digests of a wire's two preimages, for the bit 0 and the bit 1.
#[derive(Clone, Copy, Debug, PartialEq, Eq)]
pub struct BitCommitmentHashes(pub [u8; 32], pub [u8; 32]);

impl Clone for BitCommitmentPreimages {
    fn clone(&self) -> (r: Self)
        ensures
            r == *self,
    {
        BitCommitmentPreimages(self.0, self.1)
    }
}

impl BitCommitmentPreimages {
    /// Two preimages that differ from each other.
    pub open spec fn wf(&self) -> bool {
        self.0@ != self.1@
    }

    /// The second preimage made from the draws: `r1` itself, unless it
    /// equals `r0`, in which case its first byte is changed.
    pub open spec fn second_of(r0: [u8; 32], r1: [u8; 32]) -> Seq<u8> {
        if r0@ != r1@ {
            r1@
        } else {
            r1@.update(0, if r1@[0] == 0 { 1u8 } else { 0u8 })
        }
    }

    /// The pair made from two 32-byte draws: the draws themselves when they
    /// differ; otherwise the second has its first byte changed (an event of
    /// probability 2^-256), so that the two always differ.
    pub fn from_draws(r0: [u8; 32], r1: [u8; 32]) -> (r: Self)
        ensures
            r.wf(),
            r.0 == r0,
            r.1@ == Self::second_of(r0, r1),
            r0@ != r1@ ==> r.1 == r1,
    {
        let mut preimage_1 = r1;
        if bytes_equal(&r0, &r1) {
            let first: u8 = preimage_1[0];
            preimage_1[0] = if first == 0 { 1 } else { 0 };
            assert(preimage_1@ =~= Self::second_of(r0, r1));
        }
        BitCommitmentPreimages(r0, preimage_1)
    }

    /// Two fresh preimages from two independent 32-byte draws of the
    /// thread-local cryptographically secure generator.
    pub fn new() -> (r: Self)
        ensures
            r.wf(),
    {
        let r0: [u8; 32] = rand::random::<[u8; 32]>();
        let r1: [u8; 32] = rand::random::<[u8; 32]>();
        Self::from_draws(r0, r1)
    }

    /// The preimage that reveals `bit`.
    pub fn preimage(&self, bit: bool) -> (r: [u8; 32])
        ensures
            r == (if bit { self.1 } else { self.0 }),
    {
        if bit { self.1 } else { self.0 }
    }

    /// Hashes both preimages with SHA-256.
    pub fn compute_bit_commitment_hashes(&self) -> (r: BitCommitmentHashes)
        ensures
            r.0@ == sha256_of(self.0@),
            r.1@ == sha256_of(self.1@),
    {
        let hash_0 = sha256(&self.0);
        let hash_1 = sha256(&self.1);
        BitCommitmentHashes(hash_0, hash_1)
    }
}

} // verus!
