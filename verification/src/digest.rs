use vstd::prelude::*;

verus! {

/// A 32-byte content hash addressing one stored trie node.
///
/// Identical node bytes always produce the identical digest, so a digest
/// names one node unambiguously across stores.
#[derive(Clone, Copy, Debug)]
pub struct Digest {
    pub bytes: [u8; 32],
}

impl View for Digest {
    type V = Seq<u8>;

    open spec fn view(&self) -> Seq<u8> {
        self.bytes@
    }
}

impl Digest {
    pub fn new(bytes: [u8; 32]) -> (r: Digest)
        ensures
            r@ == bytes@,
    {
        Digest { bytes }
    }

    /// Byte-for-byte comparison of two digests.
    pub fn same_as(&self, other: &Digest) -> (r: bool)
        ensures
            r == (self@ == other@),
    {
        let mut i: usize = 0;
        while i < 32
            invariant
                0 <= i <= 32,
                forall|j: int| 0 <= j < i ==> self.bytes@[j] == other.bytes@[j],
            decreases 32 - i,
        {
            if self.bytes[i] != other.bytes[i] {
                return false;
            }
            i = i + 1;
        }
        proof {
            assert(self@ =~= other@);
        }
        true
    }
}

/// Names the Blake2b-256 digest of a byte string; the result is a function
/// of the bytes alone.
pub uninterp spec fn blake2b_256(data: Seq<u8>) -> Seq<u8>;

/// Relies on casper_hashing::Digest::hash: a 32-byte Blake2b-256 digest
/// computed from the input bytes alone, the same on every run and machine.
#[verifier::external_body]
pub fn hash_bytes(data: &Vec<u8>) -> (r: Digest)
    ensures
        r@ == blake2b_256(data@),
        r@.len() == 32,
{
    Digest { bytes: casper_hashing::Digest::hash(data.as_slice()).value() }
}

} // verus!
