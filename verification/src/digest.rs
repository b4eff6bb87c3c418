//! Digests: the fixed-size cryptographic hash that identifies a block.

use vstd::prelude::*;

verus! {

/// A digest identifies a block by its content: equal bytes give an equal
/// digest, and a collision (equal digest, different bytes) is treated as
/// impossible by the store, which detects and reports it as corruption.
pub struct HashDigest {
    pub bytes: Vec<u8>,
}

impl View for HashDigest {
    type V = Seq<u8>;

    open spec fn view(&self) -> Seq<u8> {
        self.bytes@
    }
}

/// The digest of a byte sequence. The function itself is beyond stating
/// here; the one fact the store relies on is that it depends on the bytes
/// alone, so equal sequences always name the same block.
pub uninterp spec fn digest_of(b: Seq<u8>) -> Seq<u8>;

/// Relies on sha1::Sha1 (through its Digest trait): the 20-byte SHA-1
/// digest of the input, a function of the input bytes alone.
#[verifier::external_body]
pub fn compute_digest(b: &Vec<u8>) -> (r: HashDigest)
    ensures
        r@ == digest_of(b@),
        r@.len() == 20,
{
    let out = <sha1::Sha1 as sha1::Digest>::digest(b.as_slice());
    HashDigest { bytes: out.to_vec() }
}

/// Byte-sequence equality, the comparison every digest and path lookup uses.
pub fn bytes_eq(a: &Vec<u8>, b: &Vec<u8>) -> (r: bool)
    ensures
        r == (a@ == b@),
{
    if a.len() != b.len() {
        assert(a@ != b@);
        return false;
    }
    let n = a.len();
    let mut i: usize = 0;
    while i < n
        invariant
            n == a@.len() == b@.len(),
            i <= n,
            forall|k: int| 0 <= k < i ==> a@[k] == b@[k],
        decreases n - i,
    {
        if a[i] != b[i] {
            return false;
        }
        i += 1;
    }
    proof {
        assert(a@ =~= b@);
    }
    true
}

impl HashDigest {
    /// A copy of this digest, byte for byte.
    pub fn duplicate(&self) -> (r: HashDigest)
        ensures
            r@ == self@,
    {
        let mut bytes: Vec<u8> = Vec::new();
        let n = self.bytes.len();
        let mut i: usize = 0;
        while i < n
            invariant
                n == self.bytes@.len(),
                i <= n,
                bytes@ == self.bytes@.subrange(0, i as int),
            decreases n - i,
        {
            bytes.push(self.bytes[i]);
            assert(bytes@ =~= self.bytes@.subrange(0, i + 1));
            i += 1;
        }
        assert(bytes@ =~= self.bytes@);
        HashDigest { bytes }
    }

    /// Whether two digests name the same content.
    pub fn same(&self, other: &HashDigest) -> (r: bool)
        ensures
            r == (self@ == other@),
    {
        bytes_eq(&self.bytes, &other.bytes)
    }
}

/// A copy of a byte vector.
pub fn clone_bytes(v: &Vec<u8>) -> (r: Vec<u8>)
    ensures
        r@ == v@,
{
    let mut out: Vec<u8> = Vec::new();
    let n = v.len();
    let mut i: usize = 0;
    while i < n
        invariant
            n == v@.len(),
            i <= n,
            out@ == v@.subrange(0, i as int),
        decreases n - i,
    {
        out.push(v[i]);
        assert(out@ =~= v@.subrange(0, i + 1));
        i += 1;
    }
    assert(out@ =~= v@);
    out
}

} // verus!
