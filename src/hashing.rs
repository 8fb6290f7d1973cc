//! The hash primitive of the ledger: SHA-256 over byte strings, and the
//! two ways the ledger feeds it (account records and pairs of child hashes).
use vstd::prelude::*;

verus! {

/// A 32-byte digest.
pub type Hash = [u8; 32];

/// The SHA-256 digest of a byte string. SHA-256 is a fixed function of its
/// input bytes; nothing else is assumed of it.
pub uninterp spec fn sha256_of(data: Seq<u8>) -> Seq<u8>;

/// Relies on `sha2::Sha256::digest` (the `digest::Digest` method): the
/// 32-byte SHA-256 digest of `data`, which depends on those bytes alone.
#[verifier::external_body]
pub(crate) fn sha256(data: &[u8]) -> (r: Hash)
    ensures
        r@ == sha256_of(data@),
{
    <sha2::Sha256 as sha2::Digest>::digest(data).into()
}

/// The digest that stands for "nothing": 32 zero bytes.
pub open spec fn zero_hash() -> Seq<u8> {
    Seq::new(32, |i: int| 0u8)
}

/// The hash of an inner tree node: SHA-256 of the left child's digest
/// followed by the right child's.
pub open spec fn node_hash(left: Seq<u8>, right: Seq<u8>) -> Seq<u8> {
    sha256_of(left + right)
}

/// The first `n` little-endian base-256 digits of `v`.
pub open spec fn le_digits(v: nat, n: nat) -> Seq<u8>
    decreases n,
{
    if n == 0 {
        Seq::empty()
    } else {
        seq![(v % 256) as u8] + le_digits(v / 256, (n - 1) as nat)
    }
}

/// The 8-byte little-endian encoding of a `u64`.
pub open spec fn le_bytes(v: u64) -> Seq<u8> {
    le_digits(v as nat, 8)
}

pub(crate) fn zero_digest() -> (r: Hash)
    ensures
        r@ == zero_hash(),
{
    let r: Hash = [0u8; 32];
    assert(r@ =~= zero_hash());
    r
}

/// Appends `bytes` to `out`.
pub(crate) fn push_bytes(out: &mut Vec<u8>, bytes: &[u8])
    ensures
        final(out)@ == old(out)@ + bytes@,
{
    let ghost start = out@;
    let mut i: usize = 0;
    while i < bytes.len()
        invariant
            i <= bytes@.len(),
            out@ == start + bytes@.subrange(0, i as int),
        decreases bytes@.len() - i,
    {
        out.push(bytes[i]);
        i = i + 1;
        assert(out@ =~= start + bytes@.subrange(0, i as int));
    }
    assert(bytes@.subrange(0, i as int) =~= bytes@);
}

/// Appends the little-endian encoding of `v` to `out`.
pub(crate) fn push_le_u64(out: &mut Vec<u8>, v: u64)
    ensures
        final(out)@ == old(out)@ + le_bytes(v),
{
    let ghost start = out@;
    let mut x: u64 = v;
    let mut i: u64 = 0;
    while i < 8
        invariant
            i <= 8,
            out@ + le_digits(x as nat, (8 - i) as nat) == start + le_bytes(v),
        decreases 8 - i,
    {
        let ghost before = out@;
        let ghost x0 = x;
        let b: u8 = (x % 256) as u8;
        out.push(b);
        x = x / 256;
        i = i + 1;
        let ghost rest = le_digits(x as nat, (8 - i) as nat);
        assert(le_digits(x0 as nat, (8 - i + 1) as nat) == seq![b] + rest);
        assert(out@ + rest =~= before + (seq![b] + rest));
    }
    assert(le_digits(x as nat, 0) =~= Seq::<u8>::empty());
    assert(out@ =~= out@ + le_digits(x as nat, 0));
}

/// Whether two byte arrays of one length are equal.
pub(crate) fn bytes_equal<const N: usize>(a: &[u8; N], b: &[u8; N]) -> (r: bool)
    ensures
        r == (a@ == b@),
{
    let mut i: usize = 0;
    while i < N
        invariant
            i <= N,
            a@.len() == N,
            b@.len() == N,
            a@.subrange(0, i as int) == b@.subrange(0, i as int),
        decreases N - i,
    {
        if a[i] != b[i] {
            assert(a@[i as int] != b@[i as int]);
            return false;
        }
        assert(a@.subrange(0, i + 1) =~= a@.subrange(0, i as int).push(a@[i as int]));
        assert(b@.subrange(0, i + 1) =~= b@.subrange(0, i as int).push(b@[i as int]));
        i = i + 1;
    }
    assert(a@ =~= a@.subrange(0, N as int));
    assert(b@ =~= b@.subrange(0, N as int));
    true
}

/// The digest of an inner node whose children have digests `left` and `right`.
pub fn hash_pair(left: &Hash, right: &Hash) -> (r: Hash)
    ensures
        r@ == node_hash(left@, right@),
{
    let mut data: Vec<u8> = Vec::new();
    push_bytes(&mut data, left.as_slice());
    push_bytes(&mut data, right.as_slice());
    sha256(data.as_slice())
}

} // verus!
