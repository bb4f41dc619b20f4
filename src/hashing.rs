use vstd::prelude::*;
use vstd::arithmetic::power::pow;
use crate::types::{HashValue, Header, StateClaim};

verus! {

/// The SHA-256 digest of a byte string.
pub uninterp spec fn sha2_256_of(b: Seq<u8>) -> Seq<u8>;

/// The eight little-endian bytes of `x`.
pub open spec fn le_bytes(x: u64) -> Seq<u8> {
    Seq::new(8, |i: int| ((x as int / pow(256, i as nat)) % 256) as u8)
}

/// The canonical encoding of a header: its fields in declaration order,
/// integers little-endian, the parent digest as its 32 bytes.
pub open spec fn header_bytes(h: Header) -> Seq<u8> {
    le_bytes(h.height) + h.parent@ + le_bytes(h.storage_root) + le_bytes(h.transactions_root)
        + le_bytes(h.pow_nonce)
}

/// The canonical encoding of a state claim: key, then value.
pub open spec fn claim_bytes(c: StateClaim) -> Seq<u8> {
    le_bytes(c.key) + le_bytes(c.value)
}

/// A header's identity: the digest of its encoding.
pub open spec fn header_digest(h: Header) -> Seq<u8> {
    sha2_256_of(header_bytes(h))
}

/// The digest under which a state claim is proved.
pub open spec fn claim_digest(c: StateClaim) -> Seq<u8> {
    sha2_256_of(claim_bytes(c))
}

/// `a` is below `b` read as big-endian unsigned integers of equal width: at
/// the first byte where they differ, `a`'s is the smaller.
pub open spec fn bytes_below(a: Seq<u8>, b: Seq<u8>) -> bool {
    exists|k: int|
        0 <= k < a.len() && k < b.len() && #[trigger] a[k] < b[k] && a.take(k) == b.take(k)
}

/// Relies on ink::env::hash_bytes with Sha2x256: the SHA-256 digest of the
/// input, which depends on the input bytes alone.
#[verifier::external_body]
fn sha2_256(input: &Vec<u8>) -> (r: HashValue)
    ensures
        r@ == sha2_256_of(input@),
{
    let mut out: [u8; 32] = [0u8; 32];
    ink::env::hash_bytes::<ink::env::hash::Sha2x256>(input.as_slice(), &mut out);
    out
}

/// Relies on parity_scale_codec's Encode for u64: a fixed-width integer is
/// encoded as its little-endian bytes.
#[verifier::external_body]
fn encode_u64(x: u64) -> (r: Vec<u8>)
    ensures
        r@ == le_bytes(x),
{
    parity_scale_codec::Encode::encode(&x)
}

fn append_vec(out: &mut Vec<u8>, b: &Vec<u8>)
    ensures
        final(out)@ == old(out)@ + b@,
{
    let mut i: usize = 0;
    while i < b.len()
        invariant
            i <= b@.len(),
            out@ == old(out)@ + b@.take(i as int),
        decreases b@.len() - i,
    {
        out.push(b[i]);
        i = i + 1;
        assert(b@.take(i as int) =~= b@.take(i - 1).push(b@[i - 1]));
    }
    assert(b@.take(b@.len() as int) =~= b@);
}

fn append_array(out: &mut Vec<u8>, b: &HashValue)
    ensures
        final(out)@ == old(out)@ + b@,
{
    let mut i: usize = 0;
    while i < 32
        invariant
            i <= 32,
            b@.len() == 32,
            out@ == old(out)@ + b@.take(i as int),
        decreases 32 - i,
    {
        out.push(b[i]);
        i = i + 1;
        assert(b@.take(i as int) =~= b@.take(i - 1).push(b@[i - 1]));
    }
    assert(b@.take(32) =~= b@);
}

/// Encodes a header into the bytes that its digest is taken over.
pub fn encode_header(h: &Header) -> (r: Vec<u8>)
    ensures
        r@ == header_bytes(*h),
{
    let mut out = encode_u64(h.height);
    append_array(&mut out, &h.parent);
    let b = encode_u64(h.storage_root);
    append_vec(&mut out, &b);
    let b = encode_u64(h.transactions_root);
    append_vec(&mut out, &b);
    let b = encode_u64(h.pow_nonce);
    append_vec(&mut out, &b);
    out
}

/// The digest of a header.
pub fn hash_header(h: &Header) -> (r: HashValue)
    ensures
        r@ == header_digest(*h),
{
    let bytes = encode_header(h);
    sha2_256(&bytes)
}

/// The digest of a state claim.
pub fn hash_claim(c: &StateClaim) -> (r: HashValue)
    ensures
        r@ == claim_digest(*c),
{
    let mut bytes = encode_u64(c.key);
    let b = encode_u64(c.value);
    append_vec(&mut bytes, &b);
    sha2_256(&bytes)
}

/// Whether two digests are the same bytes.
pub fn digest_eq(a: &HashValue, b: &HashValue) -> (r: bool)
    ensures
        r == (a@ == b@),
{
    let mut i: usize = 0;
    while i < 32
        invariant
            i <= 32,
            a@.len() == 32,
            b@.len() == 32,
            forall|k: int| 0 <= k < i ==> a@[k] == b@[k],
        decreases 32 - i,
    {
        if a[i] != b[i] {
            return false;
        }
        i = i + 1;
    }
    assert(a@ =~= b@);
    true
}

/// Whether `a` is below `b` as big-endian unsigned integers: the
/// proof-of-work predicate when `b` is the difficulty threshold.
pub fn digest_below(a: &HashValue, b: &HashValue) -> (r: bool)
    ensures
        r == bytes_below(a@, b@),
{
    let mut i: usize = 0;
    while i < 32 && a[i] == b[i]
        invariant
            i <= 32,
            a@.len() == 32,
            b@.len() == 32,
            a@.take(i as int) == b@.take(i as int),
        decreases 32 - i,
    {
        i = i + 1;
        assert(a@.take(i as int) =~= a@.take(i - 1).push(a@[i - 1]));
        assert(b@.take(i as int) =~= b@.take(i - 1).push(b@[i - 1]));
    }
    if i < 32 && a[i] < b[i] {
        assert(a@[i as int] < b@[i as int]);
        true
    } else {
        assert forall|k: int|
            0 <= k < a@.len() && k < b@.len() && #[trigger] a@[k] < b@[k] implies a@.take(k)
            != b@.take(k) by {
            if k > i {
                assert(a@.take(k)[i as int] == a@[i as int]);
                assert(b@.take(k)[i as int] == b@[i as int]);
            } else if k < i {
                assert(a@.take(i as int)[k] == a@[k]);
                assert(b@.take(i as int)[k] == b@[k]);
            }
        }
        false
    }
}

} // verus!
