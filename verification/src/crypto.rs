//! The cryptographic primitives of the control channel.

use crate::bytes::Bytes;
use ml_kem::kem::KeyExport;
use sha2::Digest;
use vstd::prelude::*;

verus! {

/// Bytes of an ML-DSA-65 verification key.
pub const VERIFY_KEY_LEN: usize = 1952;

/// Bytes of an ML-DSA-65 signature.
pub const SIGNATURE_LEN: usize = 3309;

/// Bytes of an ML-KEM-768 encapsulation key.
pub const KEM_PUBLIC_KEY_LEN: usize = 1184;

/// The modulus of the coefficients of an ML-KEM key.
pub const KEM_MODULUS: u32 = 3329;

/// The coefficient at `k` of an encoded ML-KEM vector: twelve bits each, two of
/// them in every three bytes, the low bits first.
pub open spec fn coefficient(key: Seq<u8>, k: int) -> int {
    let at = 3 * (k / 2);
    if k % 2 == 0 {
        key[at] + 256 * (key[at + 1] % 16)
    } else {
        key[at + 1] / 16 + 16 * key[at + 2]
    }
}

/// Whether bytes encode an ML-KEM-768 encapsulation key: they have the length
/// of one, and every coefficient in front of the closing 32 bytes is below the
/// modulus.
pub open spec fn encodes_kem_key(key: Seq<u8>) -> bool {
    &&& key.len() == KEM_PUBLIC_KEY_LEN
    &&& forall|k: int| 0 <= k < 768 ==> #[trigger] coefficient(key, k) < KEM_MODULUS
}

/// Checks an encapsulation key of the right length.
///
/// `ml_kem::EncapsulationKey768::new` decodes the coefficients, reducing each
/// below the modulus, encodes them again, and refuses a key that is not the
/// same then: one with a coefficient that is not below the modulus.
#[verifier::external_body]
pub(crate) fn mlkem768_check(key: &[u8]) -> (r: bool)
    requires
        key@.len() == KEM_PUBLIC_KEY_LEN,
    ensures
        r == encodes_kem_key(key@),
{
    let mut bytes = [0u8; KEM_PUBLIC_KEY_LEN];
    bytes.copy_from_slice(key);
    ml_kem::EncapsulationKey768::new(&bytes.into()).is_ok()
}

/// Whether bytes encode an ML-KEM-768 encapsulation key.
pub fn kem_key_valid(key: &[u8]) -> (r: bool)
    ensures
        r == encodes_kem_key(key@),
{
    key.len() == KEM_PUBLIC_KEY_LEN && mlkem768_check(key)
}

/// The ML-KEM-768 encapsulation key of a seed.
pub uninterp spec fn mlkem768_public(seed: Seq<u8>) -> Seq<u8>;

/// Derives the encapsulation key of a seed.
///
/// `ml_kem::DecapsulationKey768::from_seed` generates the key pair
/// deterministically, and the encoded encapsulation key is a function of the
/// seed alone. Its coefficients come out of additions in the field, which keep
/// them below the modulus.
#[verifier::external_body]
pub(crate) fn mlkem768_public_key(seed: &Bytes<64>) -> (r: Vec<u8>)
    ensures
        r@ == mlkem768_public(seed.0@),
        encodes_kem_key(r@),
{
    let key = ml_kem::DecapsulationKey768::from_seed(seed.0.into());
    key.encapsulation_key().to_bytes().to_vec()
}

/// The X25519 public key of a secret.
pub uninterp spec fn x25519_public(secret: Seq<u8>) -> Seq<u8>;

/// Derives the public key of an X25519 secret.
///
/// `x25519_dalek::PublicKey::from` multiplies the base point by the clamped
/// secret, a function of the secret's bytes alone. Nothing more is claimed of
/// it.
#[verifier::external_body]
pub(crate) fn x25519_public_key(secret: &Bytes<32>) -> (r: Bytes<32>)
    ensures
        r.0@ == x25519_public(secret.0@),
{
    let secret = x25519_dalek::StaticSecret::from(secret.0);
    Bytes(x25519_dalek::PublicKey::from(&secret).to_bytes())
}

/// The SHA-256 digest of a byte string.
pub uninterp spec fn sha256_of(data: Seq<u8>) -> Seq<u8>;

/// Computes a SHA-256 digest.
///
/// The digest is that of `sha2::Sha256::digest`, a function of the bytes alone.
/// Nothing more is claimed of it.
#[verifier::external_body]
pub(crate) fn sha256(data: &[u8]) -> (r: Bytes<32>)
    ensures
        r.0@ == sha256_of(data@),
{
    Bytes(sha2::Sha256::digest(data).into())
}

/// The ML-DSA-65 verification key of a seed.
pub uninterp spec fn mldsa65_public(seed: Seq<u8>) -> Seq<u8>;

/// Derives the verification key of a seed.
///
/// `ml_dsa::ExpandedSigningKey::from_seed` generates the key pair
/// deterministically, and the encoded verification key is a function of the
/// seed alone. It is an array of a fixed size.
#[verifier::external_body]
pub(crate) fn mldsa65_public_key(seed: &Bytes<32>) -> (r: Vec<u8>)
    ensures
        r@ == mldsa65_public(seed.0@),
        r@.len() == VERIFY_KEY_LEN,
{
    let key = ml_dsa::ExpandedSigningKey::<ml_dsa::MlDsa65>::from_seed(&seed.0.into());
    key.verifying_key().encode().to_vec()
}

/// The deterministic ML-DSA-65 signature of a message under a context, if there
/// is one.
pub uninterp spec fn mldsa65_signature(
    seed: Seq<u8>,
    message: Seq<u8>,
    context: Seq<u8>,
) -> Option<Seq<u8>>;

/// Signs a message.
///
/// `ml_dsa::ExpandedSigningKey::sign_deterministic` is the variant of ML-DSA
/// without randomness, so that the signature, or the failure, is a function of
/// seed, message, and context. A signature is an array of a fixed size, and the
/// verification key of the same seed verifies it. When signing fails is not
/// stated: it fails for a context of more than 255 bytes, and where rejection
/// sampling finds no signature.
#[verifier::external_body]
pub(crate) fn mldsa65_sign(seed: &Bytes<32>, message: &[u8], context: &[u8]) -> (r: Option<
    Vec<u8>,
>)
    ensures
        match r {
            Some(s) => {
                &&& mldsa65_signature(seed.0@, message@, context@) == Some(s@)
                &&& s@.len() == SIGNATURE_LEN
                &&& mldsa65_accepts(mldsa65_public(seed.0@), message@, context@, s@)
            },
            None => mldsa65_signature(seed.0@, message@, context@) is None,
        },
{
    let key = ml_dsa::ExpandedSigningKey::<ml_dsa::MlDsa65>::from_seed(&seed.0.into());
    match key.sign_deterministic(message, context) {
        Ok(signature) => Some(signature.encode().to_vec()),
        Err(_) => None,
    }
}

/// Whether an ML-DSA-65 signature of a message under a context is that of the
/// holder of a verification key.
pub uninterp spec fn mldsa65_accepts(
    key: Seq<u8>,
    message: Seq<u8>,
    context: Seq<u8>,
    signature: Seq<u8>,
) -> bool;

/// Verifies a signature.
///
/// `ml_dsa::VerifyingKey::verify_with_context` decides, on the decoded key and
/// signature; a signature that does not decode is none. The answer is a
/// function of the four arguments. Nothing more is claimed of it.
#[verifier::external_body]
pub(crate) fn mldsa65_verify(
    key: &[u8],
    message: &[u8],
    context: &[u8],
    signature: &[u8],
) -> (r: bool)
    requires
        key@.len() == VERIFY_KEY_LEN,
        signature@.len() == SIGNATURE_LEN,
    ensures
        r == mldsa65_accepts(key@, message@, context@, signature@),
{
    let mut key_bytes = [0u8; VERIFY_KEY_LEN];
    key_bytes.copy_from_slice(key);
    let mut signature_bytes = [0u8; SIGNATURE_LEN];
    signature_bytes.copy_from_slice(signature);
    let key = ml_dsa::VerifyingKey::<ml_dsa::MlDsa65>::decode(&key_bytes.into());
    match ml_dsa::Signature::<ml_dsa::MlDsa65>::decode(&signature_bytes.into()) {
        Some(signature) => key.verify_with_context(message, context, &signature),
        None => false,
    }
}

/// A key is valid if it is as long as one, and if each three bytes before its
/// last thirty-two hold two numbers of twelve bits, low bits first, below 3329.
pub proof fn a_valid_key_holds_small_numbers(key: &[u8], r: bool)
    requires
        call_ensures(kem_key_valid, (key,), r),
    ensures
        r <==> key@.len() == 1184 && forall|j: int|
            0 <= j < 384 ==> {
                let n = #[trigger] key@[3 * j] + 256 * key@[3 * j + 1] + 65536 * key@[3 * j + 2];
                n % 4096 < 3329 && n / 4096 < 3329
            },
{
    let k = key@;
    if r {
        assert forall|j: int| 0 <= j < 384 implies {
            let n = #[trigger] k[3 * j] + 256 * k[3 * j + 1] + 65536 * k[3 * j + 2];
            n % 4096 < 3329 && n / 4096 < 3329
        } by {
            lemma_two(k[3 * j], k[3 * j + 1], k[3 * j + 2]);
            assert(coefficient(k, 2 * j) < KEM_MODULUS);
            assert(coefficient(k, 2 * j + 1) < KEM_MODULUS);
            assert((2 * j) / 2 == j && (2 * j + 1) / 2 == j);
        }
    }
    if k.len() == 1184 && forall|j: int|
        0 <= j < 384 ==> {
            let n = #[trigger] k[3 * j] + 256 * k[3 * j + 1] + 65536 * k[3 * j + 2];
            n % 4096 < 3329 && n / 4096 < 3329
        } {
        assert forall|i: int| 0 <= i < 768 implies #[trigger] coefficient(k, i) < KEM_MODULUS by {
            let j = i / 2;
            lemma_two(k[3 * j], k[3 * j + 1], k[3 * j + 2]);
        }
    }
}

proof fn lemma_two(a: u8, b: u8, c: u8)
    ensures
        ({
            let n = a + 256 * b + 65536 * c;
            &&& n % 4096 == a + 256 * (b % 16)
            &&& n / 4096 == b / 16 + 16 * c
        }),
{
    assert(b as int == 16 * (b as int / 16) + b as int % 16);
}

} // verus!
