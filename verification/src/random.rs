//! Randomness from the operating system.

use crate::bytes::Bytes;
use crate::config::PRIVATE_KEY_LEN;
use vstd::prelude::*;

verus! {

/// Bytes from the operating system's random number generator; `None` when it
/// fails.
///
/// `getrandom::fill` fills the whole of the buffer that it is given or returns
/// an error. Of the bytes only their number is claimed.
#[verifier::external_body]
pub(crate) fn random_bytes(count: usize) -> (r: Option<Vec<u8>>)
    ensures
        r is Some ==> r->0@.len() == count,
{
    let mut bytes = vec![0u8; count];
    match getrandom::fill(&mut bytes) {
        Ok(()) => Some(bytes),
        Err(_) => None,
    }
}

/// The seed that random bytes give: the first 32 of them. There is none when
/// there are no random bytes.
pub fn seed_of(random: Option<Vec<u8>>) -> (r: Option<Bytes<32>>)
    requires
        random is Some ==> random->0@.len() >= 32,
    ensures
        match (random, r) {
            (Some(bytes), Some(seed)) => seed.0@ == bytes@.take(32),
            (None, None) => true,
            _ => false,
        },
{
    let bytes = match random {
        Some(bytes) => bytes,
        None => {
            return None;
        },
    };
    let mut out = [0u8; 32];
    let mut i: usize = 0;
    while i < 32
        invariant
            i <= 32 <= bytes@.len(),
            forall|j: int| 0 <= j < i ==> out@[j] == bytes@[j],
        decreases 32 - i,
    {
        out[i] = bytes[i];
        i = i + 1;
    }
    assert(out@ =~= bytes@.take(32));
    Some(Bytes(out))
}

/// A fresh 32-byte seed; `None` when the operating system has none to give.
/// There is no safe way to continue without: every alternative produces a
/// handshake that looks fine and is not.
///
/// It is what `seed_of` makes of 32 random bytes. Nothing holds of every such
/// seed.
pub fn random_seed() -> (r: Option<Bytes<32>>) {
    seed_of(random_bytes(32))
}

/// The nonce that a seed gives: its first bytes.
pub fn nonce_of(seed: &Bytes<32>) -> (n: Bytes<12>)
    ensures
        n.0@ == seed.0@.take(12),
{
    let mut out = [0u8; 12];
    let mut i: usize = 0;
    while i < 12
        invariant
            i <= 12,
            forall|j: int| 0 <= j < i ==> out@[j] == seed.0@[j],
        decreases 12 - i,
    {
        out[i] = seed.0[i];
        i = i + 1;
    }
    assert(out@ =~= seed.0@.take(12));
    Bytes(out)
}

/// A fresh nonce. Random rather than counted: a counter would have to survive
/// a crash, and repeating a nonce under one key loses both messages.
///
/// It is what `nonce_of` makes of a fresh seed. Nothing holds of every such
/// nonce.
pub fn nonce() -> (n: Option<Bytes<12>>) {
    match random_seed() {
        Some(seed) => Some(nonce_of(&seed)),
        None => None,
    }
}

/// The seed of a fresh private key.
pub fn private_key_seed() -> (r: Option<Vec<u8>>)
    ensures
        r is Some ==> r->0@.len() == PRIVATE_KEY_LEN,
{
    random_bytes(PRIVATE_KEY_LEN)
}

/// A seed is the first thirty-two bytes of what was drawn, and a nonce the first
/// twelve of a seed; without a draw there is no seed.
pub proof fn a_seed_is_what_was_drawn(
    drawn: Vec<u8>,
    r: Option<Bytes<32>>,
    none: Option<Bytes<32>>,
    n: Bytes<12>,
    i: int,
)
    requires
        drawn@.len() >= 32,
        call_ensures(seed_of, (Some(drawn),), r),
        call_ensures(seed_of, (None::<Vec<u8>>,), none),
        r matches Some(seed) ==> call_ensures(nonce_of, (&seed,), n),
    ensures
        none is None,
        r is Some,
        r matches Some(seed) ==> (0 <= i < 32 ==> seed.0@[i] == drawn@[i]),
        0 <= i < 12 ==> n.0@[i] == drawn@[i],
{
    if let Some(seed) = r {
        assert(seed.0@ == drawn@.take(32));
        assert(n.0@ == seed.0@.take(12));
    }
}

} // verus!
