//! Randomness.
use rand::RngCore;
use vstd::prelude::*;

verus! {

/// `rand::random` of sixty-four bits. Any value may come.
#[verifier::external_body]
pub(crate) fn random_u64() -> u64 {
    rand::random()
}

/// `rand::random` of one hundred and twenty-eight bits. Any value may come.
#[verifier::external_body]
pub(crate) fn random_u128() -> u128 {
    rand::random()
}

/// `RngCore::fill_bytes` of the thread's generator fills thirty-two bytes. Any bytes may come.
#[verifier::external_body]
pub(crate) fn random_bytes() -> (r: Vec<u8>)
    ensures
        r@.len() == 32,
{
    let mut bytes = [0u8; 32];
    rand::thread_rng().fill_bytes(&mut bytes);
    bytes.to_vec()
}

} // verus!
