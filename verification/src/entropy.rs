//! Random bytes and numbers. Nothing is known of what is drawn but its size and range, and
//! that it was drawn.

use aead::rand_core::RngCore;
use rand::{Rng, RngExt};
use vstd::prelude::*;

verus! {

/// `OsRng::fill_bytes`: `n` bytes from the operating system. It panics only when the
/// operating system cannot give any.
#[verifier::external_body]
pub(crate) fn os_random(n: usize) -> (r: Vec<u8>)
    requires
        n <= isize::MAX,
    ensures
        r@.len() == n,
{
    let mut bytes = vec![0u8; n];
    aead::OsRng.fill_bytes(&mut bytes);
    bytes
}

/// `fill_bytes` of `rand::rng()`, the thread's generator: `n` bytes.
#[verifier::external_body]
pub(crate) fn thread_random(n: usize) -> (r: Vec<u8>)
    requires
        n <= isize::MAX,
    ensures
        r@.len() == n,
{
    let mut bytes = vec![0u8; n];
    rand::rng().fill_bytes(&mut bytes);
    bytes
}

/// `random_range` of `rand::rng()` over an inclusive range: a number in it. It panics
/// on an empty range.
#[verifier::external_body]
pub(crate) fn random_between(low: usize, high: usize) -> (r: usize)
    requires
        low <= high,
    ensures
        low <= r <= high,
{
    rand::rng().random_range(low..=high)
}

/// Whether bytes were drawn from the operating system. Only a call shows that: of no bytes of
/// one's own choice can it be said.
pub closed spec fn from_system(bytes: Seq<u8>) -> bool {
    exists|n: usize, v: Vec<u8>| #[trigger] call_ensures(os_random, (n,), v) && v@ == bytes
}

/// Whether bytes were drawn from the thread's generator.
pub closed spec fn from_thread(bytes: Seq<u8>) -> bool {
    exists|n: usize, v: Vec<u8>| #[trigger] call_ensures(thread_random, (n,), v) && v@ == bytes
}

/// Whether a number was drawn between two others.
pub closed spec fn from_range(low: usize, high: usize, x: usize) -> bool {
    call_ensures(random_between, (low, high), x)
}

/// `n` bytes that the operating system draws in this call.
pub fn system_bytes(n: usize) -> (r: Vec<u8>)
    requires
        n <= isize::MAX,
    ensures
        r@.len() == n,
        from_system(r@),
{
    let r: Vec<u8> = os_random(n);
    assert(call_ensures(os_random, (n,), r));
    r
}

/// `n` bytes that the thread's generator draws in this call.
pub fn thread_bytes(n: usize) -> (r: Vec<u8>)
    requires
        n <= isize::MAX,
    ensures
        r@.len() == n,
        from_thread(r@),
{
    let r: Vec<u8> = thread_random(n);
    assert(call_ensures(thread_random, (n,), r));
    r
}

/// A number between two others, both included, that the thread's generator draws in this call.
pub fn number_between(low: usize, high: usize) -> (r: usize)
    requires
        low <= high,
    ensures
        low <= r <= high,
        from_range(low, high, r),
{
    let r: usize = random_between(low, high);
    assert(call_ensures(random_between, (low, high), r));
    r
}

/// Bytes are from the operating system only when a call to it gave them.
pub(crate) proof fn lemma_from_system(bytes: Seq<u8>)
    requires
        from_system(bytes),
    ensures
        exists|n: usize, v: Vec<u8>| #[trigger] call_ensures(os_random, (n,), v) && v@ == bytes,
{
}

/// Bytes are from the thread's generator only when a call to it gave them.
pub(crate) proof fn lemma_from_thread(bytes: Seq<u8>)
    requires
        from_thread(bytes),
    ensures
        exists|n: usize, v: Vec<u8>| #[trigger] call_ensures(thread_random, (n,), v) && v@ == bytes,
{
}

/// A number was drawn only when a call to the thread's generator gave it, for that range.
pub(crate) proof fn lemma_from_range(low: usize, high: usize, x: usize)
    requires
        from_range(low, high, x),
    ensures
        call_ensures(random_between, (low, high), x),
        low <= x <= high,
{
}

} // verus!
