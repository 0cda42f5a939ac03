//! The operating system's random number generator, as the library sees it.
use rand::rngs::SysError;
use rand::rngs::SysRng;
use rand::TryRng;
use vstd::prelude::*;

verus! {

/// The error type of the system generator (`getrandom::Error`).
#[verifier::external_type_specification]
#[verifier::external_body]
pub struct ExSysError(SysError);

/// Fills `dest` with bytes from `rand::rngs::SysRng` through
/// `TryRng::try_fill_bytes` (which calls `getrandom::fill`).
///
/// Trusted: the buffer keeps its length, and an empty buffer is filled
/// without asking the operating system, so that call succeeds. What the
/// bytes are, and whether a call on a nonempty buffer fails, depends on the
/// operating system and is not stated.
#[verifier::external_body]
pub(crate) fn fill_from_system_rng(dest: &mut Vec<u8>) -> (r: Result<(), SysError>)
    ensures
        final(dest)@.len() == old(dest)@.len(),
        old(dest)@.len() == 0 ==> r is Ok,
{
    SysRng.try_fill_bytes(dest.as_mut_slice())
}

} // verus!
