//! What speech recognition needs beside the sound.
use vstd::prelude::*;

verus! {

/// A digit of a number in base 16, in lower case.
pub open spec fn is_hex(c: char) -> bool {
    '0' <= c <= '9' || 'a' <= c <= 'f'
}

/// Calls `uuid::Uuid::new_v4` and writes the id with `simple`: 32 digits in base
/// 16, in lower case and without hyphens. Which digits is left to chance.
#[verifier::external_body]
fn random_id() -> (r: String)
    ensures
        r@.len() == 32,
        forall|i: int| 0 <= i < 32 ==> is_hex(#[trigger] r@[i]),
{
    uuid::Uuid::new_v4().simple().to_string()
}

/// A random id for this installation.
pub fn new_cuid() -> (r: String)
    ensures
        r@.len() == 32,
        forall|i: int| 0 <= i < 32 ==> is_hex(#[trigger] r@[i]),
{
    random_id()
}

} // verus!
