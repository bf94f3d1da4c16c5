use vstd::prelude::*;

verus! {

/// Relies on `rand::random::<u32>`: a value drawn from the thread's generator.
/// Nothing is known of it.
#[verifier::external_body]
pub(crate) fn random_u32() -> u32 {
    rand::random::<u32>()
}

/// Relies on `uuid::Uuid::new_v4` and the `Display` impl of `Uuid`: the
/// hyphenated lower-case form, 36 ASCII characters.
#[verifier::external_body]
pub(crate) fn new_uuid() -> (r: String)
    ensures
        r@.len() == 36,
        r.is_ascii(),
{
    uuid::Uuid::new_v4().to_string()
}

} // verus!
