use vstd::prelude::*;

verus! {

/// Relies on chrono's `Utc::now` and `DateTime::timestamp`: the current wall
/// clock as whole seconds since the Unix epoch.  Nothing can be promised of
/// the clock's reading, so the contract is empty.
#[verifier::external_body]
pub fn now_timestamp() -> i64 {
    chrono::Utc::now().timestamp()
}

/// Relies on uuid's `Uuid::new_v4`, whose hyphenated rendering is documented
/// to be 36 ASCII characters.  The value itself is random, so no more is
/// promised.
#[verifier::external_body]
pub fn new_uuid_string() -> (r: String)
    ensures
        r@.len() == 36,
{
    uuid::Uuid::new_v4().to_string()
}

} // verus!
