//! Caller-visible identifier generation for documents and content items.

use vstd::prelude::*;

verus! {

/// Relies on uuid::Uuid::new_v4 and its Display form: a random version-4
/// identifier rendered as 36 hyphenated lower-case hex characters. Nothing
/// is promised beyond the length; in particular two calls may collide.
#[verifier::external_body]
pub fn fresh_uuid() -> (r: String)
    ensures
        r@.len() == 36,
{
    uuid::Uuid::new_v4().to_string()
}

} // verus!
