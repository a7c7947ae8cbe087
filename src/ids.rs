use vstd::prelude::*;

verus! {

/// Relies on `uuid::Uuid::new_v4` and its text form: a fresh random identifier
/// for a new node. Nothing is promised of its value.
#[verifier::external_body]
pub(crate) fn new_id() -> (r: String) {
    uuid::Uuid::new_v4().to_string()
}

} // verus!
