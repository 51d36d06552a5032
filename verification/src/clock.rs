//! The time of receipt that accompanies a record on its way to a sink.
use crate::f6::{F6Received, F6};
use vstd::prelude::*;

verus! {

/// `chrono::Local::now()` written out by `DateTime::to_rfc3339`: the local
/// time of the call as text. Nothing is claimed of the text, which differs
/// from call to call. `chrono` panics where the machine's clock stands
/// before 1970; no argument of ours decides that.
#[verifier::external_body]
fn local_now_rfc3339() -> String {
    chrono::Local::now().to_rfc3339()
}

/// Stamps a record with the local time of this call.
pub fn receive_now(f6: F6) -> (stamped: F6Received)
    ensures
        stamped.f6 == f6,
{
    F6Received::new(f6, local_now_rfc3339())
}

} // verus!
