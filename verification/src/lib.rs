//! A small library behind a secret-display service: it projects cluster
//! secret records into sorted display fields, derives time-based one-time
//! passwords from `otpauth://totp/` descriptors, and keeps a concurrent
//! in-memory store of webhook-pushed records.

pub mod order;
pub mod resolver;
pub mod store;
pub mod totp;

use vstd::prelude::*;

verus! {

/// Body of the health endpoint: a constant, whatever the state of the
/// webhook store or the cluster connection.
pub fn health_body() -> (r: &'static str)
    ensures
        r@ == "OK"@,
{
    "OK"
}

} // verus!
