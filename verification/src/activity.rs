//! When a registration expires, and whether it is active at an instant.
//! Instants are milliseconds since the Unix epoch; durations are seconds.

use crate::model::ProductRegistration;
use vstd::prelude::*;

verus! {

/// The first instant at which a registration bought at `purchase_date` is
/// no longer active, as a mathematical integer; `None` where the product
/// has no duration.
pub open spec fn expiry_instant(purchase_date: i64, active_for: Option<u64>) -> Option<int> {
    match active_for {
        None => None,
        Some(seconds) => Some(purchase_date + 1000 * seconds),
    }
}

/// The expiry as it is recorded in a registration. An expiry beyond the
/// last instant that can be expressed is recorded as `None`: such a
/// registration is active at every instant that can be asked about.
pub open spec fn recorded_expiry(purchase_date: i64, active_for: Option<u64>) -> Option<i64> {
    match expiry_instant(purchase_date, active_for) {
        Some(at) if at <= i64::MAX => Some(at as i64),
        _ => None,
    }
}

/// Whether a registration with this recorded expiry is active at `now`:
/// always without an expiry, else strictly before it.
pub open spec fn active_at(expiry_at: Option<i64>, now: i64) -> bool {
    match expiry_at {
        None => true,
        Some(limit) => now < limit,
    }
}

/// Computes the expiry to record for a purchase.
pub fn compute_expiry(purchase_date: i64, active_for: Option<u64>) -> (expiry_at: Option<i64>)
    ensures
        expiry_at == recorded_expiry(purchase_date, active_for),
{
    match active_for {
        None => None,
        Some(seconds) => {
            let at: i128 = purchase_date as i128 + 1000 * (seconds as i128);
            if at <= i64::MAX as i128 {
                Some(at as i64)
            } else {
                None
            }
        },
    }
}

/// Whether `registration` is active at `timestamp`.
pub fn registration_is_active(registration: &ProductRegistration, timestamp: i64) -> (active: bool)
    ensures
        active == active_at(registration.expiry_at, timestamp),
{
    match registration.expiry_at {
        None => true,
        Some(expires_at) => timestamp < expires_at,
    }
}

/// A registration bought at `purchase_date` for a product that stays
/// active for `seconds` seconds is active at every instant less than
/// `seconds` seconds after `purchase_date`, and at none from then on.
pub proof fn lemma_expiry_boundary(purchase_date: i64, seconds: u64, now: i64)
    ensures
        active_at(recorded_expiry(purchase_date, Some(seconds)), now) <==> now < purchase_date
            + 1000 * seconds,
{
}

/// A registration of a product without a duration is active at every
/// instant.
pub proof fn lemma_no_duration_never_expires(purchase_date: i64, now: i64)
    ensures
        active_at(recorded_expiry(purchase_date, None), now),
{
}

} // verus!
