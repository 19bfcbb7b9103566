//! The quarantine rule.
use vstd::prelude::*;

verus! {

/// Whether a domain that has been registered for `age_days` whole days is too
/// young, given that it must reach `max_age_days`.
pub fn should_quarantine(age_days: i64, max_age_days: i64) -> (quarantine: bool)
    ensures
        quarantine == (age_days < max_age_days),
{
    age_days < max_age_days
}

} // verus!
