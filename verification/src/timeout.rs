use vstd::prelude::*;

verus! {

/// Checks the stop request of a heavy computation: when a stop was requested, the request
/// is consumed and an error comes back (to be raised with `?`); otherwise nothing changes.
pub fn timeout_if_needed(should_timeout: &mut bool) -> (r: Result<(), ()>)
    ensures
        *old(should_timeout) ==> r is Err && !*final(should_timeout),
        !*old(should_timeout) ==> r is Ok && !*final(should_timeout),
{
    if *should_timeout {
        reset_timeout_state(should_timeout);
        Err(())
    } else {
        Ok(())
    }
}

/// Asks any heavy computation to stop at its next check.
pub fn timeout_now(should_timeout: &mut bool)
    ensures
        *final(should_timeout),
{
    *should_timeout = true;
}

/// Withdraws any pending stop request, at the end of a refresh cycle.
pub fn reset_timeout_state(should_timeout: &mut bool)
    ensures
        !*final(should_timeout),
{
    *should_timeout = false;
}

} // verus!
