//! Cooperative cancellation: a token that long operations consult between
//! steps, in place of process-wide state.
use vstd::prelude::*;

verus! {

/// A cancellation token.
pub struct Interrupt {
    flag: bool,
}

impl Interrupt {
    /// Whether the token is raised.
    pub closed spec fn raised(&self) -> bool {
        self.flag
    }

    /// A token that is not raised.
    pub fn new() -> (r: Interrupt)
        ensures
            !r.raised(),
    {
        Interrupt { flag: false }
    }
}

/// Whether `token` asks to stop.
pub fn is_interrupted(token: &Interrupt) -> (r: bool)
    ensures
        r == token.raised(),
{
    token.flag
}

/// Asks every holder of `token` to stop.
pub fn interrupt(token: &mut Interrupt)
    ensures
        final(token).raised(),
{
    token.flag = true;
}

/// Withdraws a request to stop.
pub fn uninterrupt(token: &mut Interrupt)
    ensures
        !final(token).raised(),
{
    token.flag = false;
}

} // verus!
