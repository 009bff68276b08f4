//! A flag that is held for as long as a guard lives.
//!
//! The flag is an atomic boolean that other code may read and write at any
//! time, so nothing is claimed about the value it holds: the contracts only
//! say which flag a guard releases.

use std::sync::atomic::AtomicBool;
use std::sync::atomic::Ordering;
use vstd::prelude::*;

verus! {

/// Holds a flag raised; dropping the guard lowers the flag again.
pub struct BoolGuard<'a> {
    target: &'a AtomicBool,
}

impl<'a> BoolGuard<'a> {
    /// The flag that this guard lowers when it is dropped.
    pub closed spec fn flag(self) -> &'a AtomicBool {
        self.target
    }

    /// Decides a locking attempt from the value that was read from the flag:
    /// a raised flag is left alone and no guard is handed out, a lowered flag
    /// is raised and guarded.
    pub fn claim(target: &'a AtomicBool, raised: bool) -> (guard: Option<Self>)
        ensures
            raised <==> guard is None,
            guard matches Some(held) ==> held.flag() == target,
    {
        if raised {
            return None;
        }
        target.store(true, Ordering::Relaxed);
        Some(Self { target })
    }

    /// Raises the flag unless it is raised already.
    ///
    /// Returns the guard that will lower the flag again, or `None` when the
    /// flag was found raised.
    pub fn lock(target: &'a AtomicBool) -> (guard: Option<Self>)
        ensures
            guard matches Some(held) ==> held.flag() == target,
    {
        let raised = target.load(Ordering::Relaxed);
        Self::claim(target, raised)
    }
}

/// Lowers the flag.
///
/// Trusted: calls `AtomicBool::store` with relaxed ordering. The header claims
/// that the call returns normally, which the standard library documents for
/// every ordering but the acquiring ones.
#[verifier::external_body]
fn lower(flag: &AtomicBool)
    opens_invariants none
    no_unwind
{
    flag.store(false, Ordering::Relaxed);
}

impl<'a> Drop for BoolGuard<'a> {
    fn drop(&mut self)
        opens_invariants none
        no_unwind
    {
        lower(self.target);
    }
}

} // verus!
