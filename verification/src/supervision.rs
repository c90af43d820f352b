//! Fault interception layer.
//!
//! Tests run inside a shared, long-lived worker process alongside unrelated
//! work, so a process-wide failure hook must not swallow diagnostics of
//! failures that no one supervises.  The registry below tracks, per fiber
//! identifier, who is currently supervised and which captured failure is
//! pending; the hook's bookkeeping forwards every event of an unsupervised
//! fiber to the previously installed handler and records nothing for it.
//!
//! The hook itself, the one-time handler swap and the unwinding run in the
//! host process; they drive this registry and take their decisions from it.

use crate::codec::PicotestPanicInfo;
use std::collections::HashMap;
use std::collections::HashSet;
use vstd::prelude::*;

verus! {

broadcast use vstd::std_specs::hash::group_hash_axioms;

/// Once-only installation state of the process-wide failure hook:
/// uninstalled until the first `install`, installed for good afterwards.
pub struct HookState {
    installed: bool,
}

impl HookState {
    /// True once the hook has been installed.
    pub closed spec fn is_installed(self) -> bool {
        self.installed
    }

    /// The state before any installation.
    pub fn new() -> (r: Self)
        ensures
            !r.is_installed(),
    {
        HookState { installed: false }
    }

    /// Idempotent check-and-set: the first call reports that the previous
    /// handler must be captured and replaced; later calls change nothing.
    pub fn install(&mut self) -> (first_install: bool)
        ensures
            final(self).is_installed(),
            first_install == !old(self).is_installed(),
    {
        let first_install = !self.installed;
        self.installed = true;
        first_install
    }
}

/// Per-worker supervision state: which fibers are currently supervised, and
/// the at-most-one pending captured failure of each fiber.
pub struct SupervisionRegistry {
    guarded_fibers: HashSet<u64>,
    raised_panics: HashMap<u64, PicotestPanicInfo>,
}

impl SupervisionRegistry {
    /// The set of supervised fiber identifiers.
    pub closed spec fn guarded(self) -> Set<u64> {
        self.guarded_fibers@
    }

    /// The pending captured failure of each fiber.
    pub closed spec fn raised(self) -> Map<u64, PicotestPanicInfo> {
        self.raised_panics@
    }

    /// An empty registry: nothing supervised, nothing pending.
    pub fn new() -> (r: Self)
        ensures
            r.guarded() == Set::<u64>::empty(),
            r.raised() == Map::<u64, PicotestPanicInfo>::empty(),
    {
        SupervisionRegistry {
            guarded_fibers: HashSet::with_capacity(100),
            raised_panics: HashMap::with_capacity(16),
        }
    }

    /// True when `fiber` is currently supervised.
    pub fn is_guarded(&self, fiber: u64) -> (r: bool)
        ensures
            r == self.guarded().contains(fiber),
    {
        self.guarded_fibers.contains(&fiber)
    }

    /// Marks `fiber` as supervised, just before the supervised call runs.
    pub fn begin_guard(&mut self, fiber: u64)
        ensures
            final(self).guarded() == old(self).guarded().insert(fiber),
            final(self).raised() == old(self).raised(),
    {
        self.guarded_fibers.insert(fiber);
    }

    /// Unmarks `fiber`, however the supervised call ended.
    pub fn end_guard(&mut self, fiber: u64)
        ensures
            final(self).guarded() == old(self).guarded().remove(fiber),
            final(self).raised() == old(self).raised(),
    {
        self.guarded_fibers.remove(&fiber);
    }

    /// The hook's bookkeeping for one failure event on fiber `fiber` with
    /// snapshot `info`.
    ///
    /// A supervised fiber has the snapshot recorded for it; an unsupervised
    /// one gets nothing recorded, and the returned flag directs the caller
    /// to forward the event to the previously installed default handler.
    /// In both cases the event then continues to unwind in the host.
    pub fn on_panic(&mut self, fiber: u64, info: PicotestPanicInfo) -> (forward_to_default: bool)
        ensures
            forward_to_default == !old(self).guarded().contains(fiber),
            old(self).guarded().contains(fiber) ==> final(self).raised() == old(
                self,
            ).raised().insert(fiber, info),
            !old(self).guarded().contains(fiber) ==> final(self).raised() == old(self).raised(),
            final(self).guarded() == old(self).guarded(),
    {
        let guarded = self.guarded_fibers.contains(&fiber);
        if guarded {
            self.raised_panics.insert(fiber, info);
        }
        !guarded
    }

    /// True when a captured failure is pending for `fiber`.
    pub fn has_raised(&self, fiber: u64) -> (r: bool)
        ensures
            r == self.raised().contains_key(fiber),
    {
        self.raised_panics.contains_key(&fiber)
    }

    /// Removes and returns the pending captured failure of `fiber`.
    pub fn take_raised(&mut self, fiber: u64) -> (r: Option<PicotestPanicInfo>)
        ensures
            final(self).raised() == old(self).raised().remove(fiber),
            final(self).guarded() == old(self).guarded(),
            r is Some <==> old(self).raised().contains_key(fiber),
            r matches Some(info) ==> info == old(self).raised()[fiber],
    {
        self.raised_panics.remove(&fiber)
    }

    /// Closes a supervised call: unmarks `fiber` whether or not the call
    /// failed, and turns a failure into the captured snapshot.
    ///
    /// A failure without a recorded snapshot would mean the hook never ran
    /// for it; that is a programming error, ruled out by the precondition.
    pub fn finish_supervision(&mut self, fiber: u64, panicked: bool) -> (r: Result<
        (),
        PicotestPanicInfo,
    >)
        requires
            panicked ==> old(self).raised().contains_key(fiber),
        ensures
            !final(self).guarded().contains(fiber),
            final(self).guarded() == old(self).guarded().remove(fiber),
            panicked ==> final(self).raised() == old(self).raised().remove(fiber) && r
                == Result::<(), PicotestPanicInfo>::Err(old(self).raised()[fiber]),
            !panicked ==> final(self).raised() == old(self).raised() && r is Ok,
    {
        self.end_guard(fiber);
        if panicked {
            match self.take_raised(fiber) {
                Some(info) => Err(info),
                None => {
                    proof {
                        assert(false);
                    }
                    Ok(())
                },
            }
        } else {
            Ok(())
        }
    }
}

} // verus!
