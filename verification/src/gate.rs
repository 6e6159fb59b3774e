//! The bounded-concurrency single-socket strategy: one connection shared
//! under mutual exclusion, with at most a fixed number of logical send
//! operations in flight (awaiting or holding the lock) at any instant.
//!
//! The async runtime drives this model: `try_begin` admits one more logical
//! send when the cap allows it, and `finish` completes one, recording the
//! command on the single connection's wire log — or in the failed log when
//! the send failed, which never cancels sibling operations or the run.
use vstd::prelude::*;

use crate::codec::Cmd;

verus! {

/// The concurrency cap used when none is configured.
pub const DEFAULT_CONCURRENCY: usize = 256;

/// The shared-connection guard: the number of logical sends in flight, the
/// limit on them, and the single
/// connection's wire log of sent and failed commands.
pub struct Gate {
    pub in_flight: usize,
    pub limit: usize,
    pub sent: Vec<Cmd>,
    pub failed: Vec<Cmd>,
}

impl Gate {
    /// Well-formed: a positive cap that the in-flight count never exceeds.
    pub open spec fn wf(self) -> bool {
        self.limit >= 1 && self.in_flight <= self.limit
    }

    /// A gate for up to `limit` concurrent logical sends, nothing in flight.
    pub fn new(limit: usize) -> (g: Gate)
        requires
            limit >= 1,
        ensures
            g.wf(),
            g.limit == limit,
            g.in_flight == 0,
            g.sent@ == Seq::<Cmd>::empty(),
            g.failed@ == Seq::<Cmd>::empty(),
    {
        Gate { in_flight: 0, limit, sent: Vec::new(), failed: Vec::new() }
    }

    /// Admits one more logical send operation, exactly when fewer than
    /// `limit` are in flight; otherwise the caller suspends and retries.
    pub fn try_begin(&mut self) -> (started: bool)
        requires
            old(self).wf(),
        ensures
            final(self).wf(),
            started == (old(self).in_flight < old(self).limit),
            started ==> final(self).in_flight == old(self).in_flight + 1,
            !started ==> final(self).in_flight == old(self).in_flight,
            final(self).limit == old(self).limit,
            final(self).sent == old(self).sent,
            final(self).failed == old(self).failed,
    {
        if self.in_flight < self.limit {
            self.in_flight = self.in_flight + 1;
            true
        } else {
            false
        }
    }

    /// Completes one in-flight logical send of `cmd`: the command lands on
    /// the connection's wire log, or in the failed log when the underlying
    /// send failed (`send_ok` reports which). The failure is contained.
    pub fn finish(&mut self, cmd: Cmd, send_ok: bool)
        requires
            old(self).wf(),
            old(self).in_flight >= 1,
        ensures
            final(self).wf(),
            final(self).in_flight == old(self).in_flight - 1,
            final(self).limit == old(self).limit,
            send_ok ==> final(self).sent@ == old(self).sent@.push(cmd) && final(self).failed
                == old(self).failed,
            !send_ok ==> final(self).failed@ == old(self).failed@.push(cmd) && final(self).sent
                == old(self).sent,
    {
        self.in_flight = self.in_flight - 1;
        if send_ok {
            self.sent.push(cmd);
        } else {
            self.failed.push(cmd);
        }
    }
}

/// Law: concurrency stays bounded: whichever way the submissions race, a
/// well-formed gate never has more than `limit` logical send operations
/// simultaneously awaiting or holding the connection.
pub proof fn lemma_gate_bounded(g: Gate)
    requires
        g.wf(),
    ensures
        g.in_flight <= g.limit,
{
}

} // verus!
