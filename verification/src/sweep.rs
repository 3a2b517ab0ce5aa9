//! The endless sweep over the partitions of the hash space.
//!
//! The synchroniser visits the partitions in increasing order and starts again
//! at the first one right after the last. What it does at each partition
//! (ask the upstream service, write, wait) is the caller's part; which
//! partition comes next, and what is to be logged there, is decided here.

use crate::hash::{prefix_hex, PasswordHashPrefix};
use vstd::prelude::*;
use vstd::string::*;

verus! {

/// Number of partitions of the hash space.
pub const PARTITIONS: u32 = 0x10_0000;

/// A progress report is due at every partition whose number is a multiple of
/// this.
pub const PROGRESS_EVERY: u32 = 1800;

/// Seconds to wait after each request to the upstream service.
pub const REQUEST_INTERVAL_SECS: u64 = 2;

/// Seconds after which a request to the upstream service is given up.
pub const REQUEST_TIMEOUT_SECS: u64 = 10;

/// The partition that is visited after `position`.
pub open spec fn successor(position: u32) -> u32 {
    if position >= PasswordHashPrefix::MAX {
        0
    } else {
        (position + 1) as u32
    }
}

/// The partition that is visited `steps` visits after `position`.
pub open spec fn position_after(position: u32, steps: nat) -> u32
    decreases steps,
{
    if steps == 0 {
        position
    } else {
        position_after(successor(position), (steps - 1) as nat)
    }
}

/// Where the sweep stands: the partition to visit next.
pub struct Sweep {
    next: u32,
}

/// One visit of the sweep.
#[derive(Debug, Clone, Copy)]
pub struct SweepStep {
    /// The partition to ask the upstream service for.
    pub prefix: PasswordHashPrefix,
    /// Whether a new sweep begins with this visit.
    pub begins_sweep: bool,
    /// Whether a progress report is due before this visit.
    pub reports_progress: bool,
}

impl Sweep {
    #[verifier::type_invariant]
    spec fn in_range(self) -> bool {
        self.next <= PasswordHashPrefix::MAX
    }

    /// The partition to visit next.
    pub closed spec fn position(&self) -> u32 {
        self.next
    }

    /// A sweep that stands before the first partition.
    pub fn new() -> (sweep: Sweep)
        ensures
            sweep.position() == 0,
    {
        Sweep { next: 0 }
    }

    /// Takes the next visit and moves on by one partition, from the last one
    /// back to the first.
    pub fn next_step(&mut self) -> (step: SweepStep)
        ensures
            step.prefix.0 == old(self).position(),
            step.prefix.is_valid(),
            step.begins_sweep == (old(self).position() == 0),
            step.reports_progress == (old(self).position() % PROGRESS_EVERY == 0),
            final(self).position() == successor(old(self).position()),
    {
        proof {
            use_type_invariant(&*self);
        }
        let position = self.next;
        self.next = if position >= PasswordHashPrefix::MAX {
            0
        } else {
            position + 1
        };
        SweepStep {
            prefix: PasswordHashPrefix(position),
            begins_sweep: position == 0,
            reports_progress: position % PROGRESS_EVERY == 0,
        }
    }
}

/// Counting visits is counting modulo the number of partitions.
pub proof fn lemma_position_after(position: u32, steps: nat)
    requires
        position <= PasswordHashPrefix::MAX,
    ensures
        position_after(position, steps) == (position + steps) % (PARTITIONS as int),
    decreases steps,
{
    if steps > 0 {
        lemma_position_after(successor(position), (steps - 1) as nat);
    }
}

/// No partition is left out and none is visited twice in a sweep: from any
/// position, every partition is reached after fewer visits than there are
/// partitions, and after exactly the distance to it, counted upwards and
/// around.
pub proof fn lemma_sweep_reaches(from: u32, to: u32)
    requires
        from <= PasswordHashPrefix::MAX,
        to <= PasswordHashPrefix::MAX,
    ensures
        position_after(from, ((to + PARTITIONS - from) % (PARTITIONS as int)) as nat) == to,
        forall|steps: nat|
            steps < PARTITIONS && #[trigger] position_after(from, steps) == to ==> steps == (to
                + PARTITIONS - from) % (PARTITIONS as int),
{
    lemma_position_after(from, ((to + PARTITIONS - from) % (PARTITIONS as int)) as nat);
    assert forall|steps: nat|
        steps < PARTITIONS && #[trigger] position_after(from, steps) == to implies steps == (to
            + PARTITIONS - from) % (PARTITIONS as int) by {
        lemma_position_after(from, steps);
    }
}

/// After as many visits as there are partitions the sweep stands where it
/// stood.
pub proof fn lemma_sweep_repeats(position: u32)
    requires
        position <= PasswordHashPrefix::MAX,
    ensures
        position_after(position, PARTITIONS as nat) == position,
{
    lemma_position_after(position, PARTITIONS as nat);
}

/// Address of the upstream range service, up to the partition's text.
pub const RANGE_URL: &'static str = "https://api.pwnedpasswords.com/range/";

/// The label that requests to the upstream service carry.
pub const USER_AGENT: &'static str = "lila-pwned";

/// The address to ask for partition `prefix`.
pub fn range_url(prefix: PasswordHashPrefix) -> (url: String)
    ensures
        url@ == RANGE_URL@ + prefix_hex(prefix.0),
{
    let url = RANGE_URL.to_owned();
    let digits = prefix.to_hex_string();
    url.concat(digits.as_str())
}

} // verus!
