//! What the maintenance sidecar does, event by event: how it starts, what
//! it does with each transaction and in which order, and when it stops.

use vstd::prelude::*;

use crate::error;
use crate::error::CdcError;
use crate::source::SlotSetup;
use crate::text::join5;

verus! {

/// How the mirror comes to be.
#[derive(Clone, Copy, Debug, PartialEq, Eq, Structural)]
pub enum Start {
    /// From the snapshot of a slot that was just created.
    Snapshot,
    /// From the saved state, on a slot that was there.
    Resume,
}

/// The complaint about a slot that is there when there is no saved state.
pub open spec fn stuck_text(slot: Seq<char>) -> Seq<char> {
    "slot "@ + slot
        + " exists; resume with --state PATH, or drop it (SELECT pg_drop_replication_slot('"@ + slot
        + "')) to demo from scratch"@
}

/// How to start: a new slot comes with its snapshot; one that was there can
/// only be resumed from saved state.
pub fn start_plan(setup: &SlotSetup, has_state: bool, slot: &str) -> (r: Result<Start, CdcError>)
    ensures
        match setup {
            SlotSetup::CreatedSnapshotOpen { .. } => r == Ok::<Start, CdcError>(Start::Snapshot),
            SlotSetup::AlreadyExists => if has_state {
                r == Ok::<Start, CdcError>(Start::Resume)
            } else {
                error::apply_err(r, stuck_text(slot@))
            },
        },
{
    match setup {
        SlotSetup::CreatedSnapshotOpen { .. } => Ok(Start::Snapshot),
        SlotSetup::AlreadyExists => {
            if has_state {
                return Ok(Start::Resume);
            }
            let s = join5(
                "slot ",
                slot,
                " exists; resume with --state PATH, or drop it (SELECT pg_drop_replication_slot('",
                slot,
                "')) to demo from scratch",
            );
            Err(CdcError::Apply(s))
        },
    }
}

/// One thing to do after a transaction was applied.
#[derive(Clone, Copy, Debug, PartialEq, Eq, Structural)]
pub enum Step {
    /// Save the mirror.
    Save,
    /// Acknowledge the transaction.
    Ack,
    /// Report the answer.
    Report,
}

/// What to do after a transaction: save where state is kept and the
/// watermark moved, then acknowledge, then report where rows changed.
pub open spec fn steps(durable: bool, before: u64, after: u64, changed: u64) -> Seq<Step> {
    let save = if durable && before != after {
        seq![Step::Save]
    } else {
        Seq::empty()
    };
    let report = if changed > 0 {
        seq![Step::Report]
    } else {
        Seq::empty()
    };
    save + seq![Step::Ack] + report
}

/// One second later; the clock stops at its end.
pub open spec fn ticked(t: u64) -> u64 {
    if t < u64::MAX {
        (t + 1) as u64
    } else {
        t
    }
}

/// It is time to stop after `t` idle seconds.
pub open spec fn stops(idle_exit: u64, t: u64) -> bool {
    idle_exit > 0 && t >= idle_exit
}

/// The sidecar's idle clock.
#[derive(Debug)]
pub struct Sidecar {
    /// Seconds without a transaction.
    pub idle_for: u64,
    /// Seconds without a transaction after which to stop; 0 is never.
    pub idle_exit: u64,
}

impl Sidecar {
    /// A sidecar that stops after `idle_exit` idle seconds, or never at 0.
    pub fn new(idle_exit: u64) -> (s: Sidecar)
        ensures
            s == (Sidecar { idle_for: 0, idle_exit }),
    {
        Sidecar { idle_for: 0, idle_exit }
    }

    /// A transaction was applied that moved the watermark from `before` to
    /// `after` and changed `changed` rows.
    pub fn on_tx(&mut self, durable: bool, before: u64, after: u64, changed: u64) -> (plan: Vec<
        Step,
    >)
        ensures
            *final(self) == (Sidecar { idle_for: 0, ..*old(self) }),
            plan@ == steps(durable, before, after, changed),
    {
        self.idle_for = 0;
        let mut plan: Vec<Step> = Vec::new();
        if durable && before != after {
            plan.push(Step::Save);
        }
        plan.push(Step::Ack);
        if changed > 0 {
            plan.push(Step::Report);
        }
        assert(plan@ =~= steps(durable, before, after, changed));
        plan
    }

    /// A second went by without a transaction. True where it is time to
    /// stop.
    pub fn on_idle(&mut self) -> (stop: bool)
        ensures
            *final(self) == (Sidecar { idle_for: ticked(old(self).idle_for), ..*old(self) }),
            stop == stops(old(self).idle_exit, ticked(old(self).idle_for)),
    {
        if self.idle_for < u64::MAX {
            self.idle_for = self.idle_for + 1;
        }
        self.idle_exit > 0 && self.idle_for >= self.idle_exit
    }
}

/// Durable before acknowledged: where the mirror is saved, it is saved
/// before the acknowledgement; and every transaction is acknowledged.
pub proof fn saved_before_acknowledged(durable: bool, before: u64, after: u64, changed: u64)
    ensures
        steps(durable, before, after, changed).contains(Step::Ack),
        durable && before != after ==> steps(durable, before, after, changed).contains(Step::Save),
        forall|i: int, j: int|
            0 <= i < steps(durable, before, after, changed).len() && 0 <= j < steps(
                durable,
                before,
                after,
                changed,
            ).len() && steps(durable, before, after, changed)[i] == Step::Save && steps(
                durable,
                before,
                after,
                changed,
            )[j] == Step::Ack ==> i < j,
{
    let s = steps(durable, before, after, changed);
    if durable && before != after {
        assert(s[0] == Step::Save);
        assert(s[1] == Step::Ack);
    } else {
        assert(s[0] == Step::Ack);
    }
}

/// Nothing is done twice or in vain: the mirror is saved only where state is
/// kept and the watermark moved, the answer is reported exactly where rows
/// changed, and last of all.
pub proof fn nothing_is_done_in_vain(durable: bool, before: u64, after: u64, changed: u64)
    ensures
        steps(durable, before, after, changed).no_duplicates(),
        steps(durable, before, after, changed).contains(Step::Save) ==> durable && before != after,
        steps(durable, before, after, changed).contains(Step::Report) <==> changed > 0,
        changed > 0 ==> steps(durable, before, after, changed).last() == Step::Report,
{
    let s = steps(durable, before, after, changed);
    if changed > 0 {
        assert(s[s.len() - 1] == Step::Report);
    }
}

/// The idle clock after `n` seconds without a transaction.
pub open spec fn idle_after(t: u64, n: nat) -> u64
    decreases n,
{
    if n == 0 {
        t
    } else {
        ticked(idle_after(t, (n - 1) as nat))
    }
}

/// Idle seconds add up, to the end of the clock; so a sidecar that is to
/// stop after so many idle seconds does so with the last of them, and one
/// that is never to stop does not.
pub proof fn idle_seconds_add_up(t: u64, n: nat, idle_exit: u64)
    ensures
        stops(idle_exit, idle_after(0, n)) <==> 0 < idle_exit <= n,
        idle_after(t, n) == if t + n <= u64::MAX {
            (t + n) as u64
        } else {
            u64::MAX
        },
{
    lemma_idle(t, n);
    lemma_idle(0, n);
}

proof fn lemma_idle(t: u64, n: nat)
    ensures
        idle_after(t, n) == if t + n <= u64::MAX {
            (t + n) as u64
        } else {
            u64::MAX
        },
    decreases n,
{
    if n > 0 {
        lemma_idle(t, (n - 1) as nat);
    }
}

} // verus!
