//! The migration status and its legal transitions.

use vstd::prelude::*;
use crate::error::MigrationError;

verus! {

/// Where a migration or snapshot stands.
#[derive(Clone, Copy, Debug, PartialEq, Eq, Structural)]
pub enum MigrationStatus {
    /// Nothing was started yet.
    Idle,
    /// An operation was accepted and prepares its transport.
    Setup,
    /// State is being transferred.
    Active,
    /// The last operation finished.
    Completed,
    /// The last operation failed.
    Failed,
    /// The last operation was canceled.
    Canceled,
}

/// The edges of the status graph.
///
/// `Failed` can be entered from anywhere; `Setup` only from a resting status;
/// `Active` only from `Setup`; `Completed` and `Canceled` only from `Active`;
/// nothing leads back to `Idle`.
pub open spec fn legal_transition(from: MigrationStatus, to: MigrationStatus) -> bool {
    match to {
        MigrationStatus::Idle => false,
        MigrationStatus::Setup => from == MigrationStatus::Idle || from
            == MigrationStatus::Completed || from == MigrationStatus::Failed || from
            == MigrationStatus::Canceled,
        MigrationStatus::Active => from == MigrationStatus::Setup,
        MigrationStatus::Completed => from == MigrationStatus::Active,
        MigrationStatus::Failed => true,
        MigrationStatus::Canceled => from == MigrationStatus::Active,
    }
}

/// A status in which an operation is under way.
pub open spec fn in_flight(s: MigrationStatus) -> bool {
    s == MigrationStatus::Setup || s == MigrationStatus::Active
}

/// The lower-case name under which a status is reported.
pub open spec fn status_name(s: MigrationStatus) -> Seq<char> {
    match s {
        MigrationStatus::Idle => "none"@,
        MigrationStatus::Setup => "setup"@,
        MigrationStatus::Active => "active"@,
        MigrationStatus::Completed => "completed"@,
        MigrationStatus::Failed => "failed"@,
        MigrationStatus::Canceled => "canceled"@,
    }
}

impl MigrationStatus {
    /// Whether the machine may go from `self` to `to`.
    pub fn can_become(self, to: MigrationStatus) -> (ok: bool)
        ensures
            ok == legal_transition(self, to),
    {
        match to {
            MigrationStatus::Idle => false,
            MigrationStatus::Setup => match self {
                MigrationStatus::Setup | MigrationStatus::Active => false,
                _ => true,
            },
            MigrationStatus::Active => match self {
                MigrationStatus::Setup => true,
                _ => false,
            },
            MigrationStatus::Completed | MigrationStatus::Canceled => match self {
                MigrationStatus::Active => true,
                _ => false,
            },
            MigrationStatus::Failed => true,
        }
    }

    /// The status after a request to enter `to`: `to` where the edge exists,
    /// an `InvalidState` error naming both ends where it does not.
    pub fn transition(self, to: MigrationStatus) -> (r: Result<MigrationStatus, MigrationError>)
        ensures
            legal_transition(self, to) ==> r == Ok::<MigrationStatus, MigrationError>(to),
            !legal_transition(self, to) ==> r == Err::<MigrationStatus, MigrationError>(
                MigrationError::InvalidState { from: self, to },
            ),
    {
        if self.can_become(to) {
            Ok(to)
        } else {
            Err(MigrationError::InvalidState { from: self, to })
        }
    }

    /// The name of the status as a status query reports it.
    pub fn name(self) -> (s: &'static str)
        ensures
            s@ == status_name(self),
    {
        match self {
            MigrationStatus::Idle => "none",
            MigrationStatus::Setup => "setup",
            MigrationStatus::Active => "active",
            MigrationStatus::Completed => "completed",
            MigrationStatus::Failed => "failed",
            MigrationStatus::Canceled => "canceled",
        }
    }
}

/// The one status of a virtual machine, changed only along legal edges.
pub struct StatusMachine {
    current: MigrationStatus,
}

impl StatusMachine {
    /// The status that the machine holds.
    pub closed spec fn view(&self) -> MigrationStatus {
        self.current
    }

    /// A machine on which nothing was started.
    pub fn new() -> (m: StatusMachine)
        ensures
            m@ == MigrationStatus::Idle,
    {
        StatusMachine { current: MigrationStatus::Idle }
    }

    /// Reads the status.
    pub fn status(&self) -> (s: MigrationStatus)
        ensures
            s == self@,
    {
        self.current
    }

    /// Enters `new` where the edge from the current status exists; otherwise
    /// reports `InvalidState` and leaves the status as it was.
    pub fn set_status(&mut self, new: MigrationStatus) -> (r: Result<(), MigrationError>)
        ensures
            legal_transition(old(self)@, new) ==> r.is_ok() && final(self)@ == new,
            !legal_transition(old(self)@, new) ==> r == Err::<(), MigrationError>(
                MigrationError::InvalidState { from: old(self)@, to: new },
            ) && final(self)@ == old(self)@,
    {
        match self.current.transition(new) {
            Ok(next) => {
                self.current = next;
                Ok(())
            },
            Err(e) => Err(e),
        }
    }
}

/// Every edge of the status graph is taken by `set_status`, and every other
/// request is refused: the result is `Ok` exactly on the legal transitions,
/// which are those into `Failed`, from a resting status into `Setup`, from
/// `Setup` into `Active`, and from `Active` into `Completed` or `Canceled`.
pub proof fn lemma_legal_transitions(from: MigrationStatus, to: MigrationStatus)
    ensures
        legal_transition(from, to) <==> (to == MigrationStatus::Failed || (to
            == MigrationStatus::Setup && !in_flight(from)) || (to == MigrationStatus::Active && from
            == MigrationStatus::Setup) || ((to == MigrationStatus::Completed || to
            == MigrationStatus::Canceled) && from == MigrationStatus::Active)),
{
}

/// While an operation is in flight no second one can be set up.
pub proof fn lemma_exclusive(from: MigrationStatus)
    requires
        in_flight(from),
    ensures
        !legal_transition(from, MigrationStatus::Setup),
{
}

} // verus!
