//! The requests that the control plane makes, and the responses to them.
//!
//! Connecting a socket, writing a file and starting a task are left to the
//! caller. What is decided here is which response a request gets and what it
//! does to the manager.

use vstd::prelude::*;
use crate::device::StateTransfer;
use crate::error::MigrationError;
use crate::manager::{
    all_resumed_after, startable, stream_of, unchanged, MigrationManager, TransportKind,
};
use crate::memory::BLOCK_LEN_MAX;
use crate::ram::GuestMemory;
use crate::status::{status_name, MigrationStatus};

verus! {

/// What a status query reports.
#[derive(Debug, PartialEq, Eq)]
pub struct MigrationInfo {
    /// The name of the status.
    pub status: Option<String>,
}

/// The response to a request.
#[derive(Debug, PartialEq, Eq)]
pub enum Response {
    /// The request was accepted; there is nothing to report.
    Empty,
    /// The status that was asked for.
    Info(MigrationInfo),
    /// The request failed.
    Error { class: String, desc: String },
}

/// The class under which every failure is reported.
pub open spec fn generic_class() -> Seq<char> {
    "GenericError"@
}

/// What an error says to the user: the name of its kind, then what went
/// wrong.
pub open spec fn error_text(e: MigrationError) -> Seq<char> {
    match e {
        MigrationError::InvalidConfig =>
            "InvalidConfig: the request carries parameters that cannot be used"@,
        MigrationError::InvalidState { .. } =>
            "InvalidState: the migration status does not allow the operation"@,
        MigrationError::VersionIncompatible { .. } =>
            "VersionIncompatible: a device state descriptor is not the one known here"@,
        MigrationError::Corrupt => "Corrupt: the stream is corrupt"@,
        MigrationError::Transport => "Transport: the transport failed or timed out"@,
        MigrationError::Io => "Io: the file system failed"@,
    }
}

/// What a request gets where the manager answered `r`: an empty
/// acknowledgement, or an error of the one class under which failures are
/// reported, described by the text of the error.
pub open spec fn answers(response: Response, r: Result<(), MigrationError>) -> bool {
    match r {
        Ok(()) => response == Response::Empty,
        Err(e) => match response {
            Response::Error { class, desc } => class@ == generic_class() && desc@ == error_text(e),
            _ => false,
        },
    }
}

impl MigrationError {
    /// A description of the error for the user: the name of its kind, then
    /// what went wrong.
    pub fn description(&self) -> (s: &'static str)
        ensures
            s@ == error_text(*self),
    {
        match self {
            MigrationError::InvalidConfig =>
                "InvalidConfig: the request carries parameters that cannot be used",
            MigrationError::InvalidState { .. } =>
                "InvalidState: the migration status does not allow the operation",
            MigrationError::VersionIncompatible { .. } =>
                "VersionIncompatible: a device state descriptor is not the one known here",
            MigrationError::Corrupt => "Corrupt: the stream is corrupt",
            MigrationError::Transport => "Transport: the transport failed or timed out",
            MigrationError::Io => "Io: the file system failed",
        }
    }
}

impl Response {
    /// The response to a request that the manager answered with `r`.
    pub fn of(r: &Result<(), MigrationError>) -> (response: Response)
        ensures
            answers(response, *r),
    {
        match r {
            Ok(()) => Response::Empty,
            Err(e) => Response::Error {
                class: "GenericError".to_owned(),
                desc: e.description().to_owned(),
            },
        }
    }

    /// The response to a request that failed for a reason that comes with its
    /// own description, such as a socket that cannot be connected.
    pub fn generic_error(desc: String) -> (response: Response)
        ensures
            match response {
                Response::Error { class, desc: text } => class@ == generic_class() && text == desc,
                _ => false,
            },
    {
        Response::Error { class: "GenericError".to_owned(), desc }
    }

    /// Whether the response is an acknowledgement without content.
    pub fn is_empty(&self) -> (empty: bool)
        ensures
            empty == (*self is Empty),
    {
        match self {
            Response::Empty => true,
            _ => false,
        }
    }

    /// Whether the response reports a failure.
    pub fn is_error(&self) -> (failed: bool)
        ensures
            failed == (*self is Error),
    {
        match self {
            Response::Error { .. } => true,
            _ => false,
        }
    }
}

/// Queries the current migration status. Never fails and changes nothing.
pub fn query_migrate<D: StateTransfer>(manager: &MigrationManager<D>) -> (response: Response)
    ensures
        match response {
            Response::Info(info) => info.status.is_some() && info.status->Some_0@ == status_name(
                manager.status_spec(),
            ),
            _ => false,
        },
{
    Response::Info(MigrationInfo { status: Some(manager.status().name().to_owned()) })
}

/// Cancels the current migration. Acknowledged while the status is
/// `Active`, which becomes `Canceled`; an error, with nothing changed, in
/// any other status.
pub fn cancel_migrate<D: StateTransfer>(manager: &mut MigrationManager<D>) -> (response: Response)
    ensures
        old(manager).wf() ==> final(manager).wf(),
        final(manager).devices() == old(manager).devices(),
        final(manager).transport() == old(manager).transport(),
        old(manager).status_spec() == MigrationStatus::Active ==> response == Response::Empty
            && final(manager).status_spec() == MigrationStatus::Canceled,
        old(manager).status_spec() != MigrationStatus::Active ==> final(manager).status_spec()
            == old(manager).status_spec() && answers(
            response,
            Err(
                MigrationError::InvalidState {
                    from: old(manager).status_spec(),
                    to: MigrationStatus::Canceled,
                },
            ),
        ),
{
    let r = manager.cancel_migrate();
    Response::of(&r)
}

/// What a request to start an operation, made in the status `from` and
/// refused there, reports.
pub open spec fn refusal(from: MigrationStatus) -> Result<(), MigrationError> {
    Err(MigrationError::InvalidState { from, to: MigrationStatus::Setup })
}

/// Sets up a snapshot: the status becomes `Setup` and a file is held as the
/// transport. While an operation is set up or active the request is refused
/// as an invalid state. A request refused while an operation is active leaves
/// that operation undisturbed; one refused in any other status ends in
/// `Failed`, with the transport let go. No device changes either way.
pub fn snapshot_setup<D: StateTransfer>(manager: &mut MigrationManager<D>) -> (r: Result<
    (),
    Response,
>)
    requires
        old(manager).wf(),
    ensures
        final(manager).wf(),
        final(manager).devices() == old(manager).devices(),
        startable(*old(manager)) ==> r.is_ok() && final(manager).status_spec()
            == MigrationStatus::Setup && final(manager).transport() == Some(TransportKind::File),
        !startable(*old(manager)) ==> r.is_err() && answers(
            r->Err_0,
            refusal(old(manager).status_spec()),
        ),
        !startable(*old(manager)) && old(manager).status_spec() == MigrationStatus::Active
            ==> unchanged(*old(manager), *final(manager)),
        !startable(*old(manager)) && old(manager).status_spec() != MigrationStatus::Active
            ==> final(manager).status_spec() == MigrationStatus::Failed
            && final(manager).transport().is_none(),
{
    let before = manager.status();
    let r = manager.begin(TransportKind::File);
    match r {
        Ok(()) => Ok(()),
        Err(_) => {
            match before {
                MigrationStatus::Active => {},
                _ => {
                    let _ = manager.set_status(MigrationStatus::Failed);
                },
            }
            Err(Response::of(&r))
        },
    }
}

/// Takes a snapshot: the stream of the machine is appended to `out`, for
/// the caller to store, and the status ends as `Completed`. While an
/// operation is set up or active the request gets an error and nothing is
/// written. A request refused while an operation is active leaves that
/// operation undisturbed; one refused in any other status ends in `Failed`,
/// with the transport let go.
pub fn snapshot<D: StateTransfer>(
    manager: &mut MigrationManager<D>,
    memory: &GuestMemory,
    out: &mut Vec<u8>,
) -> (response: Response)
    requires
        old(manager).wf(),
        memory.wf(),
    ensures
        final(manager).wf(),
        startable(*old(manager)) ==> response == Response::Empty && final(manager).status_spec()
            == MigrationStatus::Completed && final(manager).transport().is_none()
            && all_resumed_after(*old(manager), *final(manager)) && final(out)@ == old(out)@
            + stream_of(old(manager).devices(), memory@, BLOCK_LEN_MAX),
        !startable(*old(manager)) ==> final(out)@ == old(out)@ && final(manager).devices()
            == old(manager).devices() && answers(response, refusal(old(manager).status_spec())),
        !startable(*old(manager)) && old(manager).status_spec() == MigrationStatus::Active
            ==> unchanged(*old(manager), *final(manager)),
        !startable(*old(manager)) && old(manager).status_spec() != MigrationStatus::Active
            ==> final(manager).status_spec() == MigrationStatus::Failed
            && final(manager).transport().is_none(),
{
    match snapshot_setup(manager) {
        Err(response) => response,
        Ok(()) => {
            let r = manager.run(memory, BLOCK_LEN_MAX, out);
            Response::of(&r)
        },
    }
}

/// Sets up a migration over a socket of the given kind: the status becomes
/// `Setup` and the socket is held as the transport. While an operation is
/// set up or active the request is refused as an invalid state. A request
/// refused while an operation is active leaves that operation undisturbed;
/// one refused in any other status ends as a failed operation does: every
/// device is resumed, the transport is let go and the status is `Failed`.
pub fn migration_setup<D: StateTransfer>(
    manager: &mut MigrationManager<D>,
    kind: TransportKind,
) -> (r: Result<(), Response>)
    requires
        old(manager).wf(),
    ensures
        final(manager).wf(),
        startable(*old(manager)) ==> r.is_ok() && final(manager).status_spec()
            == MigrationStatus::Setup && final(manager).transport() == Some(kind)
            && final(manager).devices() == old(manager).devices(),
        !startable(*old(manager)) ==> r.is_err() && answers(
            r->Err_0,
            refusal(old(manager).status_spec()),
        ),
        !startable(*old(manager)) && old(manager).status_spec() == MigrationStatus::Active
            ==> unchanged(*old(manager), *final(manager)),
        !startable(*old(manager)) && old(manager).status_spec() != MigrationStatus::Active
            ==> final(manager).status_spec() == MigrationStatus::Failed
            && final(manager).transport().is_none()
            && all_resumed_after(*old(manager), *final(manager)),
{
    let before = manager.status();
    let r = manager.begin(kind);
    match r {
        Ok(()) => Ok(()),
        Err(_) => {
            match before {
                MigrationStatus::Active => {},
                _ => {
                    manager.fail();
                },
            }
            Err(Response::of(&r))
        },
    }
}

/// Ends a snapshot or migration whose transport failed after the operation
/// had started: the machine is recovered, the status becomes `Failed`, and
/// the response reports the failure of the transport or, for a file, of the
/// file system.
pub fn transfer_failed<D: StateTransfer>(
    manager: &mut MigrationManager<D>,
    kind: TransportKind,
) -> (response: Response)
    requires
        old(manager).wf(),
    ensures
        final(manager).wf(),
        final(manager).status_spec() == MigrationStatus::Failed,
        final(manager).transport().is_none(),
        all_resumed_after(*old(manager), *final(manager)),
        kind == TransportKind::File ==> answers(response, Err(MigrationError::Io)),
        kind != TransportKind::File ==> answers(response, Err(MigrationError::Transport)),
{
    manager.fail();
    let r: Result<(), MigrationError> = match kind {
        TransportKind::File => Err(MigrationError::Io),
        _ => Err(MigrationError::Transport),
    };
    Response::of(&r)
}

/// What a request to migrate gets once the caller has tried to connect.
/// Where connecting failed, the response reports that failure and no
/// transfer is to be started; otherwise the request is acknowledged and the
/// transfer runs over a transport of the given kind. The manager is not
/// involved, so the status is as before either way.
pub fn migration_mode(
    kind: TransportKind,
    connected: Result<(), String>,
) -> (r: (Response, Option<TransportKind>))
    ensures
        match connected {
            Ok(()) => r.0 == Response::Empty && r.1 == Some(kind),
            Err(desc) => r.1.is_none() && (match r.0 {
                Response::Error { class, desc: text } => class@ == generic_class() && text == desc,
                _ => false,
            }),
        },
{
    match connected {
        Ok(()) => (Response::Empty, Some(kind)),
        Err(desc) => (Response::generic_error(desc), None),
    }
}

/// Starts to migrate over a Unix-domain socket, once the caller has tried
/// to connect it.
pub fn migration_unix_mode(connected: Result<(), String>) -> (r: (Response, Option<TransportKind>))
    ensures
        match connected {
            Ok(()) => r.0 == Response::Empty && r.1 == Some(TransportKind::UnixSocket),
            Err(desc) => r.1.is_none() && (match r.0 {
                Response::Error { class, desc: text } => class@ == generic_class() && text == desc,
                _ => false,
            }),
        },
{
    migration_mode(TransportKind::UnixSocket, connected)
}

/// Starts to migrate over a TCP socket, once the caller has tried to connect
/// it.
pub fn migration_tcp_mode(connected: Result<(), String>) -> (r: (Response, Option<TransportKind>))
    ensures
        match connected {
            Ok(()) => r.0 == Response::Empty && r.1 == Some(TransportKind::TcpSocket),
            Err(desc) => r.1.is_none() && (match r.0 {
                Response::Error { class, desc: text } => class@ == generic_class() && text == desc,
                _ => false,
            }),
        },
{
    migration_mode(TransportKind::TcpSocket, connected)
}

/// The description of an error leads with the name of the error's kind.
pub proof fn lemma_text_leads_with_kind(e: MigrationError)
    ensures
        error_text(e).len() >= crate::error::error_class(e).len(),
        error_text(e).take(crate::error::error_class(e).len() as int) == crate::error::error_class(
            e,
        ),
{
    reveal_strlit("InvalidConfig");
    reveal_strlit("InvalidState");
    reveal_strlit("VersionIncompatible");
    reveal_strlit("Corrupt");
    reveal_strlit("Transport");
    reveal_strlit("Io");
    reveal_strlit("InvalidConfig: the request carries parameters that cannot be used");
    reveal_strlit("InvalidState: the migration status does not allow the operation");
    reveal_strlit("VersionIncompatible: a device state descriptor is not the one known here");
    reveal_strlit("Corrupt: the stream is corrupt");
    reveal_strlit("Transport: the transport failed or timed out");
    reveal_strlit("Io: the file system failed");
    assert(error_text(e).take(crate::error::error_class(e).len() as int)
        =~= crate::error::error_class(e));
}

} // verus!
