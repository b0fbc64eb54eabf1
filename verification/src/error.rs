//! The errors of the migration subsystem.

use vstd::prelude::*;
use crate::descriptor::DeviceStateDesc;
use crate::status::MigrationStatus;

verus! {

/// Why a request to the subsystem was refused or an operation stopped.
#[derive(Debug, PartialEq, Eq)]
pub enum MigrationError {
    /// A request carried parameters that cannot be used.
    InvalidConfig,
    /// The status machine has no edge from `from` to `to`.
    InvalidState { from: MigrationStatus, to: MigrationStatus },
    /// A received descriptor differs from the one registered here under the
    /// same device identifier; `expected` is `None` where no device is
    /// registered under it.
    VersionIncompatible { expected: Option<DeviceStateDesc>, received: DeviceStateDesc },
    /// A payload or a frame does not have the shape that was announced.
    Corrupt,
    /// The stream failed or timed out.
    Transport,
    /// The local file system failed.
    Io,
}

/// The coarse class under which an error is reported.
pub open spec fn error_class(e: MigrationError) -> Seq<char> {
    match e {
        MigrationError::InvalidConfig => "InvalidConfig"@,
        MigrationError::InvalidState { .. } => "InvalidState"@,
        MigrationError::VersionIncompatible { .. } => "VersionIncompatible"@,
        MigrationError::Corrupt => "Corrupt"@,
        MigrationError::Transport => "Transport"@,
        MigrationError::Io => "Io"@,
    }
}

impl MigrationError {
    /// The name of the error's class.
    pub fn class(&self) -> (s: &'static str)
        ensures
            s@ == error_class(*self),
    {
        match self {
            MigrationError::InvalidConfig => "InvalidConfig",
            MigrationError::InvalidState { .. } => "InvalidState",
            MigrationError::VersionIncompatible { .. } => "VersionIncompatible",
            MigrationError::Corrupt => "Corrupt",
            MigrationError::Transport => "Transport",
            MigrationError::Io => "Io",
        }
    }
}

} // verus!
