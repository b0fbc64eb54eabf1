//! Live migration and snapshot support for a virtual machine monitor.
//!
//! The crate holds the rules of the subsystem: which status follows which,
//! how device state descriptors are compared, how the stream is framed, how
//! guest memory is cut into blocks, and what the manager does on each event.
//! Sockets, files and threads belong to the program around it.

pub mod error;
pub mod status;
pub mod gic;
pub mod bytes;
pub mod ramfb;
pub mod descriptor;
pub mod device;
pub mod registry;
pub mod wire;
pub mod codec;
pub mod memory;
pub mod ram;
pub mod receive;
pub mod manager;
pub mod control;
pub mod laws;

pub use control::{
    cancel_migrate, migration_tcp_mode, migration_unix_mode, query_migrate, snapshot,
};
pub use descriptor::{DeviceStateDesc, FieldDesc};
pub use device::StateTransfer;
pub use error::MigrationError;
pub use manager::MigrationManager;
pub use memory::MemBlock;
pub use status::MigrationStatus;
