//! The migration manager: the one place that drives the status, owns the
//! registry and sequences a transfer.
//!
//! The manager does no input or output. A transfer is a series of calls,
//! each of which appends to a byte vector that the caller hands to its
//! transport; between two memory blocks the caller asks for the next step,
//! and that is where a cancellation is noticed.

use vstd::prelude::*;
use crate::codec::{write_frame, write_header, Frame};
use crate::descriptor::{fields_width, well_formed, DeviceStateDesc};
use crate::device::StateTransfer;
use crate::error::MigrationError;
use crate::memory::{region_blocks, MemBlock, MemoryEnumerator, BLOCK_LEN_MAX};
use crate::ram::{layout, lemma_block_readable, mem_read, GuestMemory, RamSpec};
use crate::receive::{replay, reports};
use crate::registry::{all_resumed, has_id, EntrySpec, Registry};
use crate::status::{legal_transition, MigrationStatus, StatusMachine};
use crate::wire::{enc_frame, enc_header, FrameSpec};

verus! {

/// The default timeout of a network transport, for reading and for writing,
/// in seconds.
pub const NETWORK_TIMEOUT_SECS: u64 = 30;

/// The medium that carries a stream.
#[derive(Clone, Copy, Debug, PartialEq, Eq, Structural)]
pub enum TransportKind {
    /// A local file.
    File,
    /// A Unix-domain socket.
    UnixSocket,
    /// A TCP socket.
    TcpSocket,
}

/// The timeout that a transport gets by default: 30 seconds for a socket,
/// none for a file.
pub open spec fn default_timeout(kind: TransportKind) -> Option<u64> {
    match kind {
        TransportKind::File => None,
        TransportKind::UnixSocket => Some(NETWORK_TIMEOUT_SECS),
        TransportKind::TcpSocket => Some(NETWORK_TIMEOUT_SECS),
    }
}

impl TransportKind {
    /// The timeout for reading and writing, in seconds, if there is one.
    pub fn timeout_secs(self) -> (t: Option<u64>)
        ensures
            t == default_timeout(self),
    {
        match self {
            TransportKind::File => None,
            _ => Some(NETWORK_TIMEOUT_SECS),
        }
    }
}

/// How far one step has brought a transfer.
#[derive(Clone, Copy, Debug, PartialEq, Eq, Structural)]
pub enum Progress {
    /// A block was written; there is more to do.
    More,
    /// The end marker was written; the operation is completed.
    Finished,
    /// The operation was no longer active; the machine was recovered.
    Stopped,
}

/// What the sender does next.
#[derive(Clone, Copy, Debug, PartialEq, Eq, Structural)]
pub enum SendStep {
    /// Read this block of guest memory and write it.
    Block(MemBlock),
    /// All memory was written: finish the stream.
    Finish,
    /// The operation is no longer active: write nothing more and recover.
    Stop,
}

/// The frames of the devices, one behind the other: each device's descriptor
/// and the record of its state.
pub open spec fn device_frames(entries: Seq<EntrySpec>) -> Seq<u8>
    decreases entries.len(),
{
    if entries.len() == 0 {
        Seq::<u8>::empty()
    } else {
        device_frames(entries.drop_last()) + enc_frame(
            FrameSpec::Device { desc: entries.last().desc, payload: entries.last().state },
        )
    }
}

/// What a block of guest memory holds.
pub open spec fn block_content(ram: Seq<RamSpec>, block: MemBlock) -> Seq<u8> {
    match mem_read(ram, block.base, block.len as nat) {
        Some(content) => content,
        None => Seq::<u8>::empty(),
    }
}

/// The frames of the blocks, one behind the other: each block's address and
/// content.
pub open spec fn memory_frames(ram: Seq<RamSpec>, blocks: Seq<MemBlock>) -> Seq<u8>
    decreases blocks.len(),
{
    if blocks.len() == 0 {
        Seq::<u8>::empty()
    } else {
        memory_frames(ram, blocks.drop_last()) + enc_frame(
            FrameSpec::Memory { base: blocks.last().base, data: block_content(ram, blocks.last()) },
        )
    }
}

/// The blocks into which guest memory is cut for a transfer: those that an
/// enumerator over its ranges yields. The definition is kept out of sight of
/// the prover unless it is revealed.
#[verifier::opaque]
pub open spec fn all_blocks(ram: Seq<RamSpec>, max_block: u64) -> Seq<MemBlock> {
    region_blocks(layout(ram), 0, max_block as nat)
}

/// The stream of a machine: header, device frames in the order of the
/// registry, memory frames in ascending order of address, end marker.
pub open spec fn stream_of(devices: Seq<EntrySpec>, ram: Seq<RamSpec>, max_block: u64) -> Seq<u8> {
    enc_header() + device_frames(devices) + memory_frames(ram, all_blocks(ram, max_block))
        + enc_frame(FrameSpec::End)
}

/// Appends the frame of a block of guest memory. A block that does not lie
/// within one range of guest memory is refused as corrupt, and nothing is
/// written.
pub fn write_block(out: &mut Vec<u8>, memory: &GuestMemory, block: MemBlock) -> (r: Result<
    (),
    MigrationError,
>)
    requires
        memory.wf(),
    ensures
        match mem_read(memory@, block.base, block.len as nat) {
            Some(content) => r.is_ok() && final(out)@ == old(out)@ + enc_frame(
                FrameSpec::Memory { base: block.base, data: content },
            ),
            None => r == Err::<(), MigrationError>(MigrationError::Corrupt) && final(out)@
                == old(out)@,
        },
{
    match memory.read(block.base, block.len) {
        None => Err(MigrationError::Corrupt),
        Some(data) => {
            assert(data@.len() == data.len());
            let frame = Frame::Memory { base: block.base, data };
            let written = write_frame(out, &frame);
            assert(written.is_ok());
            Ok(())
        },
    }
}

/// What a step that writes `block` does: where the block lies within guest
/// memory, its frame is appended and there is more to do; otherwise the block
/// is refused as corrupt and nothing is written.
pub open spec fn block_written(
    ram: Seq<RamSpec>,
    block: MemBlock,
    before: Seq<u8>,
    after: Seq<u8>,
    r: Result<Progress, MigrationError>,
) -> bool {
    match mem_read(ram, block.base, block.len as nat) {
        Some(content) => r == Ok::<Progress, MigrationError>(Progress::More) && after == before
            + enc_frame(FrameSpec::Memory { base: block.base, data: content }),
        None => r == Err::<Progress, MigrationError>(MigrationError::Corrupt) && after == before,
    }
}

/// The manager of one virtual machine.
pub struct MigrationManager<D: StateTransfer> {
    status: StatusMachine,
    registry: Registry<D>,
    transport: Option<TransportKind>,
}

/// Whether an operation can be started: the status has an edge to `Setup`,
/// which is so in every status but `Setup` and `Active`.
pub open spec fn startable<D: StateTransfer>(m: MigrationManager<D>) -> bool {
    legal_transition(m.status_spec(), MigrationStatus::Setup)
}

/// The statuses in which an operation may hold a transport: while it is set
/// up or active, and after a request to cancel until it has recovered.
pub open spec fn may_hold_transport(s: MigrationStatus) -> bool {
    s == MigrationStatus::Setup || s == MigrationStatus::Active || s == MigrationStatus::Canceled
}

/// The transport that is held after the status `new` was entered: none once
/// an operation has completed or failed, else the one held before.
pub open spec fn transport_after(
    held: Option<TransportKind>,
    new: MigrationStatus,
) -> Option<TransportKind> {
    if new == MigrationStatus::Completed || new == MigrationStatus::Failed {
        None
    } else {
        held
    }
}

/// The devices of `after` are those of `before` with the same states, none
/// of them quiesced.
pub open spec fn all_resumed_after<D: StateTransfer>(
    before: MigrationManager<D>,
    after: MigrationManager<D>,
) -> bool {
    after.devices() == all_resumed(before.devices())
}

/// Status, devices and transport of `after` are those of `before`.
pub open spec fn unchanged<D: StateTransfer>(
    before: MigrationManager<D>,
    after: MigrationManager<D>,
) -> bool {
    &&& after.status_spec() == before.status_spec()
    &&& after.devices() == before.devices()
    &&& after.transport() == before.transport()
}

impl<D: StateTransfer> MigrationManager<D> {
    /// The status.
    pub closed spec fn status_spec(&self) -> MigrationStatus {
        self.status@
    }

    /// The registered devices, in the order of their registration.
    pub closed spec fn devices(&self) -> Seq<EntrySpec> {
        self.registry@
    }

    /// The transport that an operation holds, if one does.
    pub closed spec fn transport(&self) -> Option<TransportKind> {
        self.transport
    }

    /// The registry is valid, and a transport is held only in a status in
    /// which an operation may hold one.
    pub closed spec fn wf(&self) -> bool {
        &&& self.registry.wf()
        &&& self.transport.is_some() ==> may_hold_transport(self.status@)
    }

    /// What a valid manager shows: a transport is held only while an
    /// operation is set up, active or canceled, and the devices have unique
    /// identifiers, well-formed descriptors, and records of the width of
    /// their descriptors.
    pub proof fn lemma_wf(&self)
        requires
            self.wf(),
        ensures
            self.transport().is_some() ==> may_hold_transport(self.status_spec()),
            crate::registry::unique_ids(self.devices()),
            forall|i: int|
                0 <= i < self.devices().len() ==> well_formed((#[trigger] self.devices()[i]).desc)
                    && self.devices()[i].state.len() == fields_width(
                    self.devices()[i].desc.fields,
                ),
    {
        self.registry.lemma_wf();
    }

    /// A manager without devices, on which nothing was started.
    pub fn new() -> (m: MigrationManager<D>)
        ensures
            m.wf(),
            m.status_spec() == MigrationStatus::Idle,
            m.devices() == Seq::<EntrySpec>::empty(),
            m.transport().is_none(),
    {
        MigrationManager {
            status: StatusMachine::new(),
            registry: Registry::new(),
            transport: None,
        }
    }

    /// Reads the status.
    pub fn status(&self) -> (s: MigrationStatus)
        ensures
            s == self.status_spec(),
    {
        self.status.status()
    }

    /// The transport that an operation holds, if one does.
    pub fn transport_kind(&self) -> (t: Option<TransportKind>)
        ensures
            t == self.transport(),
    {
        self.transport
    }

    /// The number of registered devices.
    pub fn device_count(&self) -> (n: usize)
        ensures
            n == self.devices().len(),
    {
        self.registry.len()
    }

    /// A copy of the descriptor of the device at position `i`.
    pub fn descriptor_at(&self, i: usize) -> (d: DeviceStateDesc)
        requires
            i < self.devices().len(),
        ensures
            d@ == self.devices()[i as int].desc,
    {
        self.registry.descriptor_at(i)
    }

    /// A copy of the record of the device at position `i`. The device is
    /// quiesced for the capture and resumed after it unless it was quiesced
    /// before, so that the manager is as it was.
    pub fn state_at(&mut self, i: usize) -> (bytes: Vec<u8>)
        requires
            old(self).wf(),
            i < old(self).devices().len(),
        ensures
            final(self).wf(),
            unchanged(*old(self), *final(self)),
            bytes@ == old(self).devices()[i as int].state,
    {
        self.registry.state_at(i)
    }

    /// Whether the device at position `i` is quiesced.
    pub fn quiesced_at(&self, i: usize) -> (q: bool)
        requires
            self.wf(),
            i < self.devices().len(),
        ensures
            q == self.devices()[i as int].quiesced,
    {
        self.registry.quiesced_at(i)
    }

    /// Quiesces the device at position `i`.
    pub fn quiesce_at(&mut self, i: usize)
        requires
            old(self).wf(),
            i < old(self).devices().len(),
        ensures
            final(self).wf(),
            final(self).status_spec() == old(self).status_spec(),
            final(self).transport() == old(self).transport(),
            final(self).devices() == old(self).devices().update(
                i as int,
                EntrySpec { quiesced: true, ..old(self).devices()[i as int] },
            ),
    {
        self.registry.quiesce_at(i)
    }

    /// Registers a device under `device_id`, behind those that are there. See
    /// `Registry::register` for what is refused.
    pub fn register(&mut self, device_id: &[u8], descriptor: DeviceStateDesc, hook: D) -> (r:
        Result<(), MigrationError>)
        requires
            old(self).wf(),
            hook.inv(),
        ensures
            final(self).wf(),
            final(self).status_spec() == old(self).status_spec(),
            final(self).transport() == old(self).transport(),
            (descriptor@.device_id == device_id@ && descriptor@ == hook.shape() && !has_id(
                old(self).devices(),
                device_id@,
            )) ==> r.is_ok() && final(self).devices() == old(self).devices().push(
                EntrySpec { desc: descriptor@, state: hook.encoded(), quiesced: hook.quiesced() },
            ),
            !(descriptor@.device_id == device_id@ && descriptor@ == hook.shape() && !has_id(
                old(self).devices(),
                device_id@,
            )) ==> r == Err::<(), MigrationError>(MigrationError::InvalidConfig)
                && final(self).devices() == old(self).devices(),
    {
        self.registry.register(device_id, descriptor, hook)
    }

    /// Takes the device registered under `device_id` out of the registry.
    pub fn unregister(&mut self, device_id: &[u8]) -> (removed: Option<D>)
        requires
            old(self).wf(),
        ensures
            final(self).wf(),
            final(self).status_spec() == old(self).status_spec(),
            final(self).transport() == old(self).transport(),
            !has_id(old(self).devices(), device_id@) ==> removed.is_none() && final(self).devices()
                == old(self).devices(),
            has_id(old(self).devices(), device_id@) ==> removed.is_some() && exists|i: int|
                0 <= i < old(self).devices().len()
                    && (#[trigger] old(self).devices()[i]).desc.device_id == device_id@
                    && final(self).devices() == old(self).devices().remove(i)
                    && removed->Some_0.encoded() == old(self).devices()[i].state
                    && removed->Some_0.shape() == old(self).devices()[i].desc
                    && removed->Some_0.inv(),
    {
        self.registry.unregister(device_id)
    }

    /// Starts an operation over a transport of the given kind: the status
    /// becomes `Setup` and the transport is held, in place of one that a
    /// canceled operation may still hold. Refused as an invalid state, with
    /// nothing changed, while an operation is set up or active.
    pub fn begin(&mut self, kind: TransportKind) -> (r: Result<(), MigrationError>)
        ensures
            old(self).wf() ==> final(self).wf(),
            final(self).devices() == old(self).devices(),
            startable(*old(self)) ==> r.is_ok() && final(self).status_spec()
                == MigrationStatus::Setup && final(self).transport() == Some(kind),
            !startable(*old(self)) ==> r == Err::<(), MigrationError>(
                MigrationError::InvalidState {
                    from: old(self).status_spec(),
                    to: MigrationStatus::Setup,
                },
            ) && unchanged(*old(self), *final(self)),
    {
        match self.status.set_status(MigrationStatus::Setup) {
            Ok(()) => {
                self.transport = Some(kind);
                Ok(())
            },
            Err(e) => Err(e),
        }
    }

    /// Enters `new` where the edge from the current status exists, and lets
    /// the transport go where `new` is `Completed` or `Failed`; otherwise
    /// reports an invalid state and changes nothing.
    pub fn set_status(&mut self, new: MigrationStatus) -> (r: Result<(), MigrationError>)
        ensures
            old(self).wf() ==> final(self).wf(),
            final(self).devices() == old(self).devices(),
            legal_transition(old(self).status_spec(), new) ==> r.is_ok()
                && final(self).status_spec() == new
                && final(self).transport() == transport_after(old(self).transport(), new),
            !legal_transition(old(self).status_spec(), new) ==> r == Err::<(), MigrationError>(
                MigrationError::InvalidState { from: old(self).status_spec(), to: new },
            ) && unchanged(*old(self), *final(self)),
    {
        match self.status.set_status(new) {
            Err(e) => Err(e),
            Ok(()) => {
                match new {
                    MigrationStatus::Completed | MigrationStatus::Failed => {
                        self.transport = None;
                    },
                    _ => {},
                }
                Ok(())
            },
        }
    }

    /// Asks the operation in flight to stop. Accepted while the status is
    /// `Active`, which then becomes `Canceled`; refused as an invalid state
    /// otherwise. Devices and transport are left to the transfer, which
    /// notices the request at its next step.
    pub fn cancel_migrate(&mut self) -> (r: Result<(), MigrationError>)
        ensures
            old(self).wf() ==> final(self).wf(),
            final(self).devices() == old(self).devices(),
            final(self).transport() == old(self).transport(),
            old(self).status_spec() == MigrationStatus::Active ==> r.is_ok()
                && final(self).status_spec() == MigrationStatus::Canceled,
            old(self).status_spec() != MigrationStatus::Active ==> r == Err::<(), MigrationError>(
                MigrationError::InvalidState {
                    from: old(self).status_spec(),
                    to: MigrationStatus::Canceled,
                },
            ) && final(self).status_spec() == old(self).status_spec(),
    {
        self.status.set_status(MigrationStatus::Canceled)
    }

    /// Brings the machine back to normal operation: every device is resumed,
    /// whether it was quiesced or not, and the transport is let go. No
    /// device state and no status changes.
    pub fn recover_from_migration(&mut self)
        requires
            old(self).wf(),
        ensures
            final(self).wf(),
            final(self).status_spec() == old(self).status_spec(),
            final(self).devices() == all_resumed(old(self).devices()),
            final(self).transport().is_none(),
    {
        self.registry.resume_all();
        self.transport = None;
    }

    /// Ends an operation that failed: the machine is recovered and the
    /// status becomes `Failed`.
    pub fn fail(&mut self)
        requires
            old(self).wf(),
        ensures
            final(self).wf(),
            final(self).status_spec() == MigrationStatus::Failed,
            final(self).devices() == all_resumed(old(self).devices()),
            final(self).transport().is_none(),
    {
        self.recover_from_migration();
        let _ = self.status.set_status(MigrationStatus::Failed);
    }

    /// Writes the header and, for each device in the order of the registry,
    /// its descriptor and its record. Each device is quiesced for its
    /// capture and resumed at once.
    pub fn write_devices(&mut self, out: &mut Vec<u8>)
        requires
            old(self).wf(),
        ensures
            final(self).wf(),
            final(self).status_spec() == old(self).status_spec(),
            final(self).transport() == old(self).transport(),
            final(self).devices() == all_resumed(old(self).devices()),
            final(out)@ == old(out)@ + enc_header() + device_frames(old(self).devices()),
    {
        let ghost start = self.registry@;
        let ghost status0 = self.status;
        let ghost transport0 = self.transport;
        let ghost begin = out@;
        write_header(out);
        let ghost head = out@;
        let n = self.registry.len();
        let mut i: usize = 0;
        assert(device_frames(start.take(0)) =~= Seq::<u8>::empty());
        assert(out@ =~= head + device_frames(start.take(0)));
        while i < n
            invariant
                self.registry.wf(),
                self.status == status0,
                self.transport == transport0,
                n == start.len(),
                self.registry@.len() == n,
                i <= n,
                head == begin + enc_header(),
                out@ == head + device_frames(start.take(i as int)),
                forall|j: int|
                    0 <= j < n ==> (#[trigger] self.registry@[j]).desc == start[j].desc
                        && self.registry@[j].state == start[j].state,
                forall|j: int| 0 <= j < i ==> !(#[trigger] self.registry@[j]).quiesced,
                forall|j: int|
                    i <= j < n ==> (#[trigger] self.registry@[j]).quiesced == start[j].quiesced,
            decreases n - i,
        {
            let ghost before = self.registry@;
            proof {
                self.registry.lemma_wf();
            }
            let desc = self.registry.descriptor_at(i);
            let payload = self.registry.capture_at(i);
            let frame = Frame::Device { desc, payload };
            proof {
                assert(before[i as int].desc == start[i as int].desc);
                assert(well_formed(before[i as int].desc));
                assert(frame@ == FrameSpec::Device {
                    desc: start[i as int].desc,
                    payload: start[i as int].state,
                });
                assert(start.take(i + 1).drop_last() =~= start.take(i as int));
                assert(start.take(i + 1).last() == start[i as int]);
            }
            let written = write_frame(out, &frame);
            proof {
                assert(written.is_ok());
                assert(out@ =~= head + device_frames(start.take(i + 1)));
                assert forall|j: int| 0 <= j < n implies (#[trigger] self.registry@[j]).desc
                    == start[j].desc && self.registry@[j].state == start[j].state by {
                    assert(before[j].desc == start[j].desc);
                }
                assert forall|j: int| 0 <= j < i + 1 implies !(
                #[trigger] self.registry@[j]).quiesced by {
                    if j < i {
                        assert(!before[j].quiesced);
                    }
                }
                assert forall|j: int| i + 1 <= j < n implies (#[trigger] self.registry@[j]).quiesced
                    == start[j].quiesced by {
                    assert(before[j].quiesced == start[j].quiesced);
                }
            }
            i = i + 1;
        }
        proof {
            assert(start.take(i as int) =~= start);
            assert(self.registry@ =~= all_resumed(start));
        }
    }

    /// What the sender does next, asked between two memory blocks. While
    /// the status is `Active` this is the next block, or `Finish` once the
    /// enumerator has none left. With any other status, as after a request
    /// to cancel, it is `Stop`, and the enumerator is not advanced.
    pub fn next_step(&self, blocks: &mut MemoryEnumerator) -> (step: SendStep)
        requires
            old(blocks).wf(),
        ensures
            final(blocks).wf(),
            self.status_spec() != MigrationStatus::Active ==> step == SendStep::Stop
                && final(blocks).remaining() == old(blocks).remaining(),
            self.status_spec() == MigrationStatus::Active && old(blocks).remaining().len() == 0
                ==> step == SendStep::Finish && final(blocks).remaining()
                == old(blocks).remaining(),
            self.status_spec() == MigrationStatus::Active && old(blocks).remaining().len() > 0
                ==> step == SendStep::Block(old(blocks).remaining()[0])
                && final(blocks).remaining() == old(blocks).remaining().drop_first(),
    {
        match self.status.status() {
            MigrationStatus::Active => match blocks.next() {
                Some(block) => SendStep::Block(block),
                None => SendStep::Finish,
            },
            _ => SendStep::Stop,
        }
    }

    /// Starts the transfer of an operation that was set up: the status
    /// becomes `Active`, the header and the frames of the devices are appended
    /// to `out`, each device quiesced for its capture and resumed at once, and
    /// the result enumerates the blocks of guest memory that are to follow,
    /// none longer than the default maximum. Any status but `Setup` is
    /// refused as an invalid state, with nothing written and nothing changed.
    pub fn start(&mut self, memory: &GuestMemory, out: &mut Vec<u8>) -> (r: Result<
        MemoryEnumerator,
        MigrationError,
    >)
        requires
            old(self).wf(),
            memory.wf(),
        ensures
            final(self).wf(),
            old(self).status_spec() == MigrationStatus::Setup ==> r.is_ok() && r->Ok_0.wf()
                && r->Ok_0.remaining() == all_blocks(memory@, BLOCK_LEN_MAX)
                && final(self).status_spec() == MigrationStatus::Active
                && final(self).transport() == old(self).transport()
                && final(self).devices() == all_resumed(old(self).devices())
                && final(out)@ == old(out)@ + enc_header() + device_frames(old(self).devices()),
            old(self).status_spec() != MigrationStatus::Setup ==> r == Err::<
                MemoryEnumerator,
                MigrationError,
            >(
                MigrationError::InvalidState {
                    from: old(self).status_spec(),
                    to: MigrationStatus::Active,
                },
            ) && unchanged(*old(self), *final(self)) && final(out)@ == old(out)@,
    {
        match self.set_status(MigrationStatus::Active) {
            Err(e) => {
                return Err(e);
            },
            Ok(()) => {},
        }
        self.write_devices(out);
        proof {
            memory.lemma_wf();
            reveal(all_blocks);
        }
        let made = MemoryEnumerator::new(memory.regions(), BLOCK_LEN_MAX);
        assert(made.is_ok());
        made
    }

    /// Takes the transfer one step further, between two writes to the
    /// transport. What is to be written is appended to `out`.
    ///
    /// While the status is `Active`, the next block of guest memory is
    /// written, or, once the enumerator has none left, the end marker, with
    /// which the operation is completed. In any other status, as after a
    /// request to cancel, nothing is written, the enumerator is not advanced,
    /// and the machine is recovered: every device is resumed and the
    /// transport is let go, with the status left as it is. A block that does
    /// not lie within guest memory is refused as corrupt with nothing
    /// written.
    pub fn advance(
        &mut self,
        blocks: &mut MemoryEnumerator,
        memory: &GuestMemory,
        out: &mut Vec<u8>,
    ) -> (r: Result<Progress, MigrationError>)
        requires
            old(self).wf(),
            old(blocks).wf(),
            memory.wf(),
        ensures
            final(self).wf(),
            final(blocks).wf(),
            old(self).status_spec() != MigrationStatus::Active ==> r == Ok::<
                Progress,
                MigrationError,
            >(Progress::Stopped) && final(out)@ == old(out)@ && final(blocks).remaining()
                == old(blocks).remaining() && final(self).status_spec() == old(self).status_spec()
                && final(self).transport().is_none()
                && final(self).devices() == all_resumed(old(self).devices()),
            old(self).status_spec() == MigrationStatus::Active && old(blocks).remaining().len()
                == 0 ==> r == Ok::<Progress, MigrationError>(Progress::Finished)
                && final(out)@ == old(out)@ + enc_frame(FrameSpec::End)
                && final(self).status_spec() == MigrationStatus::Completed
                && final(self).transport().is_none()
                && final(self).devices() == old(self).devices(),
            old(self).status_spec() == MigrationStatus::Active && old(blocks).remaining().len() > 0
                ==> unchanged(*old(self), *final(self)) && final(blocks).remaining()
                == old(blocks).remaining().drop_first() && block_written(
                memory@,
                old(blocks).remaining()[0],
                old(out)@,
                final(out)@,
                r,
            ),
    {
        match self.next_step(blocks) {
            SendStep::Block(block) => match write_block(out, memory, block) {
                Err(e) => Err(e),
                Ok(()) => Ok(Progress::More),
            },
            SendStep::Finish => match self.finish(out) {
                Err(e) => Err(e),
                Ok(()) => Ok(Progress::Finished),
            },
            SendStep::Stop => {
                self.recover_from_migration();
                Ok(Progress::Stopped)
            },
        }
    }

    /// Ends an operation that wrote all it had to write: the end marker is
    /// appended, the status becomes `Completed` and the transport is let go.
    /// Refused as an invalid state, with nothing written or changed, unless
    /// the status is `Active`.
    pub fn finish(&mut self, out: &mut Vec<u8>) -> (r: Result<(), MigrationError>)
        ensures
            old(self).wf() ==> final(self).wf(),
            final(self).devices() == old(self).devices(),
            old(self).status_spec() == MigrationStatus::Active ==> r.is_ok()
                && final(self).status_spec() == MigrationStatus::Completed
                && final(self).transport().is_none()
                && final(out)@ == old(out)@ + enc_frame(FrameSpec::End),
            old(self).status_spec() != MigrationStatus::Active ==> r == Err::<(), MigrationError>(
                MigrationError::InvalidState {
                    from: old(self).status_spec(),
                    to: MigrationStatus::Completed,
                },
            ) && final(self).status_spec() == old(self).status_spec() && final(self).transport()
                == old(self).transport() && final(out)@ == old(out)@,
    {
        match self.status.set_status(MigrationStatus::Completed) {
            Err(e) => Err(e),
            Ok(()) => {
                let _ = write_frame(out, &Frame::End);
                self.transport = None;
                Ok(())
            },
        }
    }
}

impl<D: StateTransfer> MigrationManager<D> {
    /// Runs a whole operation: the status goes from a resting status over
    /// `Setup` and `Active` to `Completed`, and the stream of the machine is
    /// appended to `out`.
    ///
    /// A maximum block length of 0 is refused as an invalid configuration.
    /// While an operation is set up or active, the request is refused as an
    /// invalid state. In both cases nothing is written and nothing changes.
    pub fn send(
        &mut self,
        kind: TransportKind,
        memory: &GuestMemory,
        max_block: u64,
        out: &mut Vec<u8>,
    ) -> (r: Result<(), MigrationError>)
        requires
            old(self).wf(),
            memory.wf(),
        ensures
            final(self).wf(),
            max_block == 0 ==> r == Err::<(), MigrationError>(MigrationError::InvalidConfig)
                && unchanged(*old(self), *final(self)) && final(out)@ == old(out)@,
            max_block > 0 && !startable(*old(self)) ==> r == Err::<(), MigrationError>(
                MigrationError::InvalidState {
                    from: old(self).status_spec(),
                    to: MigrationStatus::Setup,
                },
            ) && unchanged(*old(self), *final(self)) && final(out)@ == old(out)@,
            max_block > 0 && startable(*old(self)) ==> r.is_ok()
                && final(self).status_spec() == MigrationStatus::Completed
                && final(self).transport().is_none()
                && final(self).devices() == all_resumed(old(self).devices())
                && final(out)@ == old(out)@ + stream_of(old(self).devices(), memory@, max_block),
    {
        if max_block == 0 {
            return Err(MigrationError::InvalidConfig);
        }
        match self.begin(kind) {
            Err(e) => Err(e),
            Ok(()) => self.run(memory, max_block, out),
        }
    }

    /// Runs an operation that was set up to its end: the status goes from
    /// `Setup` over `Active` to `Completed`, the stream of the machine is
    /// appended to `out`, and the transport is let go.
    ///
    /// A maximum block length of 0 is refused as an invalid configuration,
    /// and any status but `Setup` as an invalid state. In both cases nothing
    /// is written and nothing changes.
    pub fn run(&mut self, memory: &GuestMemory, max_block: u64, out: &mut Vec<u8>) -> (r: Result<
        (),
        MigrationError,
    >)
        requires
            old(self).wf(),
            memory.wf(),
        ensures
            final(self).wf(),
            max_block == 0 ==> r == Err::<(), MigrationError>(MigrationError::InvalidConfig)
                && unchanged(*old(self), *final(self)) && final(out)@ == old(out)@,
            max_block > 0 && old(self).status_spec() != MigrationStatus::Setup ==> r == Err::<
                (),
                MigrationError,
            >(
                MigrationError::InvalidState {
                    from: old(self).status_spec(),
                    to: MigrationStatus::Active,
                },
            ) && unchanged(*old(self), *final(self)) && final(out)@ == old(out)@,
            max_block > 0 && old(self).status_spec() == MigrationStatus::Setup ==> r.is_ok()
                && final(self).status_spec() == MigrationStatus::Completed
                && final(self).transport().is_none()
                && final(self).devices() == all_resumed(old(self).devices())
                && final(out)@ == old(out)@ + stream_of(old(self).devices(), memory@, max_block),
    {
        if max_block == 0 {
            return Err(MigrationError::InvalidConfig);
        }
        match self.set_status(MigrationStatus::Active) {
            Err(e) => {
                return Err(e);
            },
            Ok(()) => {},
        }
        self.write_devices(out);
        let stopped = self.write_memory(memory, max_block, out);
        assert(!stopped);
        let done = self.finish(out);
        proof {
            assert(out@ =~= old(out)@ + stream_of(old(self).devices(), memory@, max_block));
        }
        done
    }

    /// Writes guest memory block by block, asking for the next step before
    /// each block. The result tells whether the transfer was stopped: that
    /// is the case exactly where the status is not `Active`, and then
    /// nothing is written.
    pub fn write_memory(&self, memory: &GuestMemory, max_block: u64, out: &mut Vec<u8>) -> (stopped:
        bool)
        requires
            memory.wf(),
            max_block > 0,
        ensures
            stopped == (self.status_spec() != MigrationStatus::Active),
            stopped ==> final(out)@ == old(out)@,
            !stopped ==> final(out)@ == old(out)@ + memory_frames(
                memory@,
                all_blocks(memory@, max_block),
            ),
    {
        let ghost head = out@;
        let ghost ram = memory@;
        let ghost all = all_blocks(ram, max_block);
        proof {
            memory.lemma_wf();
        }
        let regions = memory.regions();
        let made = MemoryEnumerator::new(regions, max_block);
        assert(made.is_ok());
        let mut blocks = match made {
            Ok(blocks) => blocks,
            Err(_) => {
                return true;
            },
        };
        let ghost mut k: int = 0;
        proof {
            assert(blocks.remaining() == all) by {
                reveal(all_blocks);
            }
            assert(all.skip(0) =~= all);
            assert(all.take(0) =~= Seq::<MemBlock>::empty());
            assert(memory_frames(ram, all.take(0)) =~= Seq::<u8>::empty());
            assert(out@ =~= head + memory_frames(ram, all.take(0)));
        }
        loop
            invariant
                memory.wf(),
                ram == memory@,
                max_block > 0,
                all == all_blocks(ram, max_block),
                blocks.wf(),
                0 <= k <= all.len(),
                blocks.remaining() == all.skip(k),
                head == old(out)@,
                self.status_spec() != MigrationStatus::Active ==> k == 0,
                out@ == head + memory_frames(ram, all.take(k)),
            decreases all.len() - k,
        {
            match self.next_step(&mut blocks) {
                SendStep::Block(block) => {
                    let ghost before = out@;
                    proof {
                        memory.lemma_wf();
                        lemma_memory_step(ram, max_block, k);
                    }
                    let written = write_block(out, memory, block);
                    proof {
                        assert(written.is_ok());
                        assert(out@ == before + enc_frame(
                            FrameSpec::Memory { base: block.base, data: block_content(ram, block) },
                        ));
                        assert(out@ =~= head + memory_frames(ram, all.take(k + 1)));
                        k = k + 1;
                    }
                },
                SendStep::Finish => {
                    proof {
                        assert(all.take(k) =~= all);
                    }
                    return false;
                },
                SendStep::Stop => {
                    assert(out@ =~= head);
                    return true;
                },
            }
        }
    }

    /// Replays a stream into the devices of this machine and into guest
    /// memory. The result is `Ok` where every frame up to the end marker was
    /// applied and nothing follows the marker. Otherwise the error reports
    /// the first refusal, and devices and memory are as the frames before it
    /// left them. The status is not touched.
    pub fn receive(&mut self, memory: &mut GuestMemory, data: &[u8]) -> (r: Result<
        (),
        MigrationError,
    >)
        requires
            old(self).wf(),
            old(memory).wf(),
        ensures
            final(self).wf(),
            final(memory).wf(),
            final(self).status_spec() == old(self).status_spec(),
            final(self).transport() == old(self).transport(),
            final(self).devices() == replay(old(self).devices(), old(memory)@, data@).devices,
            final(memory)@ == replay(old(self).devices(), old(memory)@, data@).ram,
            match replay(old(self).devices(), old(memory)@, data@).result {
                Ok(()) => r.is_ok(),
                Err(refusal) => r.is_err() && reports(r->Err_0, refusal),
            },
    {
        crate::receive::receive(&mut self.registry, memory, data)
    }
}

/// Block `k` of guest memory can be read, its frame follows the frames of
/// the blocks before it, and the blocks behind it are those behind block
/// `k + 1` together with that block.
proof fn lemma_memory_step(ram: Seq<RamSpec>, max_block: u64, k: int)
    requires
        crate::memory::regions_ok(layout(ram)),
        forall|i: int| 0 <= i < ram.len() ==> (#[trigger] ram[i]).data.len() <= u64::MAX,
        max_block > 0,
        0 <= k < all_blocks(ram, max_block).len(),
    ensures
        mem_read(
            ram,
            all_blocks(ram, max_block)[k].base,
            all_blocks(ram, max_block)[k].len as nat,
        ).is_some(),
        memory_frames(ram, all_blocks(ram, max_block).take(k + 1)) == memory_frames(
            ram,
            all_blocks(ram, max_block).take(k),
        ) + enc_frame(
            FrameSpec::Memory {
                base: all_blocks(ram, max_block)[k].base,
                data: block_content(ram, all_blocks(ram, max_block)[k]),
            },
        ),
        all_blocks(ram, max_block).skip(k).drop_first() == all_blocks(ram, max_block).skip(k + 1),
        all_blocks(ram, max_block).skip(k)[0] == all_blocks(ram, max_block)[k],
{
    reveal(all_blocks);
    let all = all_blocks(ram, max_block);
    lemma_block_readable(ram, max_block as nat, k);
    assert(all.take(k + 1).drop_last() =~= all.take(k));
    assert(all.take(k + 1).last() == all[k]);
    assert(all.skip(k).drop_first() =~= all.skip(k + 1));
}

/// While an operation is set up or active, no second one can be started,
/// whatever transport the first one holds.
pub proof fn lemma_in_flight_not_startable<D: StateTransfer>(m: MigrationManager<D>)
    requires
        crate::status::in_flight(m.status_spec()),
    ensures
        !startable(m),
{
}

/// In every status but `Setup` and `Active` an operation can be started.
pub proof fn lemma_resting_startable<D: StateTransfer>(m: MigrationManager<D>)
    requires
        !crate::status::in_flight(m.status_spec()),
    ensures
        startable(m),
{
}

/// Recovering twice is recovering once.
pub proof fn lemma_recover_idempotent(entries: Seq<EntrySpec>)
    ensures
        all_resumed(all_resumed(entries)) == all_resumed(entries),
        all_resumed(entries).len() == entries.len(),
        forall|i: int|
            0 <= i < entries.len() ==> !(#[trigger] all_resumed(entries)[i]).quiesced
                && all_resumed(entries)[i].desc == entries[i].desc && all_resumed(entries)[i].state
                == entries[i].state,
{
    assert(all_resumed(all_resumed(entries)) =~= all_resumed(entries));
}

} // verus!
