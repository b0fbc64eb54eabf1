//! The receiving side: a stream is read frame by frame, each descriptor is
//! held against the registry before its record is restored, and memory
//! frames are replayed into guest memory.

use vstd::prelude::*;
use crate::codec::{from, read_frame, read_header, Frame};
use crate::descriptor::{fields_width, DescSpec};
use crate::device::StateTransfer;
use crate::error::MigrationError;
use crate::ram::{lemma_read_after_write, mem_read, mem_write, GuestMemory, RamSpec};
use crate::registry::{has_id, unique_ids, EntrySpec, Registry};
use crate::wire::{desc_fits, enc_frame, lemma_parse_frame, parse_frame, parse_header, FrameSpec};

verus! {

/// How far a stream has been read.
#[derive(Clone, Copy, Debug, PartialEq, Eq, Structural)]
pub enum ReceivePhase {
    /// Device frames may still come.
    Devices,
    /// A memory frame was read: only memory frames and the end may follow.
    Memory,
    /// The end marker was read: nothing may follow.
    Done,
}

/// Why a frame or a stream is refused, as contracts see it.
pub enum Refusal {
    /// A descriptor differs from the registered one, or none is registered
    /// under its device identifier.
    Incompatible { expected: Option<DescSpec>, received: DescSpec },
    /// A frame is out of place or does not have the announced shape.
    Corrupt,
}

/// What replaying a stream leaves behind.
pub struct Outcome {
    /// The devices after the frames that were applied.
    pub devices: Seq<EntrySpec>,
    /// Guest memory after the frames that were applied.
    pub ram: Seq<RamSpec>,
    /// Whether the whole stream was applied.
    pub result: Result<(), Refusal>,
}

/// Whether the error `e` reports the refusal `r`.
pub open spec fn reports(e: MigrationError, r: Refusal) -> bool {
    match r {
        Refusal::Corrupt => e == MigrationError::Corrupt,
        Refusal::Incompatible { expected, received } => match e {
            MigrationError::VersionIncompatible { expected: local, received: incoming } => {
                &&& incoming@ == received
                &&& local.is_some() == expected.is_some()
                &&& local.is_some() ==> local->Some_0@ == expected->Some_0
            },
            _ => false,
        },
    }
}

/// The position of the device registered under `id`.
pub open spec fn index_of(devices: Seq<EntrySpec>, id: Seq<u8>) -> Option<int> {
    if has_id(devices, id) {
        Some(choose|i: int| 0 <= i < devices.len() && (#[trigger] devices[i]).desc.device_id == id)
    } else {
        None
    }
}

/// What a frame does to the devices and to guest memory, and the phase in
/// which it leaves the stream.
///
/// A device frame is taken only before the first memory frame. Its
/// descriptor must equal the one registered under the same identifier, and
/// its record must be as wide as the descriptor says; the device then holds
/// that record. A memory frame must lie within one range of guest memory,
/// which then holds its content. Nothing is taken behind the end marker.
pub open spec fn frame_effect(
    devices: Seq<EntrySpec>,
    ram: Seq<RamSpec>,
    phase: ReceivePhase,
    frame: FrameSpec,
) -> Result<(Seq<EntrySpec>, Seq<RamSpec>, ReceivePhase), Refusal> {
    match frame {
        FrameSpec::Device { desc, payload } => {
            if phase != ReceivePhase::Devices {
                Err(Refusal::Corrupt)
            } else {
                match index_of(devices, desc.device_id) {
                    None => Err(Refusal::Incompatible { expected: None, received: desc }),
                    Some(i) => {
                        if devices[i].desc != desc {
                            Err(
                                Refusal::Incompatible {
                                    expected: Some(devices[i].desc),
                                    received: desc,
                                },
                            )
                        } else if payload.len() != fields_width(desc.fields) {
                            Err(Refusal::Corrupt)
                        } else {
                            Ok(
                                (
                                    devices.update(i, EntrySpec { state: payload, ..devices[i] }),
                                    ram,
                                    ReceivePhase::Devices,
                                ),
                            )
                        }
                    },
                }
            }
        },
        FrameSpec::Memory { base, data } => {
            if phase == ReceivePhase::Done {
                Err(Refusal::Corrupt)
            } else {
                match mem_write(ram, base, data) {
                    None => Err(Refusal::Corrupt),
                    Some(after) => Ok((devices, after, ReceivePhase::Memory)),
                }
            }
        },
        FrameSpec::End => {
            if phase == ReceivePhase::Done {
                Err(Refusal::Corrupt)
            } else {
                Ok((devices, ram, ReceivePhase::Done))
            }
        },
    }
}

/// What replaying the frames in `s` leaves behind. The frames are applied
/// one by one until one is refused, the bytes are no frame, or the end
/// marker was read; bytes behind the end marker are refused as corrupt.
///
/// Reading a frame always takes at least one byte, so the test on the
/// lengths, which lets the definition end, never fails.
pub open spec fn replay_frames(
    devices: Seq<EntrySpec>,
    ram: Seq<RamSpec>,
    phase: ReceivePhase,
    s: Seq<u8>,
) -> Outcome
    decreases s.len(),
{
    match parse_frame(s) {
        None => Outcome { devices, ram, result: Err(Refusal::Corrupt) },
        Some((frame, rest)) => match frame_effect(devices, ram, phase, frame) {
            Err(refusal) => Outcome { devices, ram, result: Err(refusal) },
            Ok((devices2, ram2, phase2)) => {
                if phase2 == ReceivePhase::Done {
                    Outcome {
                        devices: devices2,
                        ram: ram2,
                        result: if rest.len() == 0 {
                            Ok(())
                        } else {
                            Err(Refusal::Corrupt)
                        },
                    }
                } else if rest.len() < s.len() {
                    replay_frames(devices2, ram2, phase2, rest)
                } else {
                    Outcome { devices: devices2, ram: ram2, result: Err(Refusal::Corrupt) }
                }
            },
        },
    }
}

/// What replaying the stream `s` leaves behind: nothing is applied unless it
/// begins with the header.
pub open spec fn replay(devices: Seq<EntrySpec>, ram: Seq<RamSpec>, s: Seq<u8>) -> Outcome {
    match parse_header(s) {
        None => Outcome { devices, ram, result: Err(Refusal::Corrupt) },
        Some(rest) => replay_frames(devices, ram, ReceivePhase::Devices, rest),
    }
}

/// Among unique identifiers the position of a device is the one position
/// with its identifier.
pub proof fn lemma_index_of(devices: Seq<EntrySpec>, id: Seq<u8>, i: int)
    requires
        unique_ids(devices),
        0 <= i < devices.len(),
        devices[i].desc.device_id == id,
    ensures
        index_of(devices, id) == Some(i),
{
    let k = choose|k: int| 0 <= k < devices.len() && (#[trigger] devices[k]).desc.device_id == id;
    if k < i {
        assert(devices[k].desc.device_id != devices[i].desc.device_id);
    } else if i < k {
        assert(devices[i].desc.device_id != devices[k].desc.device_id);
    }
}

/// A descriptor that differs from the one registered under its device
/// identifier, in its version or in any field, is refused as incompatible,
/// whatever record comes with it.
pub proof fn lemma_mismatch_refused(
    devices: Seq<EntrySpec>,
    ram: Seq<RamSpec>,
    i: int,
    received: DescSpec,
    payload: Seq<u8>,
)
    requires
        unique_ids(devices),
        0 <= i < devices.len(),
        devices[i].desc.device_id == received.device_id,
        devices[i].desc != received,
    ensures
        frame_effect(
            devices,
            ram,
            ReceivePhase::Devices,
            FrameSpec::Device { desc: received, payload },
        ) == Err::<(Seq<EntrySpec>, Seq<RamSpec>, ReceivePhase), Refusal>(
            Refusal::Incompatible { expected: Some(devices[i].desc), received },
        ),
{
    lemma_index_of(devices, received.device_id, i);
}

/// A destination that knows a device at version `n` refuses its descriptor
/// at version `n + 1`.
pub proof fn lemma_newer_version_refused(
    devices: Seq<EntrySpec>,
    ram: Seq<RamSpec>,
    i: int,
    payload: Seq<u8>,
)
    requires
        unique_ids(devices),
        0 <= i < devices.len(),
        devices[i].desc.version < u32::MAX,
    ensures
        frame_effect(
            devices,
            ram,
            ReceivePhase::Devices,
            FrameSpec::Device {
                desc: DescSpec {
                    version: (devices[i].desc.version + 1) as u32,
                    ..devices[i].desc
                },
                payload,
            },
        ).is_err(),
{
    let received = DescSpec { version: (devices[i].desc.version + 1) as u32, ..devices[i].desc };
    lemma_mismatch_refused(devices, ram, i, received, payload);
}

/// A device frame that was written is read back, with what follows it left
/// over, and applied: the device registered under the frame's identifier,
/// with the same descriptor, then holds the record of the frame, and no
/// other device and no memory has changed.
pub proof fn lemma_device_frame_replayed(
    devices: Seq<EntrySpec>,
    ram: Seq<RamSpec>,
    i: int,
    payload: Seq<u8>,
    rest: Seq<u8>,
)
    requires
        unique_ids(devices),
        0 <= i < devices.len(),
        desc_fits(devices[i].desc),
        payload.len() == fields_width(devices[i].desc.fields),
        payload.len() <= u32::MAX,
    ensures
        parse_frame(
            enc_frame(FrameSpec::Device { desc: devices[i].desc, payload }) + rest,
        ) == Some((FrameSpec::Device { desc: devices[i].desc, payload }, rest)),
        frame_effect(
            devices,
            ram,
            ReceivePhase::Devices,
            FrameSpec::Device { desc: devices[i].desc, payload },
        ) == Ok::<(Seq<EntrySpec>, Seq<RamSpec>, ReceivePhase), Refusal>(
            (
                devices.update(i, EntrySpec { state: payload, ..devices[i] }),
                ram,
                ReceivePhase::Devices,
            ),
        ),
{
    let frame = FrameSpec::Device { desc: devices[i].desc, payload };
    lemma_parse_frame(frame, rest);
    lemma_index_of(devices, devices[i].desc.device_id, i);
}

/// A memory frame that was written is read back, with what follows it left
/// over, and applied: where the frame lies within guest memory, reading its
/// range afterwards gives the content of the frame, byte for byte.
pub proof fn lemma_memory_frame_replayed(
    devices: Seq<EntrySpec>,
    ram: Seq<RamSpec>,
    phase: ReceivePhase,
    base: u64,
    data: Seq<u8>,
    rest: Seq<u8>,
)
    requires
        phase != ReceivePhase::Done,
        data.len() <= u64::MAX,
        mem_write(ram, base, data).is_some(),
    ensures
        parse_frame(enc_frame(FrameSpec::Memory { base, data }) + rest) == Some(
            (FrameSpec::Memory { base, data }, rest),
        ),
        frame_effect(devices, ram, phase, FrameSpec::Memory { base, data }) == Ok::<
            (Seq<EntrySpec>, Seq<RamSpec>, ReceivePhase),
            Refusal,
        >((devices, mem_write(ram, base, data)->Some_0, ReceivePhase::Memory)),
        mem_read(mem_write(ram, base, data)->Some_0, base, data.len()) == Some(data),
{
    lemma_parse_frame(FrameSpec::Memory { base, data }, rest);
    lemma_read_after_write(ram, base, data);
}

/// Applies one frame. Where the frame is refused, neither a device nor
/// guest memory has changed.
pub fn apply_frame<D: StateTransfer>(
    registry: &mut Registry<D>,
    memory: &mut GuestMemory,
    phase: ReceivePhase,
    frame: &Frame,
) -> (r: Result<ReceivePhase, MigrationError>)
    requires
        old(registry).wf(),
        old(memory).wf(),
    ensures
        final(registry).wf(),
        final(memory).wf(),
        match frame_effect(old(registry)@, old(memory)@, phase, frame@) {
            Ok((devices, ram, next)) => r == Ok::<ReceivePhase, MigrationError>(next)
                && final(registry)@ == devices && final(memory)@ == ram,
            Err(refusal) => r.is_err() && reports(r->Err_0, refusal)
                && final(registry)@ == old(registry)@ && final(memory)@ == old(memory)@,
        },
{
    proof {
        registry.lemma_wf();
    }
    match frame {
        Frame::Device { desc, payload } => {
            match phase {
                ReceivePhase::Devices => {},
                _ => {
                    return Err(MigrationError::Corrupt);
                },
            }
            let i = match registry.check_incoming(desc) {
                Err(e) => {
                    proof {
                        if e is VersionIncompatible && e->expected is Some {
                            let local = e->expected->Some_0;
                            let k = choose|k: int|
                                0 <= k < registry@.len() && (#[trigger] registry@[k]).desc
                                    == local@;
                            lemma_index_of(registry@, desc@.device_id, k);
                        }
                    }
                    return Err(e);
                },
                Ok(i) => i,
            };
            proof {
                lemma_index_of(registry@, desc@.device_id, i as int);
            }
            match registry.restore_at(i, payload.as_slice()) {
                Err(e) => Err(e),
                Ok(()) => Ok(ReceivePhase::Devices),
            }
        },
        Frame::Memory { base, data } => {
            match phase {
                ReceivePhase::Done => {
                    return Err(MigrationError::Corrupt);
                },
                _ => {},
            }
            match memory.write(*base, data.as_slice()) {
                Err(e) => Err(e),
                Ok(()) => Ok(ReceivePhase::Memory),
            }
        },
        Frame::End => {
            match phase {
                ReceivePhase::Done => Err(MigrationError::Corrupt),
                _ => Ok(ReceivePhase::Done),
            }
        },
    }
}

/// Replays a stream into the registry and guest memory. The result is `Ok`
/// where every frame up to the end marker was applied and nothing follows
/// the marker. Otherwise the error reports the first refusal, and devices
/// and memory are as the frames before it left them.
pub fn receive<D: StateTransfer>(
    registry: &mut Registry<D>,
    memory: &mut GuestMemory,
    data: &[u8],
) -> (r: Result<(), MigrationError>)
    requires
        old(registry).wf(),
        old(memory).wf(),
    ensures
        final(registry).wf(),
        final(memory).wf(),
        final(registry)@ == replay(old(registry)@, old(memory)@, data@).devices,
        final(memory)@ == replay(old(registry)@, old(memory)@, data@).ram,
        match replay(old(registry)@, old(memory)@, data@).result {
            Ok(()) => r.is_ok(),
            Err(refusal) => r.is_err() && reports(r->Err_0, refusal),
        },
{
    let ghost devices0 = registry@;
    let ghost ram0 = memory@;
    let ghost goal = replay(devices0, ram0, data@);
    let mut pos: usize = match read_header(data) {
        Err(e) => {
            return Err(e);
        },
        Ok(pos) => pos,
    };
    let mut phase = ReceivePhase::Devices;
    loop
        invariant
            registry.wf(),
            memory.wf(),
            devices0 == old(registry)@,
            ram0 == old(memory)@,
            goal == replay(devices0, ram0, data@),
            pos <= data@.len(),
            phase != ReceivePhase::Done,
            goal == replay_frames(registry@, memory@, phase, from(data@, pos as int)),
        ensures
            registry.wf(),
            memory.wf(),
        decreases data@.len() - pos,
    {
        let (frame, next) = match read_frame(data, pos) {
            Err(e) => {
                return Err(e);
            },
            Ok(found) => found,
        };
        let ghost rest = from(data@, next as int);
        assert(rest.len() < from(data@, pos as int).len());
        match apply_frame(registry, memory, phase, &frame) {
            Err(e) => {
                return Err(e);
            },
            Ok(after) => {
                match after {
                    ReceivePhase::Done => {
                        if next == data.len() {
                            return Ok(());
                        } else {
                            return Err(MigrationError::Corrupt);
                        }
                    },
                    _ => {
                        phase = after;
                        pos = next;
                    },
                }
            },
        }
    }
}

} // verus!
