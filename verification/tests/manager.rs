use migration::codec::{read_frame, write_frame, write_header, Frame};
use migration::descriptor::DeviceStateDesc;
use migration::device::FieldDevice;
use migration::error::MigrationError;
use migration::manager::{write_block, MigrationManager, Progress, SendStep, TransportKind};
use migration::memory::{MemBlock, MemoryEnumerator};
use migration::ram::GuestMemory;
use migration::receive::{apply_frame, ReceivePhase};
use migration::registry::Registry;
use migration::status::MigrationStatus;

fn desc(id: &[u8], version: u32, widths: &[u32]) -> DeviceStateDesc {
    let mut d = DeviceStateDesc::new(id, version);
    for (i, w) in widths.iter().enumerate() {
        assert!(d.push_field(format!("f{}", i).as_bytes(), *w));
    }
    d
}

fn device(id: &[u8], version: u32, widths: &[u32], values: &[u64]) -> FieldDevice {
    FieldDevice::new(desc(id, version, widths), values.to_vec()).unwrap()
}

fn machine(cpu: [u64; 2], gic: u64) -> MigrationManager<FieldDevice> {
    let mut m = MigrationManager::new();
    assert_eq!(
        m.register(b"cpu", desc(b"cpu", 1, &[8, 2]), device(b"cpu", 1, &[8, 2], &cpu)),
        Ok(())
    );
    assert_eq!(
        m.register(b"gic", desc(b"gic", 2, &[4]), device(b"gic", 2, &[4], &[gic])),
        Ok(())
    );
    m
}

fn ram(fill: u8) -> GuestMemory {
    let mut m = GuestMemory::new();
    assert_eq!(m.add_region(0x1000, (0..10u8).map(|i| i.wrapping_mul(fill)).collect()), Ok(()));
    assert_eq!(m.add_region(0x8000, vec![fill; 3]), Ok(()));
    m
}

#[test]
fn timeouts_by_transport() {
    assert_eq!(TransportKind::File.timeout_secs(), None);
    assert_eq!(TransportKind::UnixSocket.timeout_secs(), Some(30));
    assert_eq!(TransportKind::TcpSocket.timeout_secs(), Some(30));
}

#[test]
fn a_new_manager_rests() {
    let m: MigrationManager<FieldDevice> = MigrationManager::new();
    assert_eq!(m.status(), MigrationStatus::Idle);
    assert_eq!(m.device_count(), 0);
}

#[test]
fn a_second_operation_is_refused_while_one_is_in_flight() {
    let mut m = machine([1, 2], 3);
    assert_eq!(m.begin(TransportKind::TcpSocket), Ok(()));
    assert_eq!(m.status(), MigrationStatus::Setup);
    assert_eq!(
        m.begin(TransportKind::File),
        Err(MigrationError::InvalidState {
            from: MigrationStatus::Setup,
            to: MigrationStatus::Setup
        })
    );
    assert_eq!(m.status(), MigrationStatus::Setup);
    assert_eq!(m.set_status(MigrationStatus::Active), Ok(()));
    m.quiesce_at(0);
    let before = (m.state_at(0), m.state_at(1));
    assert_eq!(
        m.begin(TransportKind::File),
        Err(MigrationError::InvalidState {
            from: MigrationStatus::Active,
            to: MigrationStatus::Setup
        })
    );
    assert_eq!(m.status(), MigrationStatus::Active);
    assert!(m.quiesced_at(0));
    assert_eq!((m.state_at(0), m.state_at(1)), before);

    let mut out = vec![1, 2, 3];
    assert_eq!(
        m.send(TransportKind::File, &ram(1), 4, &mut out),
        Err(MigrationError::InvalidState {
            from: MigrationStatus::Active,
            to: MigrationStatus::Setup
        })
    );
    assert_eq!(out, vec![1, 2, 3]);
    assert_eq!(m.status(), MigrationStatus::Active);
    assert!(m.quiesced_at(0));

    let mut out = Vec::new();
    assert_eq!(m.finish(&mut out), Ok(()));
    assert_eq!(m.status(), MigrationStatus::Completed);
    assert_eq!(m.begin(TransportKind::File), Ok(()));
}

#[test]
fn a_new_operation_can_follow_a_canceled_one() {
    let mut m = machine([1, 2], 3);
    assert_eq!(m.begin(TransportKind::UnixSocket), Ok(()));
    assert_eq!(m.set_status(MigrationStatus::Active), Ok(()));
    assert_eq!(m.cancel_migrate(), Ok(()));
    assert_eq!(m.status(), MigrationStatus::Canceled);
    assert_eq!(m.transport_kind(), Some(TransportKind::UnixSocket));
    assert_eq!(m.begin(TransportKind::File), Ok(()));
    assert_eq!(m.status(), MigrationStatus::Setup);
    assert_eq!(m.transport_kind(), Some(TransportKind::File));
}

#[test]
fn the_transport_is_held_only_while_an_operation_may_hold_it() {
    let mut m = machine([1, 2], 3);
    assert_eq!(m.transport_kind(), None);
    assert_eq!(m.begin(TransportKind::TcpSocket), Ok(()));
    assert_eq!(m.transport_kind(), Some(TransportKind::TcpSocket));
    assert_eq!(m.set_status(MigrationStatus::Failed), Ok(()));
    assert_eq!(m.transport_kind(), None);
    assert_eq!(m.begin(TransportKind::TcpSocket), Ok(()));
    assert_eq!(m.set_status(MigrationStatus::Active), Ok(()));
    assert_eq!(m.transport_kind(), Some(TransportKind::TcpSocket));
    assert_eq!(m.set_status(MigrationStatus::Completed), Ok(()));
    assert_eq!(m.transport_kind(), None);
    assert_eq!(m.begin(TransportKind::UnixSocket), Ok(()));
    assert_eq!(m.set_status(MigrationStatus::Active), Ok(()));
    assert_eq!(m.cancel_migrate(), Ok(()));
    assert_eq!(m.transport_kind(), Some(TransportKind::UnixSocket));
    m.recover_from_migration();
    assert_eq!(m.transport_kind(), None);
    assert_eq!(m.status(), MigrationStatus::Canceled);
    assert_eq!(
        m.set_status(MigrationStatus::Active),
        Err(MigrationError::InvalidState {
            from: MigrationStatus::Canceled,
            to: MigrationStatus::Active
        })
    );
    assert_eq!(m.transport_kind(), None);
}

#[test]
fn an_operation_from_every_resting_status() {
    for prepare in 0..4 {
        let mut m = machine([1, 2], 3);
        match prepare {
            0 => {}
            1 => {
                let mut out = Vec::new();
                assert_eq!(m.send(TransportKind::File, &ram(1), 8, &mut out), Ok(()));
            }
            2 => m.fail(),
            _ => {
                assert_eq!(m.begin(TransportKind::TcpSocket), Ok(()));
                assert_eq!(m.set_status(MigrationStatus::Active), Ok(()));
                assert_eq!(m.cancel_migrate(), Ok(()));
            }
        }
        let mut out = Vec::new();
        assert_eq!(m.send(TransportKind::File, &ram(1), 8, &mut out), Ok(()));
        assert_eq!(m.status(), MigrationStatus::Completed);
        assert_eq!(m.transport_kind(), None);
        assert_eq!(&out[..4], b"VMSN");
    }
}

#[test]
fn run_needs_an_operation_that_was_set_up() {
    let mut m = machine([1, 2], 3);
    let mut out = vec![7];
    assert_eq!(
        m.run(&ram(1), 8, &mut out),
        Err(MigrationError::InvalidState {
            from: MigrationStatus::Idle,
            to: MigrationStatus::Active
        })
    );
    assert_eq!(out, vec![7]);
    assert_eq!(m.begin(TransportKind::File), Ok(()));
    assert_eq!(m.run(&ram(1), 0, &mut out), Err(MigrationError::InvalidConfig));
    assert_eq!(m.status(), MigrationStatus::Setup);
    assert_eq!(out, vec![7]);
    assert_eq!(m.run(&ram(1), 8, &mut out), Ok(()));
    assert_eq!(m.status(), MigrationStatus::Completed);
    let mut whole = vec![7];
    let mut again = machine([1, 2], 3);
    assert_eq!(again.send(TransportKind::File, &ram(1), 8, &mut whole), Ok(()));
    assert_eq!(out, whole);
}

#[test]
fn cancel_is_accepted_only_while_active() {
    let mut m = machine([1, 2], 3);
    assert_eq!(
        m.cancel_migrate(),
        Err(MigrationError::InvalidState {
            from: MigrationStatus::Idle,
            to: MigrationStatus::Canceled
        })
    );
    assert_eq!(m.status(), MigrationStatus::Idle);
    assert_eq!(m.begin(TransportKind::TcpSocket), Ok(()));
    assert_eq!(
        m.cancel_migrate(),
        Err(MigrationError::InvalidState {
            from: MigrationStatus::Setup,
            to: MigrationStatus::Canceled
        })
    );
    assert_eq!(m.set_status(MigrationStatus::Active), Ok(()));
    assert_eq!(m.cancel_migrate(), Ok(()));
    assert_eq!(m.status(), MigrationStatus::Canceled);
    assert_eq!(
        m.cancel_migrate(),
        Err(MigrationError::InvalidState {
            from: MigrationStatus::Canceled,
            to: MigrationStatus::Canceled
        })
    );
}

#[test]
fn a_cancellation_stops_the_writing_at_the_next_step() {
    let mut m = machine([1, 2], 3);
    let memory = ram(1);
    assert_eq!(m.begin(TransportKind::TcpSocket), Ok(()));
    assert_eq!(m.set_status(MigrationStatus::Active), Ok(()));
    let mut out = Vec::new();
    m.write_devices(&mut out);
    let mut blocks = MemoryEnumerator::new(memory.regions(), 4).unwrap();

    let first = m.next_step(&mut blocks);
    assert_eq!(first, SendStep::Block(MemBlock { base: 0x1000, len: 4, offset: 0 }));
    let block = MemBlock { base: 0x1000, len: 4, offset: 0 };
    assert_eq!(write_block(&mut out, &memory, block), Ok(()));
    let written = out.clone();

    assert_eq!(m.cancel_migrate(), Ok(()));
    assert_eq!(m.next_step(&mut blocks), SendStep::Stop);
    assert_eq!(m.next_step(&mut blocks), SendStep::Stop);
    assert!(m.write_memory(&memory, 4, &mut out));
    assert_eq!(out, written);
    assert_eq!(blocks.next(), Some(MemBlock { base: 0x1004, len: 4, offset: 4 }));

    m.recover_from_migration();
    assert_eq!(m.status(), MigrationStatus::Canceled);
    assert!(!m.quiesced_at(0));
    assert!(!m.quiesced_at(1));
    let mut cpu = m.unregister(b"cpu").unwrap();
    assert!(cpu.set_value(0, 99));
}

#[test]
fn a_failure_ends_in_failed_with_every_device_resumed() {
    let mut m = machine([1, 2], 3);
    assert_eq!(m.begin(TransportKind::TcpSocket), Ok(()));
    assert_eq!(m.set_status(MigrationStatus::Active), Ok(()));
    m.quiesce_at(0);
    m.quiesce_at(1);
    let states = (m.state_at(0), m.state_at(1));
    m.fail();
    assert_eq!(m.status(), MigrationStatus::Failed);
    assert!(!m.quiesced_at(0));
    assert!(!m.quiesced_at(1));
    assert_eq!((m.state_at(0), m.state_at(1)), states);
    assert_eq!(m.begin(TransportKind::TcpSocket), Ok(()));
    m.fail();
    let mut gic = m.unregister(b"gic").unwrap();
    assert!(gic.set_value(0, 42));
    assert_eq!(gic.value(0), Some(42));
    let mut cpu = m.unregister(b"cpu").unwrap();
    assert!(cpu.set_value(1, 7));
}

#[test]
fn recovery_is_idempotent() {
    let mut m = machine([1, 2], 3);
    m.recover_from_migration();
    assert_eq!(m.status(), MigrationStatus::Idle);
    m.quiesce_at(1);
    m.recover_from_migration();
    let once = (m.quiesced_at(0), m.quiesced_at(1), m.state_at(0), m.state_at(1), m.status());
    m.recover_from_migration();
    let twice = (m.quiesced_at(0), m.quiesced_at(1), m.state_at(0), m.state_at(1), m.status());
    assert_eq!(once, twice);
    assert_eq!(once.0, false);
    assert_eq!(once.1, false);
}

#[test]
fn finish_needs_an_active_operation() {
    let mut m = machine([1, 2], 3);
    let mut out = vec![5];
    assert_eq!(
        m.finish(&mut out),
        Err(MigrationError::InvalidState {
            from: MigrationStatus::Idle,
            to: MigrationStatus::Completed
        })
    );
    assert_eq!(out, vec![5]);
    assert_eq!(m.begin(TransportKind::File), Ok(()));
    assert_eq!(
        m.finish(&mut out),
        Err(MigrationError::InvalidState {
            from: MigrationStatus::Setup,
            to: MigrationStatus::Completed
        })
    );
    assert_eq!(m.set_status(MigrationStatus::Active), Ok(()));
    assert_eq!(m.finish(&mut out), Ok(()));
    assert_eq!(out, vec![5, 255]);
    assert_eq!(m.status(), MigrationStatus::Completed);
}

#[test]
fn the_stream_is_header_devices_memory_and_end() {
    let mut m = machine([0x0102, 0x0304], 0x0a0b_0c0d);
    let memory = ram(2);
    let mut out = Vec::new();
    assert_eq!(m.send(TransportKind::File, &memory, 4, &mut out), Ok(()));
    assert_eq!(m.status(), MigrationStatus::Completed);

    let mut expected = Vec::new();
    write_header(&mut expected);
    let frames = vec![
        Frame::Device {
            desc: desc(b"cpu", 1, &[8, 2]),
            payload: vec![2, 1, 0, 0, 0, 0, 0, 0, 4, 3],
        },
        Frame::Device { desc: desc(b"gic", 2, &[4]), payload: vec![0x0d, 0x0c, 0x0b, 0x0a] },
        Frame::Memory { base: 0x1000, data: vec![0, 2, 4, 6] },
        Frame::Memory { base: 0x1004, data: vec![8, 10, 12, 14] },
        Frame::Memory { base: 0x1008, data: vec![16, 18] },
        Frame::Memory { base: 0x8000, data: vec![2, 2, 2] },
        Frame::End,
    ];
    for f in &frames {
        assert_eq!(write_frame(&mut expected, f), Ok(()));
    }
    assert_eq!(out, expected);
    assert_eq!(&out[..8], b"VMSN\x01\x00\x00\x00");
    assert_eq!(*out.last().unwrap(), 255);
}

#[test]
fn a_block_length_of_zero_is_refused() {
    let mut m = machine([1, 2], 3);
    let mut out = Vec::new();
    assert_eq!(
        m.send(TransportKind::File, &ram(1), 0, &mut out),
        Err(MigrationError::InvalidConfig)
    );
    assert_eq!(m.status(), MigrationStatus::Idle);
    assert!(out.is_empty());
}

#[test]
fn the_destination_resumes_with_the_state_of_the_source() {
    let mut source = machine([0xdead_beef, 0x55], 0x1234);
    let source_ram = ram(3);
    let mut wire = Vec::new();
    assert_eq!(source.send(TransportKind::TcpSocket, &source_ram, 4, &mut wire), Ok(()));

    let mut destination = machine([0, 0], 0);
    let mut destination_ram = ram(0);
    assert_eq!(destination.receive(&mut destination_ram, &wire), Ok(()));
    assert_eq!(destination.state_at(0), source.state_at(0));
    assert_eq!(destination.state_at(1), source.state_at(1));
    assert_eq!(destination_ram.read(0x1000, 10), source_ram.read(0x1000, 10));
    assert_eq!(destination_ram.read(0x8000, 3), source_ram.read(0x8000, 3));
    assert_eq!(destination.status(), MigrationStatus::Idle);
    let cpu = destination.unregister(b"cpu").unwrap();
    assert_eq!(cpu.value(0), Some(0xdead_beef));
    assert_eq!(cpu.value(1), Some(0x55));
}

#[test]
fn devices_may_stand_in_another_order_on_the_destination() {
    let mut source = machine([7, 8], 9);
    let mut wire = Vec::new();
    assert_eq!(source.send(TransportKind::TcpSocket, &ram(1), 100, &mut wire), Ok(()));

    let mut destination: MigrationManager<FieldDevice> = MigrationManager::new();
    assert_eq!(
        destination.register(b"gic", desc(b"gic", 2, &[4]), device(b"gic", 2, &[4], &[0])),
        Ok(())
    );
    assert_eq!(
        destination.register(b"cpu", desc(b"cpu", 1, &[8, 2]), device(b"cpu", 1, &[8, 2], &[0, 0])),
        Ok(())
    );
    let mut memory = ram(0);
    assert_eq!(destination.receive(&mut memory, &wire), Ok(()));
    assert_eq!(destination.state_at(0), vec![9, 0, 0, 0]);
    assert_eq!(destination.state_at(1), vec![7, 0, 0, 0, 0, 0, 0, 0, 8, 0]);
}

#[test]
fn a_descriptor_of_the_next_version_is_rejected_and_the_device_untouched() {
    let mut source: MigrationManager<FieldDevice> = MigrationManager::new();
    assert_eq!(
        source.register(b"cpu", desc(b"cpu", 1, &[8, 2]), device(b"cpu", 1, &[8, 2], &[5, 6])),
        Ok(())
    );
    assert_eq!(
        source.register(b"gic", desc(b"gic", 3, &[4]), device(b"gic", 3, &[4], &[77])),
        Ok(())
    );
    let mut wire = Vec::new();
    assert_eq!(source.send(TransportKind::TcpSocket, &ram(1), 100, &mut wire), Ok(()));

    let mut destination = machine([1, 2], 3);
    let mut memory = ram(0);
    assert_eq!(
        destination.receive(&mut memory, &wire),
        Err(MigrationError::VersionIncompatible {
            expected: Some(desc(b"gic", 2, &[4])),
            received: desc(b"gic", 3, &[4]),
        })
    );
    assert_eq!(destination.state_at(1), vec![3, 0, 0, 0]);
    assert_eq!(destination.state_at(0), vec![5, 0, 0, 0, 0, 0, 0, 0, 6, 0]);
    assert_eq!(memory.read(0x1000, 10), Some(vec![0; 10]));
}

#[test]
fn another_field_layout_is_rejected_on_receive() {
    let mut registry: Registry<FieldDevice> = Registry::new();
    assert_eq!(
        registry.register(b"blk", desc(b"blk", 1, &[2, 2]), device(b"blk", 1, &[2, 2], &[1, 2])),
        Ok(())
    );
    let mut memory = GuestMemory::new();
    let frame = Frame::Device { desc: desc(b"blk", 1, &[4]), payload: vec![9, 9, 9, 9] };
    assert_eq!(
        apply_frame(&mut registry, &mut memory, ReceivePhase::Devices, &frame),
        Err(MigrationError::VersionIncompatible {
            expected: Some(desc(b"blk", 1, &[2, 2])),
            received: desc(b"blk", 1, &[4]),
        })
    );
    assert_eq!(registry.state_at(0), vec![1, 0, 2, 0]);
    let unknown = Frame::Device { desc: desc(b"net", 1, &[4]), payload: vec![9, 9, 9, 9] };
    assert_eq!(
        apply_frame(&mut registry, &mut memory, ReceivePhase::Devices, &unknown),
        Err(MigrationError::VersionIncompatible {
            expected: None,
            received: desc(b"net", 1, &[4]),
        })
    );
}

#[test]
fn frames_are_taken_in_their_phase_only() {
    let mut registry: Registry<FieldDevice> = Registry::new();
    assert_eq!(
        registry.register(b"blk", desc(b"blk", 1, &[2]), device(b"blk", 1, &[2], &[1])),
        Ok(())
    );
    let mut memory = GuestMemory::new();
    assert_eq!(memory.add_region(0, vec![0; 4]), Ok(()));
    let dev = Frame::Device { desc: desc(b"blk", 1, &[2]), payload: vec![7, 0] };
    let mem = Frame::Memory { base: 1, data: vec![5, 6] };

    assert_eq!(
        apply_frame(&mut registry, &mut memory, ReceivePhase::Devices, &dev),
        Ok(ReceivePhase::Devices)
    );
    assert_eq!(registry.state_at(0), vec![7, 0]);
    assert_eq!(
        apply_frame(&mut registry, &mut memory, ReceivePhase::Devices, &mem),
        Ok(ReceivePhase::Memory)
    );
    assert_eq!(memory.read(0, 4), Some(vec![0, 5, 6, 0]));
    assert_eq!(
        apply_frame(&mut registry, &mut memory, ReceivePhase::Memory, &dev),
        Err(MigrationError::Corrupt)
    );
    assert_eq!(
        apply_frame(&mut registry, &mut memory, ReceivePhase::Memory, &mem),
        Ok(ReceivePhase::Memory)
    );
    assert_eq!(
        apply_frame(&mut registry, &mut memory, ReceivePhase::Memory, &Frame::End),
        Ok(ReceivePhase::Done)
    );
    assert_eq!(
        apply_frame(&mut registry, &mut memory, ReceivePhase::Devices, &Frame::End),
        Ok(ReceivePhase::Done)
    );
    for f in [&dev, &mem, &Frame::End] {
        assert_eq!(
            apply_frame(&mut registry, &mut memory, ReceivePhase::Done, f),
            Err(MigrationError::Corrupt)
        );
    }
    let short = Frame::Device { desc: desc(b"blk", 1, &[2]), payload: vec![7] };
    assert_eq!(
        apply_frame(&mut registry, &mut memory, ReceivePhase::Devices, &short),
        Err(MigrationError::Corrupt)
    );
    let outside = Frame::Memory { base: 3, data: vec![5, 6] };
    assert_eq!(
        apply_frame(&mut registry, &mut memory, ReceivePhase::Devices, &outside),
        Err(MigrationError::Corrupt)
    );
    assert_eq!(registry.state_at(0), vec![7, 0]);
    assert_eq!(memory.read(0, 4), Some(vec![0, 5, 6, 0]));
}

#[test]
fn a_stream_that_is_cut_or_continues_behind_the_end_is_corrupt() {
    let mut source = machine([1, 2], 3);
    let mut wire = Vec::new();
    assert_eq!(source.send(TransportKind::TcpSocket, &ram(1), 4, &mut wire), Ok(()));

    let mut d = machine([0, 0], 0);
    let mut memory = ram(0);
    assert_eq!(d.receive(&mut memory, &wire[..wire.len() - 1]), Err(MigrationError::Corrupt));
    let mut d = machine([0, 0], 0);
    let mut longer = wire.clone();
    longer.push(0);
    assert_eq!(d.receive(&mut memory, &longer), Err(MigrationError::Corrupt));
    let mut d = machine([0, 0], 0);
    assert_eq!(d.receive(&mut memory, &wire[1..]), Err(MigrationError::Corrupt));
    assert_eq!(d.state_at(0), vec![0; 10]);
    let mut d = machine([0, 0], 0);
    assert_eq!(d.receive(&mut memory, &[]), Err(MigrationError::Corrupt));
    let mut d = machine([0, 0], 0);
    assert_eq!(d.receive(&mut memory, &wire), Ok(()));
    let (first, _) = read_frame(&wire, 8).unwrap();
    assert!(matches!(first, Frame::Device { .. }));
}

#[test]
fn a_transfer_step_by_step_writes_the_stream() {
    let mut m = machine([1, 2], 3);
    let memory = ram(5);
    assert_eq!(m.begin(TransportKind::TcpSocket), Ok(()));
    assert_eq!(m.set_status(MigrationStatus::Active), Ok(()));
    let mut wire = Vec::new();
    m.write_devices(&mut wire);
    let mut blocks = MemoryEnumerator::new(memory.regions(), 4).unwrap();
    let mut steps = 0;
    loop {
        let mut out = Vec::new();
        let progress = m.advance(&mut blocks, &memory, &mut out).unwrap();
        wire.extend_from_slice(&out);
        steps += 1;
        match progress {
            Progress::More => assert!(!out.is_empty()),
            Progress::Finished => {
                assert_eq!(out, vec![255]);
                break;
            }
            Progress::Stopped => panic!("the transfer was not canceled"),
        }
    }
    assert_eq!(steps, 5);
    assert_eq!(m.status(), MigrationStatus::Completed);
    assert_eq!(m.transport_kind(), None);
    let mut whole = Vec::new();
    let mut again = machine([1, 2], 3);
    assert_eq!(again.send(TransportKind::TcpSocket, &memory, 4, &mut whole), Ok(()));
    assert_eq!(wire, whole);
}

#[test]
fn a_canceled_transfer_stops_and_recovers_at_its_next_step() {
    let mut m = machine([1, 2], 3);
    let memory = ram(5);
    assert_eq!(m.begin(TransportKind::TcpSocket), Ok(()));
    assert_eq!(m.set_status(MigrationStatus::Active), Ok(()));
    let mut out = Vec::new();
    m.write_devices(&mut out);
    let mut blocks = MemoryEnumerator::new(memory.regions(), 4).unwrap();
    assert_eq!(m.advance(&mut blocks, &memory, &mut out), Ok(Progress::More));
    m.quiesce_at(0);
    m.quiesce_at(1);
    let written = out.clone();
    let states = (m.state_at(0), m.state_at(1));

    assert_eq!(m.cancel_migrate(), Ok(()));
    assert_eq!(m.advance(&mut blocks, &memory, &mut out), Ok(Progress::Stopped));
    assert_eq!(out, written);
    assert_eq!(m.status(), MigrationStatus::Canceled);
    assert_eq!(m.transport_kind(), None);
    assert!(!m.quiesced_at(0));
    assert!(!m.quiesced_at(1));
    assert_eq!((m.state_at(0), m.state_at(1)), states);
    assert_eq!(blocks.next(), Some(MemBlock { base: 0x1004, len: 4, offset: 4 }));
    assert_eq!(m.advance(&mut blocks, &memory, &mut out), Ok(Progress::Stopped));
    assert_eq!(out, written);
    let mut cpu = m.unregister(b"cpu").unwrap();
    assert!(cpu.set_value(0, 99));
}

#[test]
fn a_block_outside_guest_memory_is_not_written() {
    let mut m = machine([1, 2], 3);
    let memory = ram(5);
    assert_eq!(m.begin(TransportKind::TcpSocket), Ok(()));
    assert_eq!(m.set_status(MigrationStatus::Active), Ok(()));
    let other = vec![migration::memory::MemRegion { base: 0x9000, len: 4 }];
    let mut blocks = MemoryEnumerator::new(other, 4).unwrap();
    let mut out = vec![1];
    assert_eq!(m.advance(&mut blocks, &memory, &mut out), Err(MigrationError::Corrupt));
    assert_eq!(out, vec![1]);
    assert_eq!(m.status(), MigrationStatus::Active);
}

#[test]
fn a_transfer_is_started_from_setup_only() {
    let mut m = machine([1, 2], 3);
    let memory = ram(5);
    let mut out = vec![9];
    assert!(matches!(
        m.start(&memory, &mut out),
        Err(MigrationError::InvalidState {
            from: MigrationStatus::Idle,
            to: MigrationStatus::Active
        })
    ));
    assert_eq!(out, vec![9]);
    assert_eq!(m.status(), MigrationStatus::Idle);

    assert_eq!(m.begin(TransportKind::UnixSocket), Ok(()));
    m.quiesce_at(1);
    let mut blocks = m.start(&memory, &mut out).unwrap();
    assert_eq!(m.status(), MigrationStatus::Active);
    assert_eq!(m.transport_kind(), Some(TransportKind::UnixSocket));
    assert!(!m.quiesced_at(0));
    assert!(!m.quiesced_at(1));
    let mut expected = vec![9];
    let mut again = machine([1, 2], 3);
    again.write_devices(&mut expected);
    assert_eq!(out, expected);
    assert_eq!(&out[1..9], b"VMSN\x01\x00\x00\x00");
    assert_eq!(blocks.next(), Some(MemBlock { base: 0x1000, len: 10, offset: 0 }));
    assert_eq!(blocks.next(), Some(MemBlock { base: 0x8000, len: 3, offset: 10 }));
    assert_eq!(blocks.next(), None);

    assert!(matches!(
        m.start(&memory, &mut out),
        Err(MigrationError::InvalidState {
            from: MigrationStatus::Active,
            to: MigrationStatus::Active
        })
    ));
    assert_eq!(out, expected);
}

#[test]
fn started_and_advanced_to_the_end_is_the_whole_stream() {
    let mut m = machine([4, 5], 6);
    let memory = ram(7);
    let mut wire = Vec::new();
    assert_eq!(m.begin(TransportKind::File), Ok(()));
    let mut blocks = m.start(&memory, &mut wire).unwrap();
    while m.advance(&mut blocks, &memory, &mut wire) == Ok(Progress::More) {}
    assert_eq!(m.status(), MigrationStatus::Completed);
    let mut whole = Vec::new();
    let mut again = machine([4, 5], 6);
    assert_eq!(
        again.send(TransportKind::File, &memory, migration::memory::BLOCK_LEN_MAX, &mut whole),
        Ok(())
    );
    assert_eq!(wire, whole);
}
