use migration::descriptor::DeviceStateDesc;
use migration::device::FieldDevice;
use migration::error::MigrationError;
use migration::registry::Registry;

fn desc(id: &[u8], version: u32, widths: &[u32]) -> DeviceStateDesc {
    let mut d = DeviceStateDesc::new(id, version);
    for (i, w) in widths.iter().enumerate() {
        assert!(d.push_field(format!("f{}", i).as_bytes(), *w));
    }
    d
}

fn device(id: &[u8], version: u32, widths: &[u32], values: &[u64]) -> FieldDevice {
    FieldDevice::new(desc(id, version, widths), values.to_vec()).unwrap()
}

fn three() -> Registry<FieldDevice> {
    let mut r = Registry::new();
    let cpu = device(b"cpu", 1, &[8, 8], &[1, 2]);
    assert_eq!(r.register(b"cpu", desc(b"cpu", 1, &[8, 8]), cpu), Ok(()));
    let gic = device(b"gic", 2, &[4], &[3]);
    assert_eq!(r.register(b"gic", desc(b"gic", 2, &[4]), gic), Ok(()));
    let blk = device(b"blk", 5, &[1, 2], &[4, 5]);
    assert_eq!(r.register(b"blk", desc(b"blk", 5, &[1, 2]), blk), Ok(()));
    r
}

#[test]
fn devices_stand_in_the_order_of_their_registration() {
    let r = three();
    assert_eq!(r.len(), 3);
    assert_eq!(r.position(b"cpu"), Some(0));
    assert_eq!(r.position(b"gic"), Some(1));
    assert_eq!(r.position(b"blk"), Some(2));
    assert_eq!(r.position(b"net"), None);
    assert_eq!(r.descriptor_at(0), desc(b"cpu", 1, &[8, 8]));
    assert_eq!(r.descriptor_at(1), desc(b"gic", 2, &[4]));
    assert_eq!(r.descriptor_at(2), desc(b"blk", 5, &[1, 2]));
}

#[test]
fn an_identifier_is_registered_once() {
    let mut r = three();
    assert_eq!(
        r.register(b"gic", desc(b"gic", 2, &[4]), device(b"gic", 2, &[4], &[9])),
        Err(MigrationError::InvalidConfig)
    );
    assert_eq!(r.len(), 3);
    assert_eq!(r.state_at(1), vec![3, 0, 0, 0]);
}

#[test]
fn a_descriptor_that_is_not_the_devices_own_is_refused() {
    let mut r: Registry<FieldDevice> = Registry::new();
    assert_eq!(
        r.register(b"net", desc(b"net", 2, &[4]), device(b"net", 1, &[4], &[0])),
        Err(MigrationError::InvalidConfig)
    );
    assert_eq!(
        r.register(b"net", desc(b"nic", 1, &[4]), device(b"nic", 1, &[4], &[0])),
        Err(MigrationError::InvalidConfig)
    );
    assert_eq!(
        r.register(b"net", desc(b"net", 1, &[2]), device(b"net", 1, &[4], &[0])),
        Err(MigrationError::InvalidConfig)
    );
    assert_eq!(r.len(), 0);
    assert_eq!(r.register(b"net", desc(b"net", 1, &[4]), device(b"net", 1, &[4], &[0])), Ok(()));
    assert_eq!(r.len(), 1);
}

#[test]
fn unregistering_keeps_the_order_of_the_others() {
    let mut r = three();
    let gone = r.unregister(b"cpu").unwrap();
    assert_eq!(gone.value(0), Some(1));
    assert_eq!(gone.value(1), Some(2));
    assert_eq!(r.len(), 2);
    assert_eq!(r.position(b"gic"), Some(0));
    assert_eq!(r.position(b"blk"), Some(1));
    assert_eq!(r.position(b"cpu"), None);
    assert!(r.unregister(b"cpu").is_none());
    assert_eq!(r.len(), 2);
    let cpu = device(b"cpu", 1, &[8, 8], &[7, 8]);
    assert_eq!(r.register(b"cpu", desc(b"cpu", 1, &[8, 8]), cpu), Ok(()));
    assert_eq!(r.position(b"cpu"), Some(2));
}

#[test]
fn an_equal_descriptor_is_accepted() {
    let r = three();
    assert_eq!(r.check_incoming(&desc(b"cpu", 1, &[8, 8])), Ok(0));
    assert_eq!(r.check_incoming(&desc(b"gic", 2, &[4])), Ok(1));
    assert_eq!(r.check_incoming(&desc(b"blk", 5, &[1, 2])), Ok(2));
}

#[test]
fn a_newer_version_is_rejected() {
    let mut r = three();
    assert_eq!(
        r.check_incoming(&desc(b"gic", 3, &[4])),
        Err(MigrationError::VersionIncompatible {
            expected: Some(desc(b"gic", 2, &[4])),
            received: desc(b"gic", 3, &[4]),
        })
    );
    assert_eq!(r.state_at(1), vec![3, 0, 0, 0]);
}

#[test]
fn another_field_layout_is_rejected() {
    let r = three();
    assert_eq!(
        r.check_incoming(&desc(b"blk", 5, &[2, 1])),
        Err(MigrationError::VersionIncompatible {
            expected: Some(desc(b"blk", 5, &[1, 2])),
            received: desc(b"blk", 5, &[2, 1]),
        })
    );
    assert_eq!(
        r.check_incoming(&desc(b"blk", 5, &[1, 2, 1])),
        Err(MigrationError::VersionIncompatible {
            expected: Some(desc(b"blk", 5, &[1, 2])),
            received: desc(b"blk", 5, &[1, 2, 1]),
        })
    );
}

#[test]
fn an_unknown_device_is_rejected() {
    let r = three();
    assert_eq!(
        r.check_incoming(&desc(b"net", 1, &[4])),
        Err(MigrationError::VersionIncompatible {
            expected: None,
            received: desc(b"net", 1, &[4]),
        })
    );
}

#[test]
fn a_capture_quiesces_and_resumes() {
    let mut r = three();
    r.quiesce_at(0);
    assert!(r.quiesced_at(0));
    assert!(!r.quiesced_at(1));
    let bytes = r.capture_at(0);
    assert_eq!(bytes, vec![1, 0, 0, 0, 0, 0, 0, 0, 2, 0, 0, 0, 0, 0, 0, 0]);
    assert!(!r.quiesced_at(0));
    assert_eq!(r.capture_at(2), vec![4, 5, 0]);
    assert_eq!(r.state_at(2), vec![4, 5, 0]);
}

#[test]
fn a_restore_changes_one_device() {
    let mut r = three();
    assert_eq!(r.restore_at(1, &[9, 8, 7, 6]), Ok(()));
    assert_eq!(r.state_at(1), vec![9, 8, 7, 6]);
    assert_eq!(r.state_at(0), vec![1, 0, 0, 0, 0, 0, 0, 0, 2, 0, 0, 0, 0, 0, 0, 0]);
    assert_eq!(r.state_at(2), vec![4, 5, 0]);
    assert_eq!(r.restore_at(1, &[9, 8, 7]), Err(MigrationError::Corrupt));
    assert_eq!(r.state_at(1), vec![9, 8, 7, 6]);
}

#[test]
fn resume_all_resumes_every_device() {
    let mut r = three();
    r.quiesce_at(0);
    r.quiesce_at(2);
    r.resume_all();
    assert!(!r.quiesced_at(0));
    assert!(!r.quiesced_at(1));
    assert!(!r.quiesced_at(2));
    assert_eq!(r.state_at(2), vec![4, 5, 0]);
    r.resume_all();
    assert!(!r.quiesced_at(0));
    assert!(!r.quiesced_at(1));
    assert!(!r.quiesced_at(2));
}

#[test]
fn reading_a_record_leaves_the_device_as_it_stood() {
    let mut r = three();
    r.quiesce_at(1);
    assert_eq!(r.state_at(1), vec![3, 0, 0, 0]);
    assert!(r.quiesced_at(1));
    assert_eq!(r.state_at(0), vec![1, 0, 0, 0, 0, 0, 0, 0, 2, 0, 0, 0, 0, 0, 0, 0]);
    assert!(!r.quiesced_at(0));
    assert!(!r.quiesced_at(2));
}
