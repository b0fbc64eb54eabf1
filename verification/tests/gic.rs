use migration::error::MigrationError;
use migration::gic::{
    first_created, Attempt, DeviceAccess, DeviceAttr, GICConfig, GICVersion, KvmDevice,
};

#[test]
fn test_gic_config() {
    let mut gic_conf = GICConfig {
        version: Some(GICVersion::GICv3),
        vcpu_count: 4,
        max_irq: 192,
        v2: None,
        v3: None,
    };

    assert!(gic_conf.check_sanity().is_ok());
    gic_conf.max_irq = 32;
    assert!(gic_conf.check_sanity().is_err());
}

#[test]
fn check_sanity_reports_invalid_config() {
    let conf = GICConfig { version: None, vcpu_count: 1, max_irq: 0, v2: None, v3: None };
    assert_eq!(conf.check_sanity(), Err(MigrationError::InvalidConfig));
    let edge = GICConfig { version: None, vcpu_count: 1, max_irq: 33, v2: None, v3: None };
    assert_eq!(edge.check_sanity(), Ok(()));
}

#[test]
fn versions_to_try_follow_the_request() {
    let any = GICConfig { version: None, vcpu_count: 1, max_irq: 64, v2: None, v3: None };
    assert_eq!(any.versions_to_try(), Ok(vec![GICVersion::GICv3, GICVersion::GICv2]));
    let v2 = GICConfig {
        version: Some(GICVersion::GICv2),
        vcpu_count: 1,
        max_irq: 64,
        v2: None,
        v3: None,
    };
    assert_eq!(v2.versions_to_try(), Ok(vec![GICVersion::GICv2]));
    let bad = GICConfig { version: None, vcpu_count: 1, max_irq: 32, v2: None, v3: None };
    assert_eq!(bad.versions_to_try(), Err(MigrationError::InvalidConfig));
}

#[test]
fn device_attributes_for_check_and_access() {
    let a = KvmDevice::kvm_device_check(4, 0x10);
    assert_eq!(a, DeviceAttr { flags: 0, group: 4, attr: 0x10, addr: 0 });
    let attr = DeviceAttr { flags: 0, group: 1, attr: 2, addr: 0xbeef };
    assert_eq!(KvmDevice::kvm_device_access(1, 2, 0xbeef, true), DeviceAccess::Write(attr));
    assert_eq!(KvmDevice::kvm_device_access(1, 2, 0xbeef, false), DeviceAccess::Read(attr));
}

#[test]
fn the_first_attempt_that_succeeded_is_taken() {
    assert_eq!(first_created(&[]), None);
    assert_eq!(first_created(&[false]), None);
    assert_eq!(first_created(&[true]), Some(0));
    assert_eq!(first_created(&[false, true]), Some(1));
    assert_eq!(first_created(&[true, true]), Some(0));
    assert_eq!(first_created(&[true, false]), Some(0));
    assert_eq!(first_created(&[false, false]), None);
    assert_eq!(first_created(&[false, false, true, true]), Some(2));
}

fn conf(version: Option<GICVersion>, max_irq: u32) -> GICConfig {
    GICConfig { version, vcpu_count: 1, max_irq, v2: None, v3: None }
}

#[test]
fn version_three_is_tried_first_and_two_only_after_it_failed() {
    let any = conf(None, 64);
    assert_eq!(any.next_attempt(&[]), Ok(Attempt::Try(GICVersion::GICv3)));
    assert_eq!(any.next_attempt(&[true]), Ok(Attempt::Take(0)));
    assert_eq!(any.next_attempt(&[false]), Ok(Attempt::Try(GICVersion::GICv2)));
    assert_eq!(any.next_attempt(&[false, true]), Ok(Attempt::Take(1)));
    assert_eq!(any.next_attempt(&[false, false]), Ok(Attempt::GiveUp));
    assert_eq!(any.next_attempt(&[true, true]), Ok(Attempt::Take(0)));
}

#[test]
fn a_requested_version_is_the_only_one_tried() {
    let v3 = conf(Some(GICVersion::GICv3), 64);
    assert_eq!(v3.next_attempt(&[]), Ok(Attempt::Try(GICVersion::GICv3)));
    assert_eq!(v3.next_attempt(&[true]), Ok(Attempt::Take(0)));
    assert_eq!(v3.next_attempt(&[false]), Ok(Attempt::GiveUp));
    let v2 = conf(Some(GICVersion::GICv2), 64);
    assert_eq!(v2.next_attempt(&[]), Ok(Attempt::Try(GICVersion::GICv2)));
    assert_eq!(v2.next_attempt(&[true]), Ok(Attempt::Take(0)));
    assert_eq!(v2.next_attempt(&[false]), Ok(Attempt::GiveUp));
}

#[test]
fn nothing_is_tried_for_a_configuration_that_is_not_usable() {
    assert_eq!(conf(None, 32).next_attempt(&[]), Err(MigrationError::InvalidConfig));
    assert_eq!(conf(None, 0).next_attempt(&[true]), Err(MigrationError::InvalidConfig));
}
