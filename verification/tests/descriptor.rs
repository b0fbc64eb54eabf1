use migration::descriptor::{bytes_eq, DeviceStateDesc, FieldDesc};

fn timer() -> DeviceStateDesc {
    let mut d = DeviceStateDesc::new(b"timer", 3);
    assert!(d.push_field(b"count", 8));
    assert!(d.push_field(b"ctl", 4));
    assert!(d.push_field(b"irq", 1));
    d
}

#[test]
fn fields_are_packed_in_the_order_they_were_added() {
    let d = timer();
    assert_eq!(d.device_id, b"timer".to_vec());
    assert_eq!(d.version, 3);
    assert_eq!(d.fields.len(), 3);
    assert_eq!(d.fields[0], FieldDesc { name: b"count".to_vec(), offset: 0, width: 8 });
    assert_eq!(d.fields[1], FieldDesc { name: b"ctl".to_vec(), offset: 8, width: 4 });
    assert_eq!(d.fields[2], FieldDesc { name: b"irq".to_vec(), offset: 12, width: 1 });
    assert!(d.is_well_formed());
    assert_eq!(d.encoded_width(), 13);
}

#[test]
fn a_descriptor_without_fields_has_width_zero() {
    let d = DeviceStateDesc::new(b"empty", 1);
    assert!(d.is_well_formed());
    assert_eq!(d.encoded_width(), 0);
}

#[test]
fn a_field_of_a_width_outside_one_to_eight_is_refused() {
    let mut d = timer();
    assert!(!d.push_field(b"zero", 0));
    assert!(!d.push_field(b"wide", 9));
    assert_eq!(d.fields.len(), 3);
    assert_eq!(d.encoded_width(), 13);
    assert!(d.push_field(b"one", 1));
    assert_eq!(d.encoded_width(), 14);
}

#[test]
fn a_layout_with_a_gap_or_an_overlap_is_not_well_formed() {
    let mut gap = DeviceStateDesc::new(b"d", 1);
    gap.fields.push(FieldDesc::new(b"a", 0, 4));
    gap.fields.push(FieldDesc::new(b"b", 5, 4));
    assert!(!gap.is_well_formed());
    let mut overlap = DeviceStateDesc::new(b"d", 1);
    overlap.fields.push(FieldDesc::new(b"a", 0, 4));
    overlap.fields.push(FieldDesc::new(b"b", 3, 4));
    assert!(!overlap.is_well_formed());
    let mut shifted = DeviceStateDesc::new(b"d", 1);
    shifted.fields.push(FieldDesc::new(b"a", 1, 4));
    assert!(!shifted.is_well_formed());
    let mut wide = DeviceStateDesc::new(b"d", 1);
    wide.fields.push(FieldDesc::new(b"a", 0, 16));
    assert!(!wide.is_well_formed());
    assert!(!wide.push_field(b"b", 1));
    assert_eq!(wide.fields.len(), 1);
}

#[test]
fn descriptors_are_compared_by_identifier_version_and_fields() {
    let a = timer();
    let b = timer();
    assert!(a.same_as(&b));
    let mut newer = timer();
    newer.version = 4;
    assert!(!a.same_as(&newer));
    let other = {
        let mut d = DeviceStateDesc::new(b"timex", 3);
        d.push_field(b"count", 8);
        d.push_field(b"ctl", 4);
        d.push_field(b"irq", 1);
        d
    };
    assert!(!a.same_as(&other));
    let renamed = {
        let mut d = DeviceStateDesc::new(b"timer", 3);
        d.push_field(b"count", 8);
        d.push_field(b"ctrl", 4);
        d.push_field(b"irq", 1);
        d
    };
    assert!(!a.same_as(&renamed));
    let reordered = {
        let mut d = DeviceStateDesc::new(b"timer", 3);
        d.push_field(b"ctl", 4);
        d.push_field(b"count", 8);
        d.push_field(b"irq", 1);
        d
    };
    assert!(!a.same_as(&reordered));
    let shorter = {
        let mut d = DeviceStateDesc::new(b"timer", 3);
        d.push_field(b"count", 8);
        d.push_field(b"ctl", 4);
        d
    };
    assert!(!a.same_as(&shorter));
    assert!(!shorter.same_as(&a));
}

#[test]
fn a_copy_equals_its_original() {
    let a = timer();
    let b = a.duplicate();
    assert_eq!(a, b);
    assert!(a.same_as(&b));
    let f = FieldDesc::new(b"x", 3, 2);
    assert_eq!(f.duplicate(), f);
    assert!(f.same_as(&f.duplicate()));
    assert!(!f.same_as(&FieldDesc::new(b"x", 3, 1)));
    assert!(!f.same_as(&FieldDesc::new(b"x", 2, 2)));
    assert!(!f.same_as(&FieldDesc::new(b"y", 3, 2)));
}

#[test]
fn byte_strings_are_compared_byte_by_byte() {
    assert!(bytes_eq(b"", b""));
    assert!(bytes_eq(b"abc", b"abc"));
    assert!(!bytes_eq(b"abc", b"abd"));
    assert!(!bytes_eq(b"abc", b"ab"));
    assert!(!bytes_eq(b"", b"a"));
}
