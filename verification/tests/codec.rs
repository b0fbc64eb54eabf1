use migration::codec::{
    append_bytes, put_u32, put_u64, read_frame, read_header, write_frame, write_header, Frame,
};
use migration::descriptor::DeviceStateDesc;
use migration::error::MigrationError;
use migration::wire::{HEADER_LEN, MAGIC, PROTOCOL_VERSION, TAG_DEVICE, TAG_END, TAG_MEMORY};

fn timer() -> DeviceStateDesc {
    let mut d = DeviceStateDesc::new(b"tm", 3);
    assert!(d.push_field(b"cnt", 8));
    assert!(d.push_field(b"c", 1));
    d
}

#[test]
fn the_header_is_magic_and_version() {
    let mut out = Vec::new();
    write_header(&mut out);
    assert_eq!(out, vec![0x56, 0x4d, 0x53, 0x4e, 1, 0, 0, 0]);
    assert_eq!(out, b"VMSN\x01\x00\x00\x00".to_vec());
    assert_eq!(out.len(), HEADER_LEN);
    assert_eq!(MAGIC.to_le_bytes(), [0x56, 0x4d, 0x53, 0x4e]);
    assert_eq!(PROTOCOL_VERSION, 1);
    assert_eq!(read_header(&out), Ok(8));
}

#[test]
fn a_header_is_read_from_the_front_of_longer_data() {
    let mut out = Vec::new();
    write_header(&mut out);
    out.push(TAG_END);
    assert_eq!(read_header(&out), Ok(8));
}

#[test]
fn another_magic_or_version_is_corrupt() {
    assert_eq!(read_header(&[]), Err(MigrationError::Corrupt));
    assert_eq!(read_header(&[0x56, 0x4d, 0x53, 0x4e, 1, 0, 0]), Err(MigrationError::Corrupt));
    assert_eq!(read_header(&[0x56, 0x4d, 0x53, 0x4f, 1, 0, 0, 0]), Err(MigrationError::Corrupt));
    assert_eq!(read_header(&[0x56, 0x4d, 0x53, 0x4e, 2, 0, 0, 0]), Err(MigrationError::Corrupt));
    assert_eq!(read_header(&[0x4e, 0x53, 0x4d, 0x56, 0, 0, 0, 1]), Err(MigrationError::Corrupt));
}

#[test]
fn numbers_are_written_little_endian() {
    let mut out = Vec::new();
    put_u32(&mut out, 0x0102_0304);
    put_u64(&mut out, 0x1122_3344_5566_7788);
    append_bytes(&mut out, b"xy");
    assert_eq!(
        out,
        vec![4, 3, 2, 1, 0x88, 0x77, 0x66, 0x55, 0x44, 0x33, 0x22, 0x11, b'x', b'y']
    );
}

#[test]
fn a_device_frame_byte_by_byte() {
    let frame = Frame::Device { desc: timer(), payload: vec![9, 8, 7, 6, 5, 4, 3, 2, 1] };
    let mut out = Vec::new();
    assert_eq!(write_frame(&mut out, &frame), Ok(()));
    let expected: Vec<u8> = vec![
        TAG_DEVICE, // tag
        2, 0, 0, 0, b't', b'm', // device identifier
        3, 0, 0, 0, // version
        2, 0, 0, 0, // number of fields
        3, 0, 0, 0, b'c', b'n', b't', 0, 0, 0, 0, 8, 0, 0, 0, // field cnt
        1, 0, 0, 0, b'c', 8, 0, 0, 0, 1, 0, 0, 0, // field c
        9, 0, 0, 0, 9, 8, 7, 6, 5, 4, 3, 2, 1, // payload
    ];
    assert_eq!(out, expected);
    let (back, next) = read_frame(&out, 0).unwrap();
    assert_eq!(back, frame);
    assert_eq!(next, out.len());
}

#[test]
fn a_memory_frame_byte_by_byte() {
    let frame = Frame::Memory { base: 0x1000, data: vec![0xaa, 0xbb, 0xcc] };
    let mut out = vec![0x55];
    assert_eq!(write_frame(&mut out, &frame), Ok(()));
    assert_eq!(
        out,
        vec![0x55, TAG_MEMORY, 0, 0x10, 0, 0, 0, 0, 0, 0, 3, 0, 0, 0, 0, 0, 0, 0, 0xaa, 0xbb, 0xcc]
    );
    let (back, next) = read_frame(&out, 1).unwrap();
    assert_eq!(back, frame);
    assert_eq!(next, out.len());
}

#[test]
fn the_end_marker_is_one_byte() {
    let mut out = Vec::new();
    assert_eq!(write_frame(&mut out, &Frame::End), Ok(()));
    assert_eq!(out, vec![TAG_END]);
    assert_eq!(out, vec![255]);
    assert_eq!(read_frame(&out, 0), Ok((Frame::End, 1)));
}

#[test]
fn frames_are_read_one_behind_the_other() {
    let frames = vec![
        Frame::Device { desc: timer(), payload: vec![1; 9] },
        Frame::Device { desc: DeviceStateDesc::new(b"", 0), payload: vec![] },
        Frame::Memory { base: 0, data: vec![] },
        Frame::Memory { base: u64::MAX, data: vec![7; 300] },
        Frame::End,
    ];
    let mut out = Vec::new();
    for f in &frames {
        assert_eq!(write_frame(&mut out, f), Ok(()));
    }
    let mut pos = 0;
    for f in &frames {
        let (back, next) = read_frame(&out, pos).unwrap();
        assert_eq!(&back, f);
        assert!(next > pos);
        pos = next;
    }
    assert_eq!(pos, out.len());
    assert_eq!(read_frame(&out, pos), Err(MigrationError::Corrupt));
}

#[test]
fn a_frame_that_ends_early_is_corrupt() {
    let frame = Frame::Device { desc: timer(), payload: vec![9; 9] };
    let mut out = Vec::new();
    assert_eq!(write_frame(&mut out, &frame), Ok(()));
    for cut in 0..out.len() {
        assert_eq!(read_frame(&out[..cut], 0), Err(MigrationError::Corrupt), "cut at {}", cut);
    }
    let memory = Frame::Memory { base: 1, data: vec![1, 2, 3, 4] };
    let mut out = Vec::new();
    assert_eq!(write_frame(&mut out, &memory), Ok(()));
    for cut in 0..out.len() {
        assert_eq!(read_frame(&out[..cut], 0), Err(MigrationError::Corrupt), "cut at {}", cut);
    }
}

#[test]
fn an_unknown_tag_is_corrupt() {
    assert_eq!(read_frame(&[0], 0), Err(MigrationError::Corrupt));
    assert_eq!(read_frame(&[3, 0, 0, 0, 0], 0), Err(MigrationError::Corrupt));
    assert_eq!(read_frame(&[254], 0), Err(MigrationError::Corrupt));
}

#[test]
fn a_length_beyond_the_data_is_corrupt() {
    let mut data = vec![TAG_MEMORY, 0, 0, 0, 0, 0, 0, 0, 0];
    data.extend_from_slice(&[0xff; 8]);
    data.push(1);
    assert_eq!(read_frame(&data, 0), Err(MigrationError::Corrupt));
    let data = vec![TAG_DEVICE, 0xff, 0xff, 0xff, 0xff, b'a'];
    assert_eq!(read_frame(&data, 0), Err(MigrationError::Corrupt));
    let data = vec![TAG_DEVICE, 0, 0, 0, 0, 1, 0, 0, 0, 0xff, 0xff, 0xff, 0xff];
    assert_eq!(read_frame(&data, 0), Err(MigrationError::Corrupt));
}

#[test]
fn frames_fit_the_stream() {
    assert!(Frame::End.fits_stream());
    assert!(Frame::Memory { base: 0, data: vec![0; 10] }.fits_stream());
    assert!(Frame::Device { desc: timer(), payload: vec![] }.fits_stream());
    assert!(timer().fits_stream());
}
