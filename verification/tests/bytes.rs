use migration::bytes::{read_be, read_le, write_le};

#[test]
fn little_endian_reads() {
    let data = [0x78, 0x56, 0x34, 0x12, 0xff];
    assert_eq!(read_le(&data, 0, 4), 0x1234_5678);
    assert_eq!(read_le(&data, 1, 2), 0x3456);
    assert_eq!(read_le(&data, 4, 1), 0xff);
    assert_eq!(read_le(&data, 2, 0), 0);
    assert_eq!(read_le(&[0xff; 8], 0, 8), u64::MAX);
}

#[test]
fn big_endian_reads() {
    let data = [0x12, 0x34, 0x56, 0x78, 0xff];
    assert_eq!(read_be(&data, 0, 4), 0x1234_5678);
    assert_eq!(read_be(&data, 1, 2), 0x3456);
    assert_eq!(read_be(&data, 5, 0), 0);
    assert_eq!(read_be(&[1, 0, 0, 0, 0, 0, 0, 0], 0, 8), 1 << 56);
}

#[test]
fn little_endian_writes() {
    let mut out = vec![9];
    write_le(&mut out, 0x1234_5678, 4);
    assert_eq!(out, vec![9, 0x78, 0x56, 0x34, 0x12]);
    write_le(&mut out, 0x0102, 1);
    assert_eq!(out, vec![9, 0x78, 0x56, 0x34, 0x12, 0x02]);
    write_le(&mut out, 5, 0);
    assert_eq!(out.len(), 6);
    let mut wide = Vec::new();
    write_le(&mut wide, 1, 10);
    assert_eq!(wide, vec![1, 0, 0, 0, 0, 0, 0, 0, 0, 0]);
}

#[test]
fn what_is_written_is_read_back() {
    for &(v, n) in &[(0u64, 1usize), (255, 1), (256, 2), (0xdead_beef, 4), (u64::MAX, 8)] {
        let mut out = Vec::new();
        write_le(&mut out, v, n);
        assert_eq!(out.len(), n);
        assert_eq!(read_le(&out, 0, n), v);
    }
}
