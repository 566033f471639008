use strngr::arch::Endian;
use strngr::segment::{Segment, SegmentError, Segments};

fn store(parts: Vec<(u64, u64, Vec<u8>)>) -> Segments {
    let mut s = Segments::new();
    for (start, end, bytes) in parts {
        s.add(Segment::new(start, end, String::from("seg"), bytes));
    }
    s
}

fn padded(prefix: &[u8], len: usize) -> Vec<u8> {
    let mut v = prefix.to_vec();
    v.resize(len, 0);
    v
}

#[test]
fn cstring_stops_at_nul() {
    let s = store(vec![(0x1000, 0x1100, padded(b"foo\0garbage", 32))]);
    assert_eq!(s.get_cstring(0x1000, None).unwrap(), Some(&b"foo"[..]));
}

#[test]
fn cstring_without_nul_in_window() {
    let s = store(vec![(0x1000, 0x1100, b"foofoofoofoofoofoofoo".to_vec())]);
    assert_eq!(s.get_cstring(0x1000, None).unwrap(), None);
    let t = store(vec![(0x1000, 0x1100, padded(b"foo", 32))]);
    assert_eq!(t.get_cstring(0x1000, Some(3)).unwrap(), None);
}

#[test]
fn cstring_rejects_control_byte() {
    let s = store(vec![(0x1000, 0x1100, padded(&[0x01, 0x00], 32))]);
    assert_eq!(s.get_cstring(0x1000, None).unwrap(), None);
}

#[test]
fn cstring_errors() {
    let s = store(vec![(0x1000, 0x1100, padded(b"ab\0", 8))]);
    assert!(matches!(s.get_cstring(0x2000, None), Err(SegmentError::RangeNotFound { .. })));
    assert_eq!(
        s.get_cstring(0x1000, None),
        Err(SegmentError::UninitialisedRange { start_addr: 0x1000, end_addr: 0x1000 })
    );
    assert_eq!(s.get_cstring(0x1000, Some(4)).unwrap(), Some(&b"ab"[..]));
}

#[test]
fn segment_lookup_by_binary_search() {
    let s = store(vec![
        (0x1000, 0x1100, vec![1; 0x100]),
        (0x2000, 0x2100, vec![2; 0x100]),
        (0x3000, 0x3100, vec![3; 0x10]),
    ]);
    assert_eq!(s.get_segment(0x2010, 0x2020).unwrap().start_addr, 0x2000);
    assert_eq!(s.get_segment(0x3000, 0x3100).unwrap().start_addr, 0x3000);
    assert_eq!(
        s.get_segment(0x10f0, 0x1110).err(),
        Some(SegmentError::RangeNotFound { start_addr: 0x10f0, end_addr: 0x1110 })
    );
    assert!(s.get_segment(0x500, 0x510).is_err());
    assert!(s.get_segment(0x4000, 0x4010).is_err());
}

#[test]
fn bytes_and_uninitialised_tail() {
    let s = store(vec![(0x3000, 0x3100, vec![1, 2, 3, 4, 5, 6])]);
    assert_eq!(s.get_bytes(0x3002, 0x3005).unwrap(), &[3, 4, 5][..]);
    assert_eq!(
        s.get_bytes(0x3004, 0x3008),
        Err(SegmentError::UninitialisedRange { start_addr: 0x3004, end_addr: 0x3008 })
    );
    assert_eq!(
        s.get_bytes(0x4000, 0x4001),
        Err(SegmentError::RangeNotFound { start_addr: 0x4000, end_addr: 0x4001 })
    );
}

#[test]
fn integers_in_both_orders() {
    let s = store(vec![(0x100, 0x200, vec![0x01, 0x02, 0x03, 0x84, 0xff, 0xff, 0xff, 0xff])]);
    assert_eq!(s.get_i32(Endian::Little, 0x100), Ok(0x8403_0201u32 as i32));
    assert_eq!(s.get_i32(Endian::Big, 0x100), Ok(0x0102_0384));
    assert_eq!(s.get_i16(Endian::Little, 0x100), Ok(0x0201));
    assert_eq!(s.get_i16(Endian::Big, 0x103), Ok(0x84ffu16 as i16));
    assert_eq!(s.get_i64(Endian::Little, 0x100), Ok(0xffff_ffff_8403_0201u64 as i64));
    assert_eq!(s.get_i64(Endian::Big, 0x100), Ok(0x0102_0384_ffff_ffff));
    assert!(s.get_i32(Endian::Little, 0x106).is_err());
    assert!(s.get_i32(Endian::Little, u64::MAX - 1).is_err());
}
