use dr::codec::{decode, encode};

#[test]
fn round_trip_simple() {
    let name = encode(1000, 0, b"/a/b/foo.txt");
    assert_eq!(name, b"1000_/a/b/foo.txt".to_vec());
    let e = decode(&name).unwrap();
    assert_eq!(e.drop_timestamp, 1000);
    assert_eq!(e.serial, 0);
    assert_eq!(e.original_path, b"/a/b/foo.txt".to_vec());
}

#[test]
fn round_trip_with_serial() {
    let name = encode(1000, 2, b"/a/b/foo.txt");
    assert_eq!(name, b"1000.2_/a/b/foo.txt".to_vec());
    let e = decode(&name).unwrap();
    assert_eq!(e.drop_timestamp, 1000);
    assert_eq!(e.serial, 2);
    assert_eq!(e.original_path, b"/a/b/foo.txt".to_vec());
}

#[test]
fn round_trip_path_containing_separator() {
    let name = encode(99, 0, b"/a/b_c/d_e");
    assert_eq!(name, b"99_/a/b_c/d_e".to_vec());
    let e = decode(&name).unwrap();
    assert_eq!(e.drop_timestamp, 99);
    assert_eq!(e.original_path, b"/a/b_c/d_e".to_vec());
}

#[test]
fn round_trip_root_path() {
    let name = encode(123, 0, b"/");
    assert_eq!(name, b"123_/".to_vec());
    let e = decode(&name).unwrap();
    assert_eq!(e.drop_timestamp, 123);
    assert_eq!(e.original_path, b"/".to_vec());
}

#[test]
fn round_trip_zero_timestamp() {
    let name = encode(0, 0, b"/x");
    assert_eq!(name, b"0_/x".to_vec());
    let e = decode(&name).unwrap();
    assert_eq!(e.drop_timestamp, 0);
    assert_eq!(e.original_path, b"/x".to_vec());
}

#[test]
fn round_trip_max_timestamp() {
    let name = encode(u64::MAX, u64::MAX, b"/x");
    assert_eq!(name, b"18446744073709551615.18446744073709551615_/x".to_vec());
    let e = decode(&name).unwrap();
    assert_eq!(e.drop_timestamp, u64::MAX);
    assert_eq!(e.serial, u64::MAX);
    assert_eq!(e.original_path, b"/x".to_vec());
}

#[test]
fn decode_without_separator_fails() {
    assert!(decode(b"foobar").is_none());
    assert!(decode(b"").is_none());
    assert!(decode(b"12345").is_none());
}

#[test]
fn decode_foreign_prefix_fails() {
    assert!(decode(b"abc_foo").is_none());
    assert!(decode(b"_foo").is_none());
    assert!(decode(b"12x_foo").is_none());
    assert!(decode(b"1.2.3_foo").is_none());
    assert!(decode(b"1._foo").is_none());
    assert!(decode(b".5_foo").is_none());
}

#[test]
fn decode_overflowing_timestamp_fails() {
    assert!(decode(b"99999999999999999999_x").is_none());
    assert!(decode(b"18446744073709551616_x").is_none());
    assert!(decode(b"1.99999999999999999999_x").is_none());
}

#[test]
fn decode_accepts_empty_path_after_separator() {
    let e = decode(b"7_").unwrap();
    assert_eq!(e.drop_timestamp, 7);
    assert_eq!(e.original_path, Vec::<u8>::new());
}
