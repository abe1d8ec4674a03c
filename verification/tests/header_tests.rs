//! Header codec behavior: numeric fields, names, types, and the checksum.

use tarkit::header::Header;
use tarkit::EntryType;
use tarkit::TarError;

#[test]
fn size_octal_roundtrip() {
    let mut h = Header::new_gnu();
    h.set_size(1234);
    assert_eq!(h.size().unwrap(), 1234);
    assert_eq!(h.entry_size().unwrap(), 1234);
}

#[test]
fn size_zero_roundtrip() {
    let mut h = Header::new_gnu();
    h.set_size(0);
    assert_eq!(h.size().unwrap(), 0);
}

#[test]
fn size_base256_roundtrip() {
    // 8^11 is the first value that no longer fits the octal field
    let mut h = Header::new_gnu();
    h.set_size(8589934592);
    assert_eq!(h.size().unwrap(), 8589934592);
    // the field's first byte carries the binary-encoding flag
    let bytes = h.as_bytes();
    assert_eq!(bytes[124] & 0x80, 0x80);
}

#[test]
fn size_base256_max() {
    let mut h = Header::new_gnu();
    h.set_size(u64::MAX);
    assert_eq!(h.size().unwrap(), u64::MAX);
}

#[test]
fn size_octal_exact_bytes() {
    let mut h = Header::new_gnu();
    h.set_size(5);
    let bytes = h.as_bytes();
    // 11 zero-padded octal digits and a NUL terminator
    assert_eq!(&bytes[124..136], b"00000000005\0");
}

#[test]
fn mtime_roundtrip() {
    let mut h = Header::new_gnu();
    h.set_time(1700000000);
    assert_eq!(h.mtime().unwrap(), 1700000000);
}

#[test]
fn new_headers_have_zero_mtime() {
    assert_eq!(Header::new_gnu().mtime().unwrap(), 0);
    assert_eq!(Header::new_ustar().mtime().unwrap(), 0);
    assert_eq!(Header::new_old().mtime().unwrap(), 0);
}

#[test]
fn blank_numeric_field_reads_zero() {
    // an all-NUL mode field reads as zero, as historical tar readers accept
    let h = Header::new_gnu();
    assert_eq!(h.mode().unwrap(), 0);
    assert_eq!(h.uid().unwrap(), 0);
    assert_eq!(h.gid().unwrap(), 0);
    assert_eq!(h.size().unwrap(), 0);
}

#[test]
fn mode_roundtrip_and_overflow() {
    let mut h = Header::new_gnu();
    h.set_mode(0o754).unwrap();
    assert_eq!(h.mode().unwrap(), 0o754);
    assert_eq!(h.set_mode(0o10000000), Err(TarError::FieldOverflow));
    // a failed set leaves the previous value
    assert_eq!(h.mode().unwrap(), 0o754);
}

#[test]
fn uid_gid_roundtrip_and_overflow() {
    let mut h = Header::new_gnu();
    h.set_uid(1000).unwrap();
    h.set_gid(100).unwrap();
    assert_eq!(h.uid().unwrap(), 1000);
    assert_eq!(h.gid().unwrap(), 100);
    // values needing base-256
    h.set_uid(3000000000).unwrap();
    assert_eq!(h.uid().unwrap(), 3000000000);
    assert_eq!(h.set_uid(1 << 63), Err(TarError::FieldOverflow));
    assert_eq!(h.set_gid(u64::MAX), Err(TarError::FieldOverflow));
}

#[test]
fn path_roundtrip() {
    let mut h = Header::new_gnu();
    h.set_path(&b"some/dir/file.txt".to_vec()).unwrap();
    assert_eq!(h.path(), b"some/dir/file.txt".to_vec());
}

#[test]
fn path_exactly_100_bytes() {
    let name = vec![b'a'; 100];
    let mut h = Header::new_gnu();
    h.set_path(&name).unwrap();
    assert_eq!(h.path(), name);
}

#[test]
fn path_too_long() {
    let name = vec![b'a'; 101];
    let mut h = Header::new_gnu();
    assert_eq!(h.set_path(&name), Err(TarError::NameTooLong));
}

#[test]
fn path_with_nul_rejected() {
    let mut h = Header::new_gnu();
    assert_eq!(h.set_path(&b"a\0b".to_vec()), Err(TarError::NameTooLong));
}

#[test]
fn link_name_roundtrip() {
    let mut h = Header::new_gnu();
    assert!(h.link_name().is_none());
    h.set_link_name(&b"target/file".to_vec()).unwrap();
    assert_eq!(h.link_name().unwrap(), b"target/file".to_vec());
}

#[test]
fn entry_type_byte_roundtrip() {
    let all = [
        EntryType::Regular,
        EntryType::Link,
        EntryType::Symlink,
        EntryType::Char,
        EntryType::Block,
        EntryType::Directory,
        EntryType::Fifo,
        EntryType::Continuous,
        EntryType::GNULongName,
        EntryType::GNULongLink,
        EntryType::GNUSparse,
        EntryType::XGlobalHeader,
        EntryType::XHeader,
    ];
    for t in all {
        assert_eq!(EntryType::from_byte(t.to_byte()), t);
    }
}

#[test]
fn unknown_type_byte_reads_regular() {
    assert_eq!(EntryType::from_byte(0), EntryType::Regular);
    assert_eq!(EntryType::from_byte(b'Z'), EntryType::Regular);
}

#[test]
fn set_entry_type_roundtrip() {
    let mut h = Header::new_gnu();
    h.set_entry_type(EntryType::Directory);
    assert_eq!(h.entry_type(), EntryType::Directory);
}

#[test]
fn cksum_validates() {
    let mut h = Header::new_gnu();
    h.set_path(&b"a.txt".to_vec()).unwrap();
    h.set_size(5);
    h.set_cksum();
    let stored = h.cksum().unwrap();
    assert!(stored > 0);
    let bytes = h.as_bytes();
    let decoded = Header::decode(&bytes).unwrap();
    assert_eq!(decoded.as_bytes(), bytes);
}

#[test]
fn corrupting_one_byte_fails_decode() {
    let mut h = Header::new_gnu();
    h.set_path(&b"a.txt".to_vec()).unwrap();
    h.set_size(5);
    h.set_cksum();
    let good = h.as_bytes();
    assert!(Header::decode(&good).is_ok());
    // flip each byte outside the checksum field in turn
    for i in [0usize, 50, 124, 156, 200, 300, 511] {
        let mut bad = good.clone();
        bad[i] = bad[i].wrapping_add(1);
        assert_eq!(Header::decode(&bad).err(), Some(TarError::CorruptHeader), "byte {i}");
    }
}

#[test]
fn decode_wrong_length_fails() {
    assert_eq!(Header::decode(&vec![0u8; 100]).err(), Some(TarError::CorruptHeader));
    assert_eq!(Header::decode(&vec![0u8; 513]).err(), Some(TarError::CorruptHeader));
}

#[test]
fn decode_unset_cksum_fails() {
    let h = Header::new_gnu();
    // checksum never computed: stored zero cannot match
    assert_eq!(Header::decode(&h.as_bytes()).err(), Some(TarError::CorruptHeader));
}

#[test]
fn usernames_only_in_ustar_and_gnu() {
    let mut g = Header::new_gnu();
    g.set_username(&b"alice".to_vec()).unwrap();
    g.set_groupname(&b"staff".to_vec()).unwrap();
    assert_eq!(g.username().unwrap(), b"alice".to_vec());
    assert_eq!(g.groupname().unwrap(), b"staff".to_vec());

    let mut old = Header::new_old();
    assert!(old.set_username(&b"alice".to_vec()).is_err());
    assert!(old.username().is_none());
}

#[test]
fn devices_only_in_ustar_and_gnu() {
    let mut u = Header::new_ustar();
    u.set_device_major(8).unwrap();
    u.set_device_minor(1).unwrap();
    assert_eq!(u.device_major().unwrap(), Some(8));
    assert_eq!(u.device_minor().unwrap(), Some(1));

    let old = Header::new_old();
    assert_eq!(old.device_major().unwrap(), None);
    assert_eq!(old.device_minor().unwrap(), None);
}

#[test]
fn ustar_prefix_joins_into_path() {
    // build a ustar record with a prefix by hand
    let mut h = Header::new_ustar();
    h.set_path(&b"file.txt".to_vec()).unwrap();
    let mut bytes = h.as_bytes();
    let prefix = b"deep/dir";
    bytes[345..345 + prefix.len()].copy_from_slice(prefix);
    // recompute the checksum over the edited record
    let sum: u32 = bytes
        .iter()
        .enumerate()
        .map(|(i, b)| if (148..156).contains(&i) { 0x20u32 } else { *b as u32 })
        .sum();
    let field = format!("{:07o}\0", sum);
    bytes[148..156].copy_from_slice(field.as_bytes());
    let decoded = Header::decode(&bytes).unwrap();
    assert_eq!(decoded.path(), b"deep/dir/file.txt".to_vec());
}
