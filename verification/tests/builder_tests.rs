//! Writer behavior and write/read round trips.

use std::io::Read;
use tarkit::Archive;
use tarkit::Builder;
use tarkit::EntryType;
use tarkit::TarError;

#[test]
fn empty_finish_is_two_zero_blocks() {
    let b = Builder::new();
    let out = b.finish();
    assert_eq!(out.len(), 1024);
    assert!(out.iter().all(|&x| x == 0));
}

#[test]
fn append_data_roundtrip() {
    let mut b = Builder::new();
    b.append_data(&b"a.txt".to_vec(), &b"hello".to_vec()).unwrap();
    let bytes = b.finish();
    // one 512-byte header, one padded body block, two trailer blocks
    assert_eq!(bytes.len(), 512 + 512 + 1024);

    let archive = Archive::new(bytes).unwrap();
    let entries = archive.entries().unwrap();
    assert_eq!(entries.len(), 1);
    assert_eq!(entries[0].path(), &b"a.txt".to_vec());
    assert_eq!(entries[0].as_bytes(), &b"hello".to_vec());
    assert_eq!(entries[0].header().size().unwrap(), 5);
    assert_eq!(entries[0].header().entry_type(), EntryType::Regular);
}

#[test]
fn entry_order_and_types_preserved() {
    let mut b = Builder::new();
    b.append_entry(
        &b"dir/".to_vec(),
        EntryType::Directory,
        0o755,
        0,
        0,
        0,
        None,
        &Vec::new(),
    )
    .unwrap();
    b.append_entry(
        &b"dir/file.txt".to_vec(),
        EntryType::Regular,
        0o644,
        0,
        0,
        0,
        None,
        &b"contents".to_vec(),
    )
    .unwrap();
    let bytes = b.finish();

    let archive = Archive::new(bytes).unwrap();
    let entries = archive.entries().unwrap();
    assert_eq!(entries.len(), 2);
    assert_eq!(entries[0].path(), &b"dir/".to_vec());
    assert_eq!(entries[0].header().entry_type(), EntryType::Directory);
    assert_eq!(entries[1].path(), &b"dir/file.txt".to_vec());
    assert_eq!(entries[1].header().entry_type(), EntryType::Regular);
    assert_eq!(entries[1].as_bytes(), &b"contents".to_vec());
}

#[test]
fn append_data_name_too_long() {
    let mut b = Builder::new();
    let long = vec![b'x'; 101];
    assert_eq!(b.append_data(&long, &b"data".to_vec()), Err(TarError::NameTooLong));
    // a failed append leaves the stream untouched
    let out = b.finish();
    assert_eq!(out.len(), 1024);
}

#[test]
fn append_entry_metadata_survives() {
    let mut b = Builder::new();
    b.append_entry(
        &b"file".to_vec(),
        EntryType::Regular,
        0o640,
        1000,
        100,
        1700000000,
        None,
        &b"xyz".to_vec(),
    )
    .unwrap();
    let archive = Archive::new(b.finish()).unwrap();
    let entries = archive.entries().unwrap();
    let h = entries[0].header();
    assert_eq!(h.mode().unwrap(), 0o640);
    assert_eq!(h.uid().unwrap(), 1000);
    assert_eq!(h.gid().unwrap(), 100);
    assert_eq!(h.mtime().unwrap(), 1700000000);
}

#[test]
fn symlink_entry_roundtrip() {
    let mut b = Builder::new();
    b.append_entry(
        &b"link".to_vec(),
        EntryType::Symlink,
        0o777,
        0,
        0,
        0,
        Some(&b"target".to_vec()),
        &Vec::new(),
    )
    .unwrap();
    let archive = Archive::new(b.finish()).unwrap();
    let entries = archive.entries().unwrap();
    assert_eq!(entries[0].header().entry_type(), EntryType::Symlink);
    assert_eq!(entries[0].link_name().as_ref().unwrap(), &b"target".to_vec());
}

#[test]
fn body_padding_is_zero() {
    let mut b = Builder::new();
    b.append_data(&b"f".to_vec(), &b"abc".to_vec()).unwrap();
    let bytes = b.finish();
    // body occupies 3 bytes; the rest of its block is zero padding
    assert_eq!(&bytes[512..515], b"abc");
    assert!(bytes[515..1024].iter().all(|&x| x == 0));
}

#[test]
fn large_body_crosses_blocks() {
    let data: Vec<u8> = (0..1000u32).map(|i| (i % 251) as u8).collect();
    let mut b = Builder::new();
    b.append_data(&b"big".to_vec(), &data).unwrap();
    let archive = Archive::new(b.finish()).unwrap();
    let entries = archive.entries().unwrap();
    assert_eq!(entries[0].as_bytes(), &data);
    assert_eq!(entries[0].header().size().unwrap(), 1000);
}

#[test]
fn interop_tar_crate_reads_our_archive() {
    let mut b = Builder::new();
    b.append_data(&b"a.txt".to_vec(), &b"hello".to_vec()).unwrap();
    let bytes = b.finish();

    let mut ar = tar::Archive::new(&bytes[..]);
    let mut entries = ar.entries().unwrap();
    let mut first = entries.next().unwrap().unwrap();
    assert_eq!(first.path().unwrap().to_str().unwrap(), "a.txt");
    let mut body = Vec::new();
    first.read_to_end(&mut body).unwrap();
    assert_eq!(body, b"hello");
    assert!(entries.next().is_none());
}

#[test]
fn interop_we_read_tar_crate_archive() {
    let mut tb = tar::Builder::new(Vec::new());
    let mut th = tar::Header::new_gnu();
    th.set_size(5);
    th.set_path("b.txt").unwrap();
    th.set_mode(0o644);
    th.set_cksum();
    tb.append(&th, &b"world"[..]).unwrap();
    let bytes = tb.into_inner().unwrap();

    let archive = Archive::new(bytes).unwrap();
    let entries = archive.entries().unwrap();
    assert_eq!(entries.len(), 1);
    assert_eq!(entries[0].path(), &b"b.txt".to_vec());
    assert_eq!(entries[0].as_bytes(), &b"world".to_vec());
    assert_eq!(entries[0].header().mode().unwrap(), 0o644);
}
