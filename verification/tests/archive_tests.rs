//! Format sniffing, compression transparency, and stream-level behavior.

use std::io::Read;
use tarkit::source::detect_format;
use tarkit::Archive;
use tarkit::Builder;
use tarkit::Format;
use tarkit::TarError;

fn sample_archive() -> Vec<u8> {
    let mut b = Builder::new();
    b.append_data(&b"a.txt".to_vec(), &b"hello".to_vec()).unwrap();
    b.append_data(&b"b.txt".to_vec(), &b"world!".to_vec()).unwrap();
    b.finish()
}

#[test]
fn detects_tar_magic() {
    let bytes = sample_archive();
    assert_eq!(detect_format(&bytes), Some(Format::Tar));
}

#[test]
fn detects_gzip_magic() {
    assert_eq!(detect_format(&vec![0x1f, 0x8b, 0x08, 0x00]), Some(Format::Gzip));
}

#[test]
fn detects_bzip2_magic() {
    assert_eq!(detect_format(&b"BZh91AY".to_vec()), Some(Format::Bzip2));
}

#[test]
fn detects_xz_magic() {
    assert_eq!(detect_format(&vec![0xfd, 0x37, 0x7a, 0x58, 0x5a, 0x00, 0x00]), Some(Format::Xz));
}

#[test]
fn rejects_unknown_magic() {
    assert_eq!(detect_format(&b"not an archive at all".to_vec()), None);
    assert_eq!(
        Archive::new(b"not an archive at all".to_vec()).err().unwrap(),
        TarError::UnsupportedFormat
    );
}

fn paths_and_bodies(archive: &Archive) -> Vec<(Vec<u8>, Vec<u8>)> {
    archive
        .entries()
        .unwrap()
        .iter()
        .map(|e| (e.path().clone(), e.as_bytes().clone()))
        .collect()
}

#[test]
fn gzip_is_transparent() {
    let plain = sample_archive();
    let mut gz = Vec::new();
    flate2::read::GzEncoder::new(&plain[..], flate2::Compression::default())
        .read_to_end(&mut gz)
        .unwrap();
    assert_ne!(gz, plain);

    let a1 = Archive::new(plain).unwrap();
    let a2 = Archive::new(gz).unwrap();
    assert_eq!(paths_and_bodies(&a1), paths_and_bodies(&a2));
}

#[test]
fn bzip2_is_transparent() {
    let plain = sample_archive();
    let mut bz = Vec::new();
    bzip2::read::BzEncoder::new(&plain[..], bzip2::Compression::default())
        .read_to_end(&mut bz)
        .unwrap();
    assert_ne!(bz, plain);

    let a1 = Archive::new(plain).unwrap();
    let a2 = Archive::new(bz).unwrap();
    assert_eq!(paths_and_bodies(&a1), paths_and_bodies(&a2));
}

#[test]
fn xz_is_transparent() {
    let plain = sample_archive();
    let mut xz = Vec::new();
    lzma_rs::xz_compress(&mut &plain[..], &mut xz).unwrap();
    assert_ne!(xz, plain);

    let a1 = Archive::new(plain).unwrap();
    let a2 = Archive::new(xz).unwrap();
    assert_eq!(paths_and_bodies(&a1), paths_and_bodies(&a2));
}

#[test]
fn truncated_gzip_is_io_error() {
    let plain = sample_archive();
    let mut gz = Vec::new();
    flate2::read::GzEncoder::new(&plain[..], flate2::Compression::default())
        .read_to_end(&mut gz)
        .unwrap();
    gz.truncate(20);
    assert_eq!(Archive::new(gz).err().unwrap(), TarError::Io);
}

#[test]
fn corrupt_checksum_is_detected() {
    let mut bytes = sample_archive();
    bytes[0] = b'z';
    let archive = Archive::new(bytes).unwrap();
    assert_eq!(archive.entries().err().unwrap(), TarError::CorruptHeader);
}

#[test]
fn truncated_archive_is_corrupt() {
    let mut bytes = sample_archive();
    bytes.truncate(700);
    let archive = Archive::new(bytes).unwrap();
    assert_eq!(archive.entries().err().unwrap(), TarError::CorruptHeader);
}

#[test]
fn concatenated_archives_need_ignore_zeros() {
    let mut b1 = Builder::new();
    b1.append_data(&b"one".to_vec(), &b"1".to_vec()).unwrap();
    let mut b2 = Builder::new();
    b2.append_data(&b"two".to_vec(), &b"2".to_vec()).unwrap();
    let mut joined = b1.finish();
    joined.extend_from_slice(&b2.finish());

    let plain = Archive::new(joined.clone()).unwrap();
    assert_eq!(plain.entries().unwrap().len(), 1);

    let mut both = Archive::new(joined).unwrap();
    both.set_ignore_zeros(true);
    let es = both.entries().unwrap();
    assert_eq!(es.len(), 2);
    assert_eq!(es[0].path(), &b"one".to_vec());
    assert_eq!(es[1].path(), &b"two".to_vec());
}

#[test]
fn config_setters_hold() {
    let mut a = Archive::new(sample_archive()).unwrap();
    assert_eq!(a.mask(), 0);
    assert!(!a.unpack_xattrs());
    assert!(!a.preserve_permissions());
    assert!(!a.preserve_ownerships());
    assert!(a.overwrite());
    assert!(a.preserve_mtime());
    assert!(!a.ignore_zeros());
    a.set_mask(0o022);
    a.set_unpack_xattrs(true);
    a.set_preserve_permissions(true);
    a.set_preserve_ownerships(true);
    a.set_overwrite(false);
    a.set_preserve_mtime(false);
    a.set_ignore_zeros(true);
    assert_eq!(a.mask(), 0o022);
    assert!(a.unpack_xattrs());
    assert!(a.preserve_permissions());
    assert!(a.preserve_ownerships());
    assert!(!a.overwrite());
    assert!(!a.preserve_mtime());
    assert!(a.ignore_zeros());
}
