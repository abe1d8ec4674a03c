//! GNU long-name and PAX extension records.

use tarkit::Archive;
use tarkit::Builder;
use tarkit::EntryType;
use tarkit::TarError;

fn append_extension(b: &mut Builder, et: EntryType, payload: &[u8]) {
    // extension records carry their payload as a body under a short name
    b.append_entry(
        &b"././@PaxHeader".to_vec(),
        et,
        0o644,
        0,
        0,
        0,
        None,
        &payload.to_vec(),
    )
    .unwrap();
}

#[test]
fn gnu_long_name_applies() {
    let long = vec![b'n'; 150];
    let mut payload = long.clone();
    payload.push(0);
    let mut b = Builder::new();
    append_extension(&mut b, EntryType::GNULongName, &payload);
    b.append_data(&b"short".to_vec(), &b"data".to_vec()).unwrap();
    let archive = Archive::new(b.finish()).unwrap();
    let entries = archive.entries().unwrap();
    assert_eq!(entries.len(), 1);
    assert_eq!(entries[0].path(), &long);
    assert_eq!(entries[0].as_bytes(), &b"data".to_vec());
}

#[test]
fn gnu_long_link_applies() {
    let target = vec![b't'; 120];
    let mut payload = target.clone();
    payload.push(0);
    let mut b = Builder::new();
    append_extension(&mut b, EntryType::GNULongLink, &payload);
    b.append_entry(
        &b"l".to_vec(),
        EntryType::Symlink,
        0o777,
        0,
        0,
        0,
        Some(&b"short-target".to_vec()),
        &Vec::new(),
    )
    .unwrap();
    let archive = Archive::new(b.finish()).unwrap();
    let entries = archive.entries().unwrap();
    assert_eq!(entries[0].link_name().as_ref().unwrap(), &target);
}

#[test]
fn pax_path_override_applies() {
    let mut b = Builder::new();
    append_extension(&mut b, EntryType::XHeader, b"27 path=very/long/name.txt\n");
    b.append_data(&b"short".to_vec(), &b"hello".to_vec()).unwrap();
    let archive = Archive::new(b.finish()).unwrap();
    let entries = archive.entries().unwrap();
    assert_eq!(entries.len(), 1);
    assert_eq!(entries[0].path(), &b"very/long/name.txt".to_vec());
    assert_eq!(entries[0].as_bytes(), &b"hello".to_vec());
}

#[test]
fn pax_linkpath_override_applies() {
    let mut b = Builder::new();
    append_extension(&mut b, EntryType::XHeader, b"23 linkpath=new/target\n");
    b.append_entry(
        &b"l".to_vec(),
        EntryType::Symlink,
        0o777,
        0,
        0,
        0,
        Some(&b"old".to_vec()),
        &Vec::new(),
    )
    .unwrap();
    let archive = Archive::new(b.finish()).unwrap();
    let entries = archive.entries().unwrap();
    assert_eq!(entries[0].link_name().as_ref().unwrap(), &b"new/target".to_vec());
}

#[test]
fn pax_records_kept_on_entry() {
    let mut b = Builder::new();
    append_extension(&mut b, EntryType::XHeader, b"27 path=very/long/name.txt\n18 uname=somebody\n");
    b.append_data(&b"short".to_vec(), &b"x".to_vec()).unwrap();
    let archive = Archive::new(b.finish()).unwrap();
    let entries = archive.entries().unwrap();
    let recs = entries[0].pax_records();
    assert_eq!(recs.len(), 2);
    assert_eq!(recs[0].key(), &b"path".to_vec());
    assert_eq!(recs[0].value(), &b"very/long/name.txt".to_vec());
    assert_eq!(recs[1].key(), &b"uname".to_vec());
    assert_eq!(recs[1].value(), &b"somebody".to_vec());
}

#[test]
fn pax_global_header_persists() {
    let mut b = Builder::new();
    append_extension(&mut b, EntryType::XGlobalHeader, b"17 path=everyone\n");
    b.append_data(&b"one".to_vec(), &b"1".to_vec()).unwrap();
    b.append_data(&b"two".to_vec(), &b"2".to_vec()).unwrap();
    let archive = Archive::new(b.finish()).unwrap();
    let entries = archive.entries().unwrap();
    // the global default applies to every following entry
    assert_eq!(entries[0].path(), &b"everyone".to_vec());
    assert_eq!(entries[1].path(), &b"everyone".to_vec());
}

#[test]
fn pax_local_override_beats_global() {
    let mut b = Builder::new();
    append_extension(&mut b, EntryType::XGlobalHeader, b"16 path=default\n");
    append_extension(&mut b, EntryType::XHeader, b"17 path=specific\n");
    b.append_data(&b"one".to_vec(), &b"1".to_vec()).unwrap();
    b.append_data(&b"two".to_vec(), &b"2".to_vec()).unwrap();
    let archive = Archive::new(b.finish()).unwrap();
    let entries = archive.entries().unwrap();
    assert_eq!(entries[0].path(), &b"specific".to_vec());
    assert_eq!(entries[1].path(), &b"default".to_vec());
}

#[test]
fn malformed_pax_record_is_corrupt() {
    let mut b = Builder::new();
    append_extension(&mut b, EntryType::XHeader, b"banana\n");
    b.append_data(&b"f".to_vec(), &b"x".to_vec()).unwrap();
    let archive = Archive::new(b.finish()).unwrap();
    assert_eq!(archive.entries().err().unwrap(), TarError::CorruptHeader);
}

#[test]
fn pax_record_without_newline_is_corrupt() {
    let mut b = Builder::new();
    append_extension(&mut b, EntryType::XHeader, b"8 a=bcd");
    b.append_data(&b"f".to_vec(), &b"x".to_vec()).unwrap();
    let archive = Archive::new(b.finish()).unwrap();
    assert_eq!(archive.entries().err().unwrap(), TarError::CorruptHeader);
}

#[test]
fn pax_bad_size_value_is_corrupt() {
    let mut b = Builder::new();
    append_extension(&mut b, EntryType::XHeader, b"15 size=banana\n");
    b.append_data(&b"f".to_vec(), &b"x".to_vec()).unwrap();
    let archive = Archive::new(b.finish()).unwrap();
    assert_eq!(archive.entries().err().unwrap(), TarError::CorruptHeader);
}

#[test]
fn xattr_records_are_extracted() {
    let mut b = Builder::new();
    append_extension(
        &mut b,
        EntryType::XHeader,
        b"25 SCHILY.xattr.user.k=v\n18 uname=somebody\n",
    );
    b.append_data(&b"f".to_vec(), &b"x".to_vec()).unwrap();
    let archive = Archive::new(b.finish()).unwrap();
    let entries = archive.entries().unwrap();
    let xs = entries[0].xattrs();
    assert_eq!(xs.len(), 1);
    assert_eq!(xs[0].0, b"user.k".to_vec());
    assert_eq!(xs[0].1, b"v".to_vec());
    // non-xattr records are not extracted, but remain visible as records
    assert_eq!(entries[0].pax_records().len(), 2);
}

#[test]
fn pax_size_override_consistent() {
    // an explicit size record matching the following entry's size is benign
    let mut b = Builder::new();
    append_extension(&mut b, EntryType::XHeader, b"9 size=5\n");
    b.append_data(&b"f".to_vec(), &b"hello".to_vec()).unwrap();
    let archive = Archive::new(b.finish()).unwrap();
    let entries = archive.entries().unwrap();
    assert_eq!(entries[0].as_bytes(), &b"hello".to_vec());
}

#[test]
fn interop_tar_crate_long_names_via_pax() {
    // the tar crate emits extension records for long names; we must read them
    let long_name = "d/".repeat(40) + "file.txt";
    let mut tb = tar::Builder::new(Vec::new());
    let mut th = tar::Header::new_gnu();
    th.set_size(3);
    th.set_mode(0o644);
    th.set_cksum();
    tb.append_data(&mut th, long_name.clone(), &b"abc"[..]).unwrap();
    let bytes = tb.into_inner().unwrap();

    let archive = Archive::new(bytes).unwrap();
    let entries = archive.entries().unwrap();
    assert_eq!(entries.len(), 1);
    assert_eq!(entries[0].path(), &long_name.clone().into_bytes());
    assert_eq!(entries[0].as_bytes(), &b"abc".to_vec());
}
