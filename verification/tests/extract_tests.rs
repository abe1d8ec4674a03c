//! Extraction planning: traversal safety and permission handling.

use tarkit::extract::sanitize_path;
use tarkit::Archive;
use tarkit::Builder;
use tarkit::EntryType;
use tarkit::Sanitized;
use tarkit::UnpackAction;

fn archive_with(entries: &[(&[u8], EntryType, u32, &[u8])]) -> Archive {
    let mut b = Builder::new();
    for (name, et, mode, data) in entries {
        b.append_entry(&name.to_vec(), *et, *mode, 0, 0, 0, None, &data.to_vec()).unwrap();
    }
    Archive::new(b.finish()).unwrap()
}

#[test]
fn traversal_entry_is_skipped() {
    let archive = archive_with(&[
        (b"../../etc/passwd", EntryType::Regular, 0o644, b"evil"),
        (b"good.txt", EntryType::Regular, 0o644, b"fine"),
    ]);
    let plan = archive.unpack().unwrap();
    assert_eq!(plan.len(), 2);
    match &plan[0] {
        UnpackAction::SkipTraversal { path } => {
            assert_eq!(path, &b"../../etc/passwd".to_vec());
        },
        _ => panic!("traversal entry must be skipped"),
    }
    match &plan[1] {
        UnpackAction::File { path, data, .. } => {
            assert_eq!(path, &b"good.txt".to_vec());
            assert_eq!(data, &b"fine".to_vec());
        },
        _ => panic!("safe entry must be written"),
    }
}

#[test]
fn no_written_path_escapes() {
    let archive = archive_with(&[
        (b"a/../../x", EntryType::Regular, 0o644, b"1"),
        (b"/absolute/path", EntryType::Regular, 0o644, b"2"),
        (b"./ok/./file", EntryType::Regular, 0o644, b"3"),
        (b"..", EntryType::Directory, 0o755, b""),
    ]);
    let plan = archive.unpack().unwrap();
    for action in &plan {
        let written: Option<&Vec<u8>> = match action {
            UnpackAction::Dir { path, .. } => Some(path),
            UnpackAction::File { path, .. } => Some(path),
            UnpackAction::Symlink { path, .. } => Some(path),
            UnpackAction::HardLink { path, .. } => Some(path),
            UnpackAction::Fifo { path, .. } => Some(path),
            UnpackAction::Device { path, .. } => Some(path),
            UnpackAction::SkipTraversal { .. } => None,
            UnpackAction::SkipUnsupported { .. } => None,
        };
        if let Some(p) = written {
            assert!(!p.is_empty());
            assert_ne!(p[0], b'/');
            assert!(!p.windows(3).any(|w| w == b"../"));
            assert!(!p.ends_with(b".."));
        }
    }
    // the traversal ones are skips, the dotted one is cleaned
    assert!(matches!(plan[0], UnpackAction::SkipTraversal { .. }));
    match &plan[2] {
        UnpackAction::File { path, .. } => assert_eq!(path, &b"ok/file".to_vec()),
        _ => panic!("cleaned path must be written"),
    }
    assert!(matches!(plan[3], UnpackAction::SkipTraversal { .. }));
}

#[test]
fn absolute_path_is_made_relative() {
    let archive = archive_with(&[(b"/etc/hosts", EntryType::Regular, 0o644, b"h")]);
    let plan = archive.unpack().unwrap();
    match &plan[0] {
        UnpackAction::File { path, .. } => assert_eq!(path, &b"etc/hosts".to_vec()),
        _ => panic!("absolute path entry must be written relative"),
    }
}

#[test]
fn mask_applies_to_mode() {
    let mut archive = archive_with(&[(b"f", EntryType::Regular, 0o777, b"x")]);
    archive.set_mask(0o022);
    let plan = archive.unpack().unwrap();
    match &plan[0] {
        UnpackAction::File { mode, .. } => assert_eq!(*mode, Some(0o755)),
        _ => panic!("expected a file action"),
    }
}

#[test]
fn extended_bits_dropped_without_preserve_permissions() {
    let mut archive = archive_with(&[(b"f", EntryType::Regular, 0o4755, b"x")]);
    let plan = archive.unpack().unwrap();
    match &plan[0] {
        UnpackAction::File { mode, .. } => assert_eq!(*mode, Some(0o755)),
        _ => panic!("expected a file action"),
    }
    archive.set_preserve_permissions(true);
    let plan = archive.unpack().unwrap();
    match &plan[0] {
        UnpackAction::File { mode, .. } => assert_eq!(*mode, Some(0o4755)),
        _ => panic!("expected a file action"),
    }
}

#[test]
fn ownership_only_when_preserved() {
    let mut b = Builder::new();
    b.append_entry(&b"f".to_vec(), EntryType::Regular, 0o644, 1000, 100, 0, None, &b"x".to_vec())
        .unwrap();
    let mut archive = Archive::new(b.finish()).unwrap();
    let plan = archive.unpack().unwrap();
    match &plan[0] {
        UnpackAction::File { owner, .. } => assert_eq!(*owner, None),
        _ => panic!("expected a file action"),
    }
    archive.set_preserve_ownerships(true);
    let plan = archive.unpack().unwrap();
    match &plan[0] {
        UnpackAction::File { owner, .. } => assert_eq!(*owner, Some((1000, 100))),
        _ => panic!("expected a file action"),
    }
}

#[test]
fn mtime_only_when_preserved() {
    let mut b = Builder::new();
    b.append_entry(
        &b"f".to_vec(),
        EntryType::Regular,
        0o644,
        0,
        0,
        1700000000,
        None,
        &b"x".to_vec(),
    )
    .unwrap();
    let mut archive = Archive::new(b.finish()).unwrap();
    let plan = archive.unpack().unwrap();
    match &plan[0] {
        UnpackAction::File { mtime, .. } => assert_eq!(*mtime, Some(1700000000)),
        _ => panic!("expected a file action"),
    }
    archive.set_preserve_mtime(false);
    let plan = archive.unpack().unwrap();
    match &plan[0] {
        UnpackAction::File { mtime, .. } => assert_eq!(*mtime, None),
        _ => panic!("expected a file action"),
    }
}

#[test]
fn symlink_and_hardlink_actions() {
    let mut b = Builder::new();
    b.append_entry(
        &b"s".to_vec(),
        EntryType::Symlink,
        0o777,
        0,
        0,
        0,
        Some(&b"../outside".to_vec()),
        &Vec::new(),
    )
    .unwrap();
    b.append_entry(
        &b"h".to_vec(),
        EntryType::Link,
        0o644,
        0,
        0,
        0,
        Some(&b"a.txt".to_vec()),
        &Vec::new(),
    )
    .unwrap();
    b.append_entry(
        &b"h2".to_vec(),
        EntryType::Link,
        0o644,
        0,
        0,
        0,
        Some(&b"../escape".to_vec()),
        &Vec::new(),
    )
    .unwrap();
    let archive = Archive::new(b.finish()).unwrap();
    let plan = archive.unpack().unwrap();
    // a symlink's target is stored verbatim; the link is created at a safe path
    match &plan[0] {
        UnpackAction::Symlink { path, target } => {
            assert_eq!(path, &b"s".to_vec());
            assert_eq!(target, &b"../outside".to_vec());
        },
        _ => panic!("expected a symlink action"),
    }
    // a hard link resolves its target under the destination too
    match &plan[1] {
        UnpackAction::HardLink { path, target } => {
            assert_eq!(path, &b"h".to_vec());
            assert_eq!(target, &b"a.txt".to_vec());
        },
        _ => panic!("expected a hard link action"),
    }
    // a hard link whose target would escape is skipped
    assert!(matches!(plan[2], UnpackAction::SkipTraversal { .. }));
}

#[test]
fn directory_and_fifo_actions() {
    let archive = archive_with(&[
        (b"d/", EntryType::Directory, 0o755, b""),
        (b"p", EntryType::Fifo, 0o600, b""),
    ]);
    let plan = archive.unpack().unwrap();
    match &plan[0] {
        UnpackAction::Dir { path, mode, .. } => {
            assert_eq!(path, &b"d".to_vec());
            assert_eq!(*mode, Some(0o755));
        },
        _ => panic!("expected a dir action"),
    }
    match &plan[1] {
        UnpackAction::Fifo { path, mode } => {
            assert_eq!(path, &b"p".to_vec());
            assert_eq!(*mode, Some(0o600));
        },
        _ => panic!("expected a fifo action"),
    }
}

#[test]
fn sparse_entries_are_passed_over() {
    let archive = archive_with(&[(b"sp", EntryType::GNUSparse, 0o644, b"sparse-map")]);
    let plan = archive.unpack().unwrap();
    assert!(matches!(plan[0], UnpackAction::SkipUnsupported { .. }));
}

#[test]
fn sanitize_path_cases() {
    match sanitize_path(&b"a/b/c".to_vec()) {
        Sanitized::Safe(p) => assert_eq!(p, b"a/b/c".to_vec()),
        _ => panic!(),
    }
    match sanitize_path(&b"./a//b/".to_vec()) {
        Sanitized::Safe(p) => assert_eq!(p, b"a/b".to_vec()),
        _ => panic!(),
    }
    match sanitize_path(&b"/abs".to_vec()) {
        Sanitized::Safe(p) => assert_eq!(p, b"abs".to_vec()),
        _ => panic!(),
    }
    assert!(matches!(sanitize_path(&b".".to_vec()), Sanitized::Empty));
    assert!(matches!(sanitize_path(&b"".to_vec()), Sanitized::Empty));
    assert!(matches!(sanitize_path(&b"a/..".to_vec()), Sanitized::Traversal));
    assert!(matches!(sanitize_path(&b"../x".to_vec()), Sanitized::Traversal));
}
