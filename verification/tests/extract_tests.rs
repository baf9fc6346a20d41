//! Tests for the content-addressed extraction cache.

use rattler_installs_packages::cache::{extract, ExtractWheelError};
use std::io::Write;

/// Builds a zip archive in memory with the given entries; a name ending in
/// `/` becomes a directory entry.
fn build_zip(entries: &[(&str, &[u8])]) -> Vec<u8> {
    let options = zip::write::SimpleFileOptions::default()
        .compression_method(zip::CompressionMethod::Stored);
    let mut writer = zip::ZipWriter::new(std::io::Cursor::new(Vec::new()));
    for (name, data) in entries {
        if name.ends_with('/') {
            writer.add_directory(name.trim_end_matches('/'), options).unwrap();
        } else {
            writer.start_file(*name, options).unwrap();
            writer.write_all(data).unwrap();
        }
    }
    writer.finish().unwrap().into_inner()
}

/// Builds a minimal zip stream holding one stored, empty entry with raw name
/// bytes, followed by the start of a central directory.
fn raw_zip_single(name: &[u8]) -> Vec<u8> {
    let mut out = Vec::new();
    out.extend_from_slice(&[0x50, 0x4B, 0x03, 0x04]); // local file header
    out.extend_from_slice(&[20, 0]); // version needed
    out.extend_from_slice(&[0, 0]); // flags
    out.extend_from_slice(&[0, 0]); // method: stored
    out.extend_from_slice(&[0, 0, 0, 0]); // mod time/date
    out.extend_from_slice(&[0, 0, 0, 0]); // crc32 of empty data
    out.extend_from_slice(&[0, 0, 0, 0]); // compressed size
    out.extend_from_slice(&[0, 0, 0, 0]); // uncompressed size
    out.extend_from_slice(&(name.len() as u16).to_le_bytes());
    out.extend_from_slice(&[0, 0]); // extra length
    out.extend_from_slice(name);
    out.extend_from_slice(&[0x50, 0x4B, 0x01, 0x02]); // central directory follows
    out
}

#[test]
fn test_extract_zip_archive() {
    let cache = tempfile::tempdir().unwrap();
    let wheel = build_zip(&[
        ("miniblack/", b""),
        ("miniblack/__init__.py", b"print('hello')\n"),
        ("miniblack-23.1.0.dist-info/METADATA", b"Name: miniblack\nVersion: 23.1.0\n"),
    ]);

    let archive = extract(cache.path().to_str().unwrap(), &wheel).unwrap();

    // Extracting the same bytes again yields an equal manifest.
    let archive2 = extract(cache.path().to_str().unwrap(), &wheel).unwrap();
    assert_eq!(&archive, &archive2);

    // And so does extracting into a fresh store.
    let cache2 = tempfile::tempdir().unwrap();
    let archive3 = extract(cache2.path().to_str().unwrap(), &wheel).unwrap();
    assert_eq!(&archive, &archive3);

    assert_eq!(archive.directories, vec!["miniblack/".to_owned()]);
    assert_eq!(archive.files.len(), 2);
    // The file map is sorted by path.
    assert_eq!(archive.files[0].0, "miniblack-23.1.0.dist-info/METADATA");
    assert_eq!(archive.files[1].0, "miniblack/__init__.py");
    for (_, entry) in &archive.files {
        assert!(entry.sha256.starts_with("sha256="));
        assert!(entry.content.starts_with("xxh3-"));
    }
    // Different contents land under different store keys.
    assert_ne!(archive.files[0].1.content, archive.files[1].1.content);
    assert_ne!(archive.files[0].1.sha256, archive.files[1].1.sha256);
}

#[test]
fn extract_known_sha256() {
    // sha256("abc") = ba7816bf8f01cfea414140de5dae2223b00361a396177a9cb410ff61f20015ad,
    // whose base64url-no-pad form is below.
    let cache = tempfile::tempdir().unwrap();
    let wheel = build_zip(&[("a.txt", b"abc")]);
    let archive = extract(cache.path().to_str().unwrap(), &wheel).unwrap();
    assert_eq!(
        archive.files[0].1.sha256,
        "sha256=ungWv48Bz-pBQUDeXa4iI7ADYaOWF3qctBD_YfIAFa0"
    );
}

#[test]
fn extract_rejects_parent_traversal() {
    let cache = tempfile::tempdir().unwrap();
    let zip_bytes = raw_zip_single(b"../evil.txt");
    match extract(cache.path().to_str().unwrap(), &zip_bytes) {
        Err(ExtractWheelError::InvalidEntry(name, reason)) => {
            assert_eq!(name, "../evil.txt");
            assert_eq!(reason, "is not a valid path");
        }
        other => panic!("expected InvalidEntry, got {:?}", other),
    }
}

#[test]
fn extract_rejects_absolute_path() {
    let cache = tempfile::tempdir().unwrap();
    let zip_bytes = raw_zip_single(b"/etc/passwd");
    match extract(cache.path().to_str().unwrap(), &zip_bytes) {
        Err(ExtractWheelError::InvalidEntry(_, reason)) => {
            assert_eq!(reason, "is not a valid path");
        }
        other => panic!("expected InvalidEntry, got {:?}", other),
    }
}

#[test]
fn extract_rejects_backslash_traversal() {
    let cache = tempfile::tempdir().unwrap();
    let zip_bytes = raw_zip_single(b"..\\evil.txt");
    match extract(cache.path().to_str().unwrap(), &zip_bytes) {
        Err(ExtractWheelError::InvalidEntry(_, reason)) => {
            assert_eq!(reason, "is not a valid path");
        }
        other => panic!("expected InvalidEntry, got {:?}", other),
    }
}

#[test]
fn extract_rejects_invalid_utf8_name() {
    let cache = tempfile::tempdir().unwrap();
    let zip_bytes = raw_zip_single(&[0xFF, 0xFE, 0x2E, 0x74, 0x78, 0x74]);
    match extract(cache.path().to_str().unwrap(), &zip_bytes) {
        Err(ExtractWheelError::InvalidEntry(_, reason)) => {
            assert_eq!(reason, "is not a valid utf-8 path");
        }
        other => panic!("expected InvalidEntry, got {:?}", other),
    }
}

#[test]
fn extract_normalizes_separators() {
    let cache = tempfile::tempdir().unwrap();
    let zip_bytes = raw_zip_single(b"pkg\\data.txt");
    let archive = extract(cache.path().to_str().unwrap(), &zip_bytes).unwrap();
    assert_eq!(archive.files.len(), 1);
    assert_eq!(archive.files[0].0, "pkg/data.txt");
}

#[test]
fn extract_rejects_garbage() {
    let cache = tempfile::tempdir().unwrap();
    let garbage = vec![1u8, 2, 3, 4, 5, 6, 7, 8];
    match extract(cache.path().to_str().unwrap(), &garbage) {
        Err(ExtractWheelError::Zip(_)) => {}
        other => panic!("expected Zip error, got {:?}", other),
    }
}
