//! Tests for the manifest codec.

use rattler_installs_packages::cache::{extract, CachedWheel, CachedWheelEntry};
use rattler_installs_packages::owned_archive::OwnedArchive;
use std::io::Write;

fn sample_manifest() -> CachedWheel {
    CachedWheel {
        files: vec![
            (
                "pkg/__init__.py".to_owned(),
                CachedWheelEntry {
                    content: "xxh3-abcd".to_owned(),
                    sha256: "sha256=efgh".to_owned(),
                    mode: Some(0o644),
                },
            ),
            (
                "pkg/data.bin".to_owned(),
                CachedWheelEntry {
                    content: "xxh3-ijkl".to_owned(),
                    sha256: "sha256=mnop".to_owned(),
                    mode: None,
                },
            ),
        ],
        directories: vec!["pkg/".to_owned()],
    }
}

#[test]
fn codec_round_trip() {
    let manifest = sample_manifest();
    let archive = OwnedArchive::from_unarchived(&manifest);

    // The borrowed view equals the original.
    assert_eq!(OwnedArchive::archived(&archive), &manifest);

    // Validating the serialized bytes succeeds and decodes to an equal
    // manifest.
    let bytes = OwnedArchive::as_bytes(&archive).to_vec();
    let reread = OwnedArchive::new(bytes.clone()).unwrap();
    assert_eq!(OwnedArchive::deserialize(&reread), manifest);

    // Serialization is stable: re-encoding the decoded manifest gives the
    // same bytes.
    let archive2 = OwnedArchive::from_unarchived(&OwnedArchive::deserialize(&reread));
    assert_eq!(OwnedArchive::as_bytes(&archive2), bytes.as_slice());
}

#[test]
fn codec_rejects_corrupted_buffers() {
    assert!(OwnedArchive::new(Vec::new()).is_err());
    assert!(OwnedArchive::new(vec![0u8; 16]).is_err());

    // Flipping a magic byte of a valid encoding is rejected.
    let archive = OwnedArchive::from_unarchived(&sample_manifest());
    let mut bytes = OwnedArchive::as_bytes(&archive).to_vec();
    bytes[0] ^= 0xFF;
    assert!(OwnedArchive::new(bytes).is_err());

    // Truncating a valid encoding is rejected.
    let mut bytes = OwnedArchive::as_bytes(&archive).to_vec();
    bytes.pop();
    assert!(OwnedArchive::new(bytes).is_err());

    // Appending to a valid encoding is rejected: the buffer must be consumed
    // exactly.
    let mut bytes = OwnedArchive::as_bytes(&archive).to_vec();
    bytes.push(0);
    assert!(OwnedArchive::new(bytes).is_err());
}

#[test]
fn codec_round_trips_extracted_manifest() {
    let cache = tempfile::tempdir().unwrap();
    let options = zip::write::SimpleFileOptions::default()
        .compression_method(zip::CompressionMethod::Stored);
    let mut writer = zip::ZipWriter::new(std::io::Cursor::new(Vec::new()));
    writer.start_file("hello.txt", options).unwrap();
    writer.write_all(b"hello world\n").unwrap();
    let wheel = writer.finish().unwrap().into_inner();

    let manifest = extract(cache.path().to_str().unwrap(), &wheel).unwrap();
    let archive = OwnedArchive::from_unarchived(&manifest);
    let reread = OwnedArchive::new(OwnedArchive::as_bytes(&archive).to_vec()).unwrap();
    assert_eq!(OwnedArchive::deserialize(&reread), manifest);
}
