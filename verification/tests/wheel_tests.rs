//! Tests for locating a wheel's dist-info directory and reading its
//! metadata.

use rattler_installs_packages::package_name::NormalizedPackageName;
use rattler_installs_packages::wheel::{
    find_dist_info, metadata_fetch_range, tail_prefetch_range, ArchivedWheel, LocalWheel,
    WheelVitalsError,
};
use rattler_installs_packages::metadata::WheelCoreMetaDataError;
use rattler_installs_packages::wheel_name::WheelFilename;
use std::io::Write;
use std::str::FromStr;

fn wheel_name(filename: &str, package: &str) -> WheelFilename {
    let expected = NormalizedPackageName::from_str(package).unwrap();
    WheelFilename::from_filename(filename, &expected).unwrap()
}

fn build_zip(entries: &[(&str, &[u8])]) -> Vec<u8> {
    let options = zip::write::SimpleFileOptions::default()
        .compression_method(zip::CompressionMethod::Stored);
    let mut writer = zip::ZipWriter::new(std::io::Cursor::new(Vec::new()));
    for (name, data) in entries {
        writer.start_file(*name, options).unwrap();
        writer.write_all(data).unwrap();
    }
    writer.finish().unwrap().into_inner()
}

#[test]
fn finds_single_dist_info() {
    let name = wheel_name("miniblack-23.1.0-py3-none-any.whl", "miniblack");
    let files = vec![
        "miniblack/__init__.py".to_owned(),
        "miniblack-23.1.0.dist-info/METADATA".to_owned(),
        "miniblack-23.1.0.dist-info/RECORD".to_owned(),
    ];
    assert_eq!(find_dist_info(&name, &files).unwrap(), "miniblack-23.1.0");
}

#[test]
fn dist_info_matches_by_normalized_name_and_version() {
    // The directory spells name and version differently but means the same
    // package: "Mini.Black" normalizes to "mini-black" and 23.1 equals
    // 23.1.0 under PEP 440.
    let name = wheel_name("mini_black-23.1.0-py3-none-any.whl", "mini-black");
    let files = vec!["Mini.Black-23.1.dist-info/METADATA".to_owned()];
    assert_eq!(find_dist_info(&name, &files).unwrap(), "Mini.Black-23.1");
}

#[test]
fn missing_dist_info_is_reported() {
    let name = wheel_name("miniblack-23.1.0-py3-none-any.whl", "miniblack");
    let files = vec![
        "miniblack/__init__.py".to_owned(),
        // A dist-info of another package does not count.
        "other-1.0.dist-info/METADATA".to_owned(),
        // Nor one of another version.
        "miniblack-9.9.9.dist-info/METADATA".to_owned(),
    ];
    assert!(matches!(
        find_dist_info(&name, &files),
        Err(WheelVitalsError::DistInfoMissing)
    ));
}

#[test]
fn multiple_dist_infos_are_ambiguous() {
    let name = wheel_name("miniblack-23.1.0-py3-none-any.whl", "miniblack");
    let files = vec![
        "miniblack-23.1.0.dist-info/METADATA".to_owned(),
        "MiniBlack-23.1.0.dist-info/METADATA".to_owned(),
    ];
    match find_dist_info(&name, &files) {
        Err(WheelVitalsError::MultipleSpecialDirs(kind)) => assert_eq!(kind, "dist-info"),
        other => panic!("expected MultipleSpecialDirs, got {:?}", other),
    }
}

#[test]
fn reads_wheel_metadata() {
    let name = wheel_name("miniblack-23.1.0-py3-none-any.whl", "miniblack");
    let data = build_zip(&[
        ("miniblack/__init__.py", b"".as_slice()),
        (
            "miniblack-23.1.0.dist-info/METADATA",
            b"Metadata-Version: 2.1\nName: miniblack\nVersion: 23.1.0\n\nbody\n".as_slice(),
        ),
    ]);
    let wheel = ArchivedWheel::from_bytes(name, data).unwrap();
    let (blob, metadata) = wheel.metadata().unwrap();
    assert!(blob.starts_with(b"Metadata-Version"));
    assert_eq!(metadata.name.as_str(), "miniblack");
    assert_eq!(metadata.version, "23.1.0");
}

#[test]
fn metadata_name_mismatch_fails_to_parse() {
    let name = wheel_name("miniblack-23.1.0-py3-none-any.whl", "miniblack");
    let data = build_zip(&[(
        "miniblack-23.1.0.dist-info/METADATA",
        b"Name: other\nVersion: 23.1.0\n".as_slice(),
    )]);
    let wheel = ArchivedWheel::from_bytes(name, data).unwrap();
    match wheel.metadata() {
        Err(WheelVitalsError::InvalidMetadata(WheelCoreMetaDataError::FailedToParse(_))) => {}
        other => panic!("expected FailedToParse, got {:?}", other),
    }
}

#[test]
fn metadata_version_mismatch_fails_to_parse() {
    let name = wheel_name("miniblack-23.1.0-py3-none-any.whl", "miniblack");
    let data = build_zip(&[(
        "miniblack-23.1.0.dist-info/METADATA",
        b"Name: miniblack\nVersion: 9.9.9\n".as_slice(),
    )]);
    let wheel = ArchivedWheel::from_bytes(name, data).unwrap();
    match wheel.metadata() {
        Err(WheelVitalsError::InvalidMetadata(WheelCoreMetaDataError::FailedToParse(_))) => {}
        other => panic!("expected FailedToParse, got {:?}", other),
    }
}

#[test]
fn metadata_missing_dist_info() {
    let name = wheel_name("miniblack-23.1.0-py3-none-any.whl", "miniblack");
    let data = build_zip(&[("miniblack/__init__.py", b"".as_slice())]);
    let wheel = ArchivedWheel::from_bytes(name, data).unwrap();
    assert!(matches!(
        wheel.metadata(),
        Err(WheelVitalsError::DistInfoMissing)
    ));
}

#[test]
fn prefetch_ranges() {
    // The tail prefetch covers the last 16 KiB, or the whole stream.
    assert_eq!(tail_prefetch_range(100_000), (100_000 - 16384, 100_000));
    assert_eq!(tail_prefetch_range(1000), (0, 1000));

    // Entry prefetches round up to the zip reader's 8 KiB blocks.
    assert_eq!(metadata_fetch_range(0, 1, 10), (0, 8192));
    // 8151 + 30 + 11 = 8192 exactly; no extra block.
    assert_eq!(metadata_fetch_range(500, 8151, 11), (500, 500 + 8192));
    assert_eq!(metadata_fetch_range(500, 8152, 11), (500, 500 + 16384));
}

#[test]
fn local_wheel_wraps_archived_wheel() {
    let name = wheel_name("miniblack-23.1.0-py3-none-any.whl", "miniblack");
    let data = build_zip(&[("miniblack/__init__.py", b"".as_slice())]);
    let wheel = LocalWheel::from_bytes(name, data).unwrap();
    assert_eq!(wheel.name().version, "23.1.0");
    assert!(LocalWheel::from_bytes(
        wheel_name("miniblack-23.1.0-py3-none-any.whl", "miniblack"),
        vec![0u8; 4]
    )
    .is_err());
}
