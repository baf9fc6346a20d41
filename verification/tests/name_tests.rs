//! Tests for package names, versions, filenames and embedded metadata.

use rattler_installs_packages::egg_info::{EggExt, EggFilename, InvalidEggFilename};
use rattler_installs_packages::metadata::{WheelCoreMetaDataError, WheelCoreMetadata};
use rattler_installs_packages::package_name::NormalizedPackageName;
use rattler_installs_packages::version::{parse_version, versions_equal};
use rattler_installs_packages::wheel_name::{ParseWheelFilenameError, WheelFilename};
use std::str::FromStr;

#[test]
fn normalize_package_names() {
    let n = NormalizedPackageName::from_str("Foo.Bar_baz").unwrap();
    assert_eq!(n.as_str(), "foo-bar-baz");
    let n = NormalizedPackageName::from_str("simplejson").unwrap();
    assert_eq!(n.as_str(), "simplejson");
    let n = NormalizedPackageName::from_str("A--B").unwrap();
    assert_eq!(n.as_str(), "a-b");
    assert!(NormalizedPackageName::from_str("").is_err());
    assert!(NormalizedPackageName::from_str("-leading").is_err());
    assert!(NormalizedPackageName::from_str("trailing.").is_err());
    assert!(NormalizedPackageName::from_str("has space").is_err());
}

#[test]
fn version_parsing_and_equality() {
    assert_eq!(parse_version("23.1.0").unwrap(), "23.1.0");
    assert_eq!(parse_version("1.0.0a1").unwrap(), "1.0.0a1");
    assert!(parse_version("not a version").is_err());
    // PEP 440 pads release segments with zeros.
    assert!(versions_equal("1.0", "1.0.0"));
    assert!(versions_equal("13.6.0", "13.6.0"));
    assert!(!versions_equal("13.6.0", "13.6.1"));
    assert!(!versions_equal("junk", "junk"));
}

#[test]
fn parse_wheel_filename() {
    let expected = NormalizedPackageName::from_str("miniblack").unwrap();
    let w = WheelFilename::from_filename("miniblack-23.1.0-py3-none-any.whl", &expected).unwrap();
    assert_eq!(w.distribution.as_str(), "miniblack");
    assert_eq!(w.version, "23.1.0");
    assert!(w.build_tag.is_none());
    assert_eq!(w.python_tag, "py3");
    assert_eq!(w.abi_tag, "none");
    assert_eq!(w.platform_tag, "any");

    let w = WheelFilename::from_filename("rich-13.6.0-4-py3-none-any.whl",
        &NormalizedPackageName::from_str("rich").unwrap()).unwrap();
    assert_eq!(w.build_tag.as_deref(), Some("4"));

    assert!(matches!(
        WheelFilename::from_filename("miniblack-23.1.0-py3-none-any.zip", &expected),
        Err(ParseWheelFilenameError::MissingExtension)
    ));
    assert!(matches!(
        WheelFilename::from_filename("miniblack-23.1.0.whl", &expected),
        Err(ParseWheelFilenameError::WrongNumberOfParts)
    ));
    assert!(matches!(
        WheelFilename::from_filename("other-23.1.0-py3-none-any.whl", &expected),
        Err(ParseWheelFilenameError::DistributionMismatch)
    ));
    assert!(matches!(
        WheelFilename::from_filename("miniblack-ver!sion-py3-none-any.whl", &expected),
        Err(ParseWheelFilenameError::InvalidVersion(_))
    ));
}

#[test]
fn test_egg_file_name() {
    let f = EggFilename::from_str("simplejson-2.2.1-py3.9.egg-info").unwrap();
    assert_eq!(f.name.as_str(), "simplejson");
    assert_eq!(f.version.as_deref(), Some("2.2.1"));
    assert_eq!(f.python_version.as_deref(), Some("3.9"));
    assert!(f.required_platform.is_none());
    assert_eq!(f.extension, EggExt::EggInfo);

    let f = EggFilename::from_str("pywin32-213-py2.6.egg").unwrap();
    assert_eq!(f.name.as_str(), "pywin32");
    assert_eq!(f.version.as_deref(), Some("213"));
    assert_eq!(f.python_version.as_deref(), Some("2.6"));
    assert!(f.required_platform.is_none());
    assert_eq!(f.extension, EggExt::Egg);

    let f = EggFilename::from_str("simple.egg-info").unwrap();
    assert_eq!(f.name.as_str(), "simple");
    assert!(f.version.is_none());
    assert!(f.python_version.is_none());
    assert!(f.required_platform.is_none());
    assert_eq!(f.extension, EggExt::EggInfo);

    let f = EggFilename::from_str("hunspell-0.3.3.egg-info").unwrap();
    assert_eq!(f.name.as_str(), "hunspell");
    assert_eq!(f.version.as_deref(), Some("0.3.3"));
    assert!(f.python_version.is_none());
    assert_eq!(f.extension, EggExt::EggInfo);

    let f = EggFilename::from_str("pygobject-3.14.0-py2.7-linux-x86_64.egg-info").unwrap();
    assert_eq!(f.name.as_str(), "pygobject");
    assert_eq!(f.version.as_deref(), Some("3.14.0"));
    assert_eq!(f.python_version.as_deref(), Some("2.7"));
    assert_eq!(f.required_platform.as_deref(), Some("linux"));
    assert_eq!(f.extension, EggExt::EggInfo);
}

#[test]
fn egg_file_name_errors() {
    assert!(matches!(
        EggFilename::from_str("plain.txt"),
        Err(InvalidEggFilename::UnrecognizedExtension)
    ));
    assert!(matches!(
        EggFilename::from_str("name-1.0-2.7.egg"),
        Err(InvalidEggFilename::InvalidPythonVersion)
    ));
    assert!(matches!(
        EggFilename::from_str("name-bad_version!.egg"),
        Err(InvalidEggFilename::InvalidVersion(_))
    ));
}

#[test]
fn egg_file_name_display() {
    let f = EggFilename::from_str("simplejson-2.2.1-py3.9.egg-info").unwrap();
    // The extension renders through EggExt::as_str, which maps EggInfo to
    // "egg".
    assert_eq!(f.display_string(), "simplejson-2.2.1-py3.9.egg");
    let f = EggFilename::from_str("pywin32-213-py2.6.egg").unwrap();
    assert_eq!(f.display_string(), "pywin32-213-py2.6.egg-info");
}

#[test]
fn egg_ext_as_str() {
    assert_eq!(EggExt::Egg.as_str(), "egg-info");
    assert_eq!(EggExt::EggInfo.as_str(), "egg");
}

#[test]
fn parse_core_metadata() {
    let m = WheelCoreMetadata::try_from(
        b"Metadata-Version: 2.1\nName: Mini.Black\nVersion: 23.1.0\n\nlong description\n",
    )
    .unwrap();
    assert_eq!(m.name.as_str(), "mini-black");
    assert_eq!(m.version, "23.1.0");

    // Keys are matched case-insensitively and values are trimmed.
    let m = WheelCoreMetadata::try_from(b"NAME:  rich \r\nVERSION: 13.6.0\r\n").unwrap();
    assert_eq!(m.name.as_str(), "rich");
    assert_eq!(m.version, "13.6.0");

    // Headers after the blank line are body text, not metadata.
    assert!(matches!(
        WheelCoreMetadata::try_from(b"Version: 1.0\n\nName: too-late\n"),
        Err(WheelCoreMetaDataError::MissingName)
    ));
    assert!(matches!(
        WheelCoreMetadata::try_from(b"Name: rich\n"),
        Err(WheelCoreMetaDataError::MissingVersion)
    ));
    assert!(matches!(
        WheelCoreMetadata::try_from(b"Name: rich\nVersion: what?\n"),
        Err(WheelCoreMetaDataError::InvalidVersion(_))
    ));
    assert!(matches!(
        WheelCoreMetadata::try_from(&[0xFF, 0xFE]),
        Err(WheelCoreMetaDataError::NotUtf8)
    ));
}
