//! Wheel filenames.
//!
//! A wheel is named `<distribution>-<version>[-<build>]-<interpreter>-<abi>-<platform>.whl`.
//! Parsing checks the distribution against the package the caller expects and
//! that the version is well-formed; the tags are kept as text.

use crate::package_name::{normalized_name, valid_package_name, NormalizedPackageName};
use crate::strutil::{ends_with, spec_split, split_str, strip_suffix_str};
use crate::version::{parse_version, pep440_parse};
use vstd::prelude::*;

verus! {

/// The name of a wheel file, split into its components.
#[derive(Debug, Clone)]
pub struct WheelFilename {
    /// The distribution the wheel holds, in normalized form.
    pub distribution: NormalizedPackageName,
    /// The version text exactly as it appears in the filename.
    pub version: String,
    /// The optional build tag between the version and the interpreter tag.
    pub build_tag: Option<String>,
    /// The interpreter tag (for instance `py3` or `cp311`).
    pub python_tag: String,
    /// The ABI tag (for instance `none` or `abi3`).
    pub abi_tag: String,
    /// The platform tag (for instance `any` or `manylinux_2_17_x86_64`).
    pub platform_tag: String,
}

/// The error returned when a wheel filename cannot be parsed or names another
/// package than the one expected.
#[derive(Debug)]
pub enum ParseWheelFilenameError {
    /// The filename does not end in `.whl`.
    MissingExtension,
    /// The stem does not split into five or six dash-separated parts.
    WrongNumberOfParts,
    /// The distribution part is not a valid package name.
    InvalidDistributionName,
    /// The distribution part names a package other than the expected one.
    DistributionMismatch,
    /// The version part does not parse; holds the parser's message.
    InvalidVersion(String),
}

/// The stem of a wheel filename: everything before the final `.whl`.
pub open spec fn wheel_stem(filename: Seq<char>) -> Seq<char> {
    filename.subrange(0, filename.len() - 4)
}

/// The dash-separated parts of a wheel filename's stem.
pub open spec fn wheel_parts(filename: Seq<char>) -> Seq<Seq<char>> {
    spec_split(wheel_stem(filename), '-')
}

impl WheelFilename {
    /// Whether the fields are exactly the parse of `filename` for the package
    /// `expected`.
    pub open spec fn is_parse_of(&self, filename: Seq<char>, expected: Seq<char>) -> bool {
        let parts = wheel_parts(filename);
        &&& ends_with(filename, ".whl"@)
        &&& parts.len() == 5 || parts.len() == 6
        &&& valid_package_name(parts[0])
        &&& normalized_name(parts[0]) == expected
        &&& self.distribution@ == expected
        &&& self.version@ == parts[1]
        &&& pep440_parse(parts[1]) is Ok
        &&& match self.build_tag {
            Some(b) => parts.len() == 6 && b@ == parts[2],
            None => parts.len() == 5,
        }
        &&& self.python_tag@ == parts[parts.len() - 3]
        &&& self.abi_tag@ == parts[parts.len() - 2]
        &&& self.platform_tag@ == parts[parts.len() - 1]
    }

    /// Parses a wheel filename, checking that it names the expected package.
    pub fn from_filename(filename: &str, expected: &NormalizedPackageName) -> (r: Result<
        WheelFilename,
        ParseWheelFilenameError,
    >)
        ensures
            match r {
                Ok(w) => w.is_parse_of(filename@, expected@),
                Err(ParseWheelFilenameError::MissingExtension) => !ends_with(filename@, ".whl"@),
                Err(ParseWheelFilenameError::WrongNumberOfParts) => ends_with(filename@, ".whl"@)
                    && wheel_parts(filename@).len() != 5 && wheel_parts(filename@).len() != 6,
                Err(ParseWheelFilenameError::InvalidDistributionName) => ends_with(
                    filename@,
                    ".whl"@,
                ) && (wheel_parts(filename@).len() == 5 || wheel_parts(filename@).len() == 6)
                    && !valid_package_name(wheel_parts(filename@)[0]),
                Err(ParseWheelFilenameError::DistributionMismatch) => ends_with(filename@, ".whl"@)
                    && (wheel_parts(filename@).len() == 5 || wheel_parts(filename@).len() == 6)
                    && valid_package_name(wheel_parts(filename@)[0]) && normalized_name(
                    wheel_parts(filename@)[0],
                ) != expected@,
                Err(ParseWheelFilenameError::InvalidVersion(e)) => ends_with(filename@, ".whl"@)
                    && (wheel_parts(filename@).len() == 5 || wheel_parts(filename@).len() == 6)
                    && valid_package_name(wheel_parts(filename@)[0]) && normalized_name(
                    wheel_parts(filename@)[0],
                ) == expected@ && pep440_parse(wheel_parts(filename@)[1]) == Err::<
                    Seq<char>,
                    Seq<char>,
                >(e@),
            },
    {
        let stem = match strip_suffix_str(filename, ".whl") {
            Some(stem) => stem,
            None => {
                return Err(ParseWheelFilenameError::MissingExtension);
            },
        };
        proof {
            reveal_strlit(".whl");
            assert(stem@ =~= wheel_stem(filename@));
        }
        let parts = split_str(stem.as_str(), '-');
        proof {
            assert(parts.deep_view() == wheel_parts(filename@));
            assert(forall|i: int|
                0 <= i < parts@.len() ==> parts@[i]@ == #[trigger] parts.deep_view()[i]);
        }
        if parts.len() != 5 && parts.len() != 6 {
            return Err(ParseWheelFilenameError::WrongNumberOfParts);
        }
        let distribution = match NormalizedPackageName::from_str(parts[0].as_str()) {
            Ok(d) => d,
            Err(_) => {
                return Err(ParseWheelFilenameError::InvalidDistributionName);
            },
        };
        if !crate::strutil::str_eq(distribution.as_str(), expected.as_str()) {
            return Err(ParseWheelFilenameError::DistributionMismatch);
        }
        match parse_version(parts[1].as_str()) {
            Ok(_) => (),
            Err(e) => {
                return Err(ParseWheelFilenameError::InvalidVersion(e));
            },
        }
        let six = parts.len() == 6;
        let version = parts[1].clone();
        let build_tag = if six {
            Some(parts[2].clone())
        } else {
            None
        };
        let python_tag = parts[parts.len() - 3].clone();
        let abi_tag = parts[parts.len() - 2].clone();
        let platform_tag = parts[parts.len() - 1].clone();
        Ok(WheelFilename { distribution, version, build_tag, python_tag, abi_tag, platform_tag })
    }
}

} // verus!
