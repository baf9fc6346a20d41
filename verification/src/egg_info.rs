//! Egg filenames: the predecessor format of wheels, still encountered in
//! installed site-packages directories as `.egg` and `.egg-info` entries.

use crate::package_name::{
    normalized_name, valid_package_name, NormalizedPackageName, ParsePackageNameError,
};
use crate::strutil::{ends_with, spec_split, split_str, starts_with, strip_prefix_str,
    strip_suffix_str};
use crate::version::{parse_version, pep440_parse};
use vstd::prelude::*;

verus! {

/// The type of extension for an egg.
#[derive(Debug, Clone, Copy, PartialEq, Eq, Structural, Hash)]
pub enum EggExt {
    /// `.egg` extension
    Egg,
    /// `.egg-info` extension
    EggInfo,
}

impl EggExt {
    /// The string the extension maps to (without the preceding `.`).
    pub open spec fn spec_str(self) -> Seq<char> {
        match self {
            EggExt::Egg => "egg-info"@,
            EggExt::EggInfo => "egg"@,
        }
    }

    /// Returns the extension as a string (without the preceding `.`).
    pub fn as_str(&self) -> (r: &str)
        ensures
            r@ == self.spec_str(),
    {
        match self {
            EggExt::Egg => "egg-info",
            EggExt::EggInfo => "egg",
        }
    }
}

/// The extension of an egg filename and the stem before it. The plain
/// `.egg` suffix is recognized first.
pub open spec fn egg_ext_of(s: Seq<char>) -> Option<(EggExt, Seq<char>)> {
    if ends_with(s, ".egg"@) {
        Some((EggExt::Egg, s.subrange(0, s.len() - 4)))
    } else if ends_with(s, ".egg-info"@) {
        Some((EggExt::EggInfo, s.subrange(0, s.len() - 9)))
    } else {
        None
    }
}

/// An error that might occur when parsing an [`EggFilename`].
#[derive(Debug)]
pub enum InvalidEggFilename {
    /// The extension is neither `.egg` nor `.egg-info`.
    UnrecognizedExtension,
    /// The filename is missing a package name. Splitting always yields a
    /// first part, so parsing never actually produces this; the variant
    /// stays for callers that match on it.
    MissingName,
    /// The package name part is not a valid package name.
    InvalidPackageName(ParsePackageNameError),
    /// The version part does not parse; holds the parser's message.
    InvalidVersion(String),
    /// The python version part does not start with `py`.
    InvalidPythonVersion,
}

/// Represents an egg filename:
/// `<name>[-<version>][-py<python>][-<platform>].egg` or `.egg-info`.
#[derive(Debug, Clone)]
pub struct EggFilename {
    /// The name of the package, normalized.
    pub name: NormalizedPackageName,
    /// Optional version of the package, in normalized text form.
    pub version: Option<String>,
    /// Optional required python version, without its `py` prefix.
    pub python_version: Option<String>,
    /// Optional required platform.
    pub required_platform: Option<String>,
    /// The extension.
    pub extension: EggExt,
}

impl EggFilename {
    /// Whether the fields are exactly the parse of `s`.
    pub open spec fn is_parse_of(&self, s: Seq<char>) -> bool {
        &&& egg_ext_of(s) matches Some((ext, stem)) && {
            let parts = spec_split(stem, '-');
            &&& self.extension == ext
            &&& valid_package_name(parts[0])
            &&& self.name@ == normalized_name(parts[0])
            &&& match self.version {
                Some(v) => parts.len() >= 2 && pep440_parse(parts[1]) == Ok::<
                    Seq<char>,
                    Seq<char>,
                >(v@),
                None => parts.len() < 2,
            }
            &&& match self.python_version {
                Some(p) => parts.len() >= 3 && starts_with(parts[2], "py"@) && p@ == parts[2].skip(
                    2,
                ),
                None => parts.len() < 3,
            }
            &&& match self.required_platform {
                Some(p) => parts.len() >= 4 && p@ == parts[3],
                None => parts.len() < 4,
            }
        }
    }

    /// Parses an egg filename.
    pub fn from_filename(s: &str) -> (r: Result<EggFilename, InvalidEggFilename>)
        ensures
            match r {
                Ok(f) => f.is_parse_of(s@),
                Err(InvalidEggFilename::UnrecognizedExtension) => egg_ext_of(s@) is None,
                Err(InvalidEggFilename::MissingName) => false,
                Err(InvalidEggFilename::InvalidPackageName(_)) => egg_ext_of(s@) matches Some(
                    (_, stem),
                ) && !valid_package_name(spec_split(stem, '-')[0]),
                Err(InvalidEggFilename::InvalidVersion(e)) => egg_ext_of(s@) matches Some(
                    (_, stem),
                ) && (spec_split(stem, '-').len() >= 2 && valid_package_name(
                    spec_split(stem, '-')[0],
                ) && pep440_parse(spec_split(stem, '-')[1]) == Err::<Seq<char>, Seq<char>>(e@)),
                Err(InvalidEggFilename::InvalidPythonVersion) => egg_ext_of(s@) matches Some(
                    (_, stem),
                ) && (spec_split(stem, '-').len() >= 3 && !starts_with(
                    spec_split(stem, '-')[2],
                    "py"@,
                )),
            },
    {
        // Parse the extension.
        let (extension, rest) = if let Some(rest) = strip_suffix_str(s, ".egg") {
            proof {
                reveal_strlit(".egg");
            }
            (EggExt::Egg, rest)
        } else if let Some(rest) = strip_suffix_str(s, ".egg-info") {
            proof {
                reveal_strlit(".egg");
                reveal_strlit(".egg-info");
            }
            (EggExt::EggInfo, rest)
        } else {
            proof {
                reveal_strlit(".egg");
                reveal_strlit(".egg-info");
            }
            return Err(InvalidEggFilename::UnrecognizedExtension);
        };
        let ghost stem = rest@;
        proof {
            assert(egg_ext_of(s@) == Some((extension, stem)));
        }

        // Split the rest on dashes.
        let parts = split_str(rest.as_str(), '-');
        proof {
            crate::strutil::lemma_split_len(stem, '-');
            assert(parts.deep_view() == spec_split(stem, '-'));
            assert(forall|i: int|
                0 <= i < parts@.len() ==> parts@[i]@ == #[trigger] parts.deep_view()[i]);
        }

        // Parse the name of the package.
        let name = match NormalizedPackageName::from_str(parts[0].as_str()) {
            Ok(n) => n,
            Err(e) => {
                return Err(InvalidEggFilename::InvalidPackageName(e));
            },
        };

        // Parse the optional version.
        let version = if parts.len() >= 2 {
            match parse_version(parts[1].as_str()) {
                Ok(v) => Some(v),
                Err(e) => {
                    return Err(InvalidEggFilename::InvalidVersion(e));
                },
            }
        } else {
            None
        };

        // Parse the optional python version.
        let python_version = if parts.len() >= 3 {
            match strip_prefix_str(parts[2].as_str(), "py") {
                Some(p) => {
                    proof {
                        reveal_strlit("py");
                    }
                    Some(p)
                },
                None => {
                    proof {
                        reveal_strlit("py");
                    }
                    return Err(InvalidEggFilename::InvalidPythonVersion);
                },
            }
        } else {
            None
        };

        // Parse the optional required platform.
        let required_platform = if parts.len() >= 4 {
            Some(parts[3].clone())
        } else {
            None
        };

        Ok(EggFilename { name, version, python_version, required_platform, extension })
    }

    /// The filename's textual form. The extension is rendered through
    /// [`EggExt::as_str`].
    pub fn display_string(&self) -> (r: String)
        ensures
            r@ == self.name@ + (match self.version {
                Some(v) => seq!['-'] + v@,
                None => Seq::empty(),
            }) + (match self.python_version {
                Some(p) => seq!['-', 'p', 'y'] + p@,
                None => Seq::empty(),
            }) + (match self.required_platform {
                Some(p) => seq!['-'] + p@,
                None => Seq::empty(),
            }) + seq!['.'] + self.extension.spec_str(),
    {
        let mut out = String::new();
        out.append(self.name.as_str());
        match &self.version {
            Some(v) => {
                out.append("-");
                out.append(v.as_str());
            },
            None => {},
        }
        match &self.python_version {
            Some(p) => {
                out.append("-py");
                out.append(p.as_str());
            },
            None => {},
        }
        match &self.required_platform {
            Some(p) => {
                out.append("-");
                out.append(p.as_str());
            },
            None => {},
        }
        out.append(".");
        out.append(self.extension.as_str());
        proof {
            reveal_strlit("-");
            reveal_strlit("-py");
            reveal_strlit(".");
            assert(out@ =~= self.name@ + (match self.version {
                Some(v) => seq!['-'] + v@,
                None => Seq::<char>::empty(),
            }) + (match self.python_version {
                Some(p) => seq!['-', 'p', 'y'] + p@,
                None => Seq::<char>::empty(),
            }) + (match self.required_platform {
                Some(p) => seq!['-'] + p@,
                None => Seq::<char>::empty(),
            }) + seq!['.'] + self.extension.spec_str());
        }
        out
    }
}

impl std::str::FromStr for EggFilename {
    type Err = InvalidEggFilename;

    fn from_str(s: &str) -> Result<Self, Self::Err> {
        EggFilename::from_filename(s)
    }
}

} // verus!
