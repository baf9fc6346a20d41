//! The core metadata embedded in a wheel.
//!
//! A wheel carries a `METADATA` file of RFC-822-like `Key: value` header
//! lines. The core only ever reads the `Name` and `Version` headers, to check
//! them against the wheel's filename; everything else in the file is carried
//! around as opaque bytes.

use crate::package_name::{normalized_name, valid_package_name, NormalizedPackageName};
use crate::strutil::{
    eq_ignore_ascii_case, lower_seq, spec_split, split_str, trim, trim_spaces, utf8_to_string,
};
use crate::version::{parse_version, pep440_parse};
use vstd::prelude::*;
use vstd::utf8::{decode_utf8, valid_utf8};

verus! {

/// A header line with a trailing carriage return removed.
pub open spec fn strip_cr(line: Seq<char>) -> Seq<char> {
    if line.len() > 0 && line.last() == '\r' {
        line.drop_last()
    } else {
        line
    }
}

/// The value of the first header line whose key equals `key` up to ASCII
/// case, searching only until the blank line that ends the header section.
/// The value is what follows the first `:`, trimmed.
pub open spec fn find_header(lines: Seq<Seq<char>>, key: Seq<char>) -> Option<Seq<char>>
    decreases lines.len(),
{
    if lines.len() == 0 {
        None
    } else {
        let line = strip_cr(lines[0]);
        if line.len() == 0 {
            None
        } else {
            let ps = spec_split(line, ':');
            if ps.len() >= 2 && lower_seq(ps[0]) == lower_seq(key) {
                Some(trim_spaces(line.skip(ps[0].len() as int + 1)))
            } else {
                find_header(lines.drop_first(), key)
            }
        }
    }
}

/// The value of the header `key` in a metadata byte stream, when the bytes
/// are valid UTF-8 and the header is present.
pub open spec fn spec_metadata_field(bytes: Seq<u8>, key: Seq<char>) -> Option<Seq<char>> {
    if valid_utf8(bytes) {
        find_header(spec_split(decode_utf8(bytes), '\n'), key)
    } else {
        None
    }
}

/// Whether a metadata byte stream parses: it is UTF-8, its `Name` header is
/// present and a valid package name, and its `Version` header is present and
/// parses.
pub open spec fn spec_parse_ok(bytes: Seq<u8>) -> bool {
    &&& valid_utf8(bytes)
    &&& spec_metadata_field(bytes, "name"@) matches Some(v) && valid_package_name(v)
    &&& spec_metadata_field(bytes, "version"@) matches Some(v) && pep440_parse(v) is Ok
}

/// The normalized distribution name a metadata byte stream declares.
pub open spec fn spec_parsed_name(bytes: Seq<u8>) -> Seq<char>
    recommends
        spec_parse_ok(bytes),
{
    normalized_name(spec_metadata_field(bytes, "name"@)->Some_0)
}

/// The version text a metadata byte stream declares.
pub open spec fn spec_parsed_version(bytes: Seq<u8>) -> Seq<char>
    recommends
        spec_parse_ok(bytes),
{
    spec_metadata_field(bytes, "version"@)->Some_0
}

/// The error returned when a `METADATA` file cannot be read.
#[derive(Debug)]
pub enum WheelCoreMetaDataError {
    /// The file is not valid UTF-8.
    NotUtf8,
    /// No `Name` header before the end of the header section.
    MissingName,
    /// No `Version` header before the end of the header section.
    MissingVersion,
    /// The `Name` header's value is not a valid package name.
    InvalidName,
    /// The `Version` header's value does not parse; holds the parser's
    /// message.
    InvalidVersion(String),
    /// The metadata disagrees with its wheel's filename; holds a diagnostic.
    FailedToParse(String),
}

/// Whether `e` is the error [`WheelCoreMetadata::try_from`] reports for
/// `bytes`: each variant's exact condition, and never `FailedToParse`, which
/// only the filename cross-check produces.
pub open spec fn spec_parse_error_matches(bytes: Seq<u8>, e: WheelCoreMetaDataError) -> bool {
    match e {
        WheelCoreMetaDataError::NotUtf8 => !valid_utf8(bytes),
        WheelCoreMetaDataError::MissingName => valid_utf8(bytes) && spec_metadata_field(
            bytes,
            "name"@,
        ) is None,
        WheelCoreMetaDataError::InvalidName => valid_utf8(bytes) && (spec_metadata_field(
            bytes,
            "name"@,
        ) matches Some(v) && !valid_package_name(v)),
        WheelCoreMetaDataError::MissingVersion => valid_utf8(bytes) && spec_metadata_field(
            bytes,
            "version"@,
        ) is None,
        WheelCoreMetaDataError::InvalidVersion(m) => valid_utf8(bytes) && (spec_metadata_field(
            bytes,
            "version"@,
        ) matches Some(v) && pep440_parse(v) == Err::<Seq<char>, Seq<char>>(m@)),
        WheelCoreMetaDataError::FailedToParse(_) => false,
    }
}

/// A reported parse error excludes a successful parse: whatever variant
/// `try_from` returns contradicts one conjunct of `spec_parse_ok`.
pub proof fn lemma_parse_error_excludes_ok(bytes: Seq<u8>, e: WheelCoreMetaDataError)
    requires
        spec_parse_error_matches(bytes, e),
    ensures
        !spec_parse_ok(bytes),
{
}

/// The two headers of a wheel's metadata that the core reads.
#[derive(Debug, Clone)]
pub struct WheelCoreMetadata {
    /// The distribution name, normalized.
    pub name: NormalizedPackageName,
    /// The version text exactly as it appears in the `Version` header.
    pub version: String,
}

/// Looks up a header in the decoded, line-split metadata text.
fn find_metadata_field(lines: &Vec<String>, key: &str) -> (r: Option<String>)
    ensures
        match r {
            Some(v) => find_header(lines.deep_view(), key@) == Some(v@),
            None => find_header(lines.deep_view(), key@) is None,
        },
{
    let n = lines.len();
    let mut i: usize = 0;
    proof {
        assert(lines.deep_view().skip(0) =~= lines.deep_view());
    }
    while i < n
        invariant
            0 <= i <= n,
            n == lines@.len(),
            n == lines.deep_view().len(),
            forall|j: int|
                0 <= j < lines@.len() ==> lines@[j]@ == #[trigger] lines.deep_view()[j],
            find_header(lines.deep_view(), key@) == find_header(
                lines.deep_view().skip(i as int),
                key@,
            ),
        decreases n - i,
    {
        let raw = &lines[i];
        let rn = raw.as_str().unicode_len();
        let line = if rn > 0 && raw.as_str().get_char(rn - 1) == '\r' {
            raw.as_str().substring_char(0, rn - 1).to_owned()
        } else {
            raw.as_str().substring_char(0, rn).to_owned()
        };
        proof {
            assert(raw@.subrange(0, rn as int) =~= raw@);
            assert(raw@.drop_last() =~= raw@.subrange(0, rn as int - 1));
            assert(line@ == strip_cr(lines.deep_view().skip(i as int)[0]));
        }
        let ln = line.as_str().unicode_len();
        if ln == 0 {
            return None;
        }
        // Find the first colon on the line, if any.
        let mut k: usize = 0;
        let mut found = false;
        while k < ln && !found
            invariant
                0 <= k <= ln,
                ln == line@.len(),
                found ==> k < ln && line@[k as int] == ':',
                forall|j: int| 0 <= j < k ==> line@[j] != ':',
            decreases ln - k + (if found { 0int } else { 1int }),
        {
            if line.as_str().get_char(k) == ':' {
                found = true;
            } else {
                k = k + 1;
            }
        }
        let ghost ps = spec_split(line@, ':');
        if found {
            proof {
                crate::strutil::lemma_split_at_sep(line@, ':', k as int);
                crate::strutil::lemma_split_len(line@.skip(k as int + 1), ':');
                assert(ps[0] == line@.subrange(0, k as int));
            }
            let key_part = line.as_str().substring_char(0, k);
            if eq_ignore_ascii_case(key_part, key) {
                let value = trim(line.as_str().substring_char(k + 1, ln));
                proof {
                    assert(line@.subrange(k as int + 1, ln as int) =~= line@.skip(
                        ps[0].len() as int + 1,
                    ));
                }
                return Some(value);
            }
        } else {
            proof {
                crate::strutil::lemma_split_no_sep(line@, ':');
                assert(ps.len() == 1);
            }
        }
        proof {
            assert(lines.deep_view().skip(i as int).drop_first() =~= lines.deep_view().skip(
                i as int + 1,
            ));
        }
        i = i + 1;
    }
    None
}

impl WheelCoreMetadata {
    /// Reads the `Name` and `Version` headers out of a `METADATA` file.
    pub fn try_from(bytes: &[u8]) -> (r: Result<WheelCoreMetadata, WheelCoreMetaDataError>)
        ensures
            match r {
                Ok(m) => spec_parse_ok(bytes@) && m.name@ == spec_parsed_name(bytes@)
                    && m.version@ == spec_parsed_version(bytes@),
                Err(e) => spec_parse_error_matches(bytes@, e),
            },
    {
        let text = match utf8_to_string(bytes) {
            Some(t) => t,
            None => {
                return Err(WheelCoreMetaDataError::NotUtf8);
            },
        };
        let lines = split_str(text.as_str(), '\n');
        let name_text = match find_metadata_field(&lines, "name") {
            Some(v) => v,
            None => {
                return Err(WheelCoreMetaDataError::MissingName);
            },
        };
        let name = match NormalizedPackageName::from_str(name_text.as_str()) {
            Ok(n) => n,
            Err(_) => {
                return Err(WheelCoreMetaDataError::InvalidName);
            },
        };
        let version = match find_metadata_field(&lines, "version") {
            Some(v) => v,
            None => {
                return Err(WheelCoreMetaDataError::MissingVersion);
            },
        };
        match parse_version(version.as_str()) {
            Ok(_) => (),
            Err(e) => {
                return Err(WheelCoreMetaDataError::InvalidVersion(e));
            },
        }
        Ok(WheelCoreMetadata { name, version })
    }
}

} // verus!
