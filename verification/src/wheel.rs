//! Archived wheels: locating the `.dist-info` directory, reading the embedded
//! metadata and cross-checking it against the wheel's filename.

use crate::metadata::{
    lemma_parse_error_excludes_ok, spec_parse_error_matches, spec_parse_ok, spec_parsed_name,
    spec_parsed_version, WheelCoreMetaDataError, WheelCoreMetadata,
};
use crate::package_name::{normalized_name, valid_package_name};
use crate::strutil::{ends_with, str_eq, strip_suffix_str};
use crate::version::{pep440_equal, versions_equal};
use crate::wheel_name::WheelFilename;
use vstd::prelude::*;

verus! {

/// `/` and `\`, the separators zip entry names may use.
pub open spec fn is_path_sep(c: char) -> bool {
    c == '/' || c == '\\'
}

/// The index of the first path separator in `s`, if any.
pub open spec fn first_path_sep(s: Seq<char>) -> Option<int>
    decreases s.len(),
{
    if s.len() == 0 {
        None
    } else if is_path_sep(s[0]) {
        Some(0int)
    } else {
        match first_path_sep(s.drop_first()) {
            None => None,
            Some(k) => Some(k + 1),
        }
    }
}

pub proof fn lemma_first_path_sep_at(s: Seq<char>, k: int)
    requires
        0 <= k < s.len(),
        is_path_sep(s[k]),
        forall|j: int| 0 <= j < k ==> !is_path_sep(#[trigger] s[j]),
    ensures
        first_path_sep(s) == Some(k),
    decreases k,
{
    if k > 0 {
        lemma_first_path_sep_at(s.drop_first(), k - 1);
    }
}

pub proof fn lemma_first_path_sep_none(s: Seq<char>)
    requires
        forall|j: int| 0 <= j < s.len() ==> !is_path_sep(#[trigger] s[j]),
    ensures
        first_path_sep(s) is None,
    decreases s.len(),
{
    if s.len() > 0 {
        lemma_first_path_sep_none(s.drop_first());
    }
}

/// The index of the last `-` in `s`, if any.
pub open spec fn last_dash(s: Seq<char>) -> Option<int>
    decreases s.len(),
{
    if s.len() == 0 {
        None
    } else if s.last() == '-' {
        Some(s.len() - 1)
    } else {
        last_dash(s.drop_last())
    }
}

pub proof fn lemma_last_dash_at(s: Seq<char>, m: int)
    requires
        0 <= m < s.len(),
        s[m] == '-',
        forall|j: int| m < j < s.len() ==> s[j] != '-',
    ensures
        last_dash(s) == Some(m),
    decreases s.len(),
{
    if m < s.len() - 1 {
        assert(s.drop_last()[m] == s[m]);
        lemma_last_dash_at(s.drop_last(), m);
    }
}

pub proof fn lemma_last_dash_none(s: Seq<char>)
    requires
        forall|j: int| 0 <= j < s.len() ==> s[j] != '-',
    ensures
        last_dash(s) is None,
    decreases s.len(),
{
    if s.len() > 0 {
        lemma_last_dash_none(s.drop_last());
    }
}

/// The dist-info stem a zip entry contributes for the expected distribution
/// `dist` and version text `vers`: for an entry
/// `<name>-<version>.dist-info/METADATA` whose name normalizes to `dist` and
/// whose version equals `vers` under PEP 440, the `<name>-<version>` stem.
pub open spec fn dist_info_stem_of(path: Seq<char>, dist: Seq<char>, vers: Seq<char>) -> Option<
    Seq<char>,
> {
    match first_path_sep(path) {
        None => None,
        Some(k) => {
            let dir = path.subrange(0, k);
            let rest = path.skip(k + 1);
            if rest != "METADATA"@ {
                None
            } else if !ends_with(dir, ".dist-info"@) {
                None
            } else {
                let stem = dir.subrange(0, dir.len() - 10);
                match last_dash(stem) {
                    None => None,
                    Some(m) => {
                        let name = stem.subrange(0, m);
                        let ver = stem.skip(m + 1);
                        if valid_package_name(name) && normalized_name(name) == dist
                            && pep440_equal(ver, vers) {
                            Some(stem)
                        } else {
                            None
                        }
                    },
                }
            }
        },
    }
}

/// How many entries of `files` contribute a dist-info stem.
pub open spec fn count_dist_info(files: Seq<Seq<char>>, dist: Seq<char>, vers: Seq<char>) -> int
    decreases files.len(),
{
    if files.len() == 0 {
        0
    } else {
        count_dist_info(files.drop_last(), dist, vers) + if dist_info_stem_of(
            files.last(),
            dist,
            vers,
        ) is Some {
            1int
        } else {
            0int
        }
    }
}

/// The error returned when a wheel's metadata cannot be produced.
#[derive(Debug)]
pub enum WheelVitalsError {
    /// No dist-info directory matching the wheel's filename.
    DistInfoMissing,
    /// The `WHEEL` member of the dist-info directory is absent.
    WheelMissing,
    /// The `METADATA` member of the dist-info directory is absent.
    MetadataMissing,
    /// More than one directory of the named kind matches the filename.
    MultipleSpecialDirs(String),
    /// The `METADATA` member does not parse, or disagrees with the filename.
    InvalidMetadata(WheelCoreMetaDataError),
    /// An I/O error while reading the archive; holds its message.
    IoError(String),
    /// Any other zip-level error: the file being read and the message.
    ZipError(String, String),
}

/// A zip-level failure, classified so that verified code can map it.
#[derive(Debug)]
pub enum ZipErrorKind {
    /// An underlying I/O error; holds its message.
    Io(String),
    /// The named entry is not in the archive; holds the zip error's message.
    FileNotFound(String),
    /// Any other zip error; holds its message.
    Other(String),
}

impl WheelVitalsError {
    /// Maps a zip-level failure while reading `file` to the error the caller
    /// reports: a missing `WHEEL` or `METADATA` entry gets its own variant.
    pub fn from_zip(file: String, err: ZipErrorKind) -> (r: WheelVitalsError)
        ensures
            match err {
                ZipErrorKind::Io(d) => r matches WheelVitalsError::IoError(e) && e == d,
                ZipErrorKind::FileNotFound(d) => if ends_with(file@, "WHEEL"@) {
                    r is WheelMissing
                } else if ends_with(file@, "METADATA"@) {
                    r is MetadataMissing
                } else {
                    r matches WheelVitalsError::ZipError(f, e) && f == file && e == d
                },
                ZipErrorKind::Other(d) => r matches WheelVitalsError::ZipError(f, e) && f == file
                    && e == d,
            },
    {
        match err {
            ZipErrorKind::Io(d) => WheelVitalsError::IoError(d),
            ZipErrorKind::FileNotFound(d) => {
                if strip_suffix_str(file.as_str(), "WHEEL").is_some() {
                    WheelVitalsError::WheelMissing
                } else if strip_suffix_str(file.as_str(), "METADATA").is_some() {
                    WheelVitalsError::MetadataMissing
                } else {
                    WheelVitalsError::ZipError(file, d)
                }
            },
            ZipErrorKind::Other(d) => WheelVitalsError::ZipError(file, d),
        }
    }
}

/// Whether the character at `i` is not a dash, decided executably.
fn not_dash_at(s: &str, i: usize) -> (r: bool)
    requires
        i < s@.len(),
    ensures
        r == (s@[i as int] != '-'),
{
    s.get_char(i) != '-'
}

/// Decides whether one zip entry contributes a dist-info stem, executably.
fn match_dist_info(path: &str, wheel_name: &WheelFilename) -> (r: Option<String>)
    ensures
        match r {
            Some(stem) => dist_info_stem_of(path@, wheel_name.distribution@, wheel_name.version@)
                == Some(stem@),
            None => dist_info_stem_of(path@, wheel_name.distribution@, wheel_name.version@)
                is None,
        },
{
    let n = path.unicode_len();
    // Find the first path separator.
    let mut k: usize = 0;
    let mut found = false;
    while k < n && !found
        invariant
            0 <= k <= n,
            n == path@.len(),
            found ==> k < n && is_path_sep(path@[k as int]),
            forall|j: int| 0 <= j < k ==> !is_path_sep(#[trigger] path@[j]),
        decreases n - k + (if found { 0int } else { 1int }),
    {
        let c = path.get_char(k);
        if c == '/' || c == '\\' {
            found = true;
        } else {
            k = k + 1;
        }
    }
    if !found {
        proof {
            lemma_first_path_sep_none(path@);
        }
        return None;
    }
    proof {
        lemma_first_path_sep_at(path@, k as int);
    }
    let dir = path.substring_char(0, k);
    let rest = path.substring_char(k + 1, n);
    proof {
        assert(rest@ =~= path@.skip(k as int + 1));
    }
    if !str_eq(rest, "METADATA") {
        return None;
    }
    let stem = match strip_suffix_str(dir, ".dist-info") {
        Some(stem) => stem,
        None => {
            return None;
        },
    };
    proof {
        reveal_strlit(".dist-info");
    }
    // Find the last dash in the stem.
    let sn = stem.as_str().unicode_len();
    let mut m: usize = sn;
    while m > 0 && not_dash_at(stem.as_str(), m - 1)
        invariant
            0 <= m <= sn,
            sn == stem@.len(),
            forall|j: int| m <= j < sn ==> stem@[j] != '-',
        decreases m,
    {
        m = m - 1;
    }
    if m == 0 {
        proof {
            lemma_last_dash_none(stem@);
        }
        return None;
    }
    let m = m - 1;
    proof {
        lemma_last_dash_at(stem@, m as int);
    }
    let name = stem.as_str().substring_char(0, m);
    let ver = stem.as_str().substring_char(m + 1, sn);
    proof {
        assert(ver@ =~= stem@.skip(m as int + 1));
    }
    let parsed = match crate::package_name::NormalizedPackageName::from_str(name) {
        Ok(p) => p,
        Err(_) => {
            return None;
        },
    };
    if !str_eq(parsed.as_str(), wheel_name.distribution.as_str()) {
        return None;
    }
    if !versions_equal(ver, wheel_name.version.as_str()) {
        return None;
    }
    Some(stem)
}

/// Locates the dist-info directory matching `wheel_name` among the archive's
/// entry names. Exactly one entry must match; none means the directory is
/// missing, several make the wheel ambiguous.
pub fn find_dist_info(wheel_name: &WheelFilename, files: &Vec<String>) -> (r: Result<
    String,
    WheelVitalsError,
>)
    ensures
        ({
            let c = count_dist_info(files.deep_view(), wheel_name.distribution@,
                wheel_name.version@);
            match r {
                Ok(stem) => c == 1 && exists|i: int|
                    0 <= i < files.deep_view().len() && dist_info_stem_of(
                        #[trigger] files.deep_view()[i],
                        wheel_name.distribution@,
                        wheel_name.version@,
                    ) == Some(stem@),
                Err(WheelVitalsError::DistInfoMissing) => c == 0,
                Err(WheelVitalsError::MultipleSpecialDirs(kind)) => c >= 2 && kind@
                    == "dist-info"@,
                Err(_) => false,
            }
        }),
{
    let ghost dist = wheel_name.distribution@;
    let ghost vers = wheel_name.version@;
    let n = files.len();
    let mut i: usize = 0;
    let mut matched: Option<String> = None;
    proof {
        assert(files.deep_view().subrange(0, 0) =~= Seq::<Seq<char>>::empty());
    }
    while i < n
        invariant
            0 <= i <= n,
            n == files@.len(),
            n == files.deep_view().len(),
            dist == wheel_name.distribution@,
            vers == wheel_name.version@,
            forall|j: int|
                0 <= j < files@.len() ==> files@[j]@ == #[trigger] files.deep_view()[j],
            match matched {
                Some(stem) => count_dist_info(files.deep_view().subrange(0, i as int), dist, vers)
                    == 1 && exists|j: int|
                    0 <= j < i && dist_info_stem_of(
                        #[trigger] files.deep_view()[j],
                        dist,
                        vers,
                    ) == Some(stem@),
                None => count_dist_info(files.deep_view().subrange(0, i as int), dist, vers) == 0,
            },
        decreases n - i,
    {
        let ghost prefix = files.deep_view().subrange(0, i as int);
        let entry: &String = &files[i];
        proof {
            assert(entry@ == files.deep_view()[i as int]);
        }
        let r = match_dist_info(entry.as_str(), wheel_name);
        proof {
            assert(files.deep_view().subrange(0, i as int + 1).drop_last() =~= prefix);
            assert(files.deep_view().subrange(0, i as int + 1).last() == files.deep_view()[
                i as int]);
        }
        match r {
            Some(stem) => {
                proof {
                    assert(dist_info_stem_of(files.deep_view()[i as int], dist, vers) == Some(
                        stem@,
                    ));
                }
                if matched.is_some() {
                    proof {
                        lemma_count_dist_info_grows(files.deep_view(), i as int + 1, dist, vers);
                    }
                    return Err(WheelVitalsError::MultipleSpecialDirs("dist-info".to_owned()));
                }
                matched = Some(stem);
            },
            None => {
                proof {
                    assert(dist_info_stem_of(files.deep_view()[i as int], dist, vers) is None);
                }
            },
        }
        i = i + 1;
    }
    proof {
        assert(files.deep_view().subrange(0, n as int) =~= files.deep_view());
    }
    match matched {
        Some(stem) => Ok(stem),
        None => Err(WheelVitalsError::DistInfoMissing),
    }
}

/// The match count over a prefix never shrinks as the prefix grows.
proof fn lemma_count_dist_info_grows(files: Seq<Seq<char>>, i: int, dist: Seq<char>, vers: Seq<
    char,
>)
    requires
        0 <= i <= files.len(),
    ensures
        count_dist_info(files, dist, vers) >= count_dist_info(
            files.subrange(0, i),
            dist,
            vers,
        ),
    decreases files.len() - i,
{
    if i < files.len() {
        assert(files.subrange(0, i + 1).drop_last() =~= files.subrange(0, i));
        assert(files.subrange(0, i + 1).last() == files[i]);
        lemma_count_dist_info_grows(files, i + 1, dist, vers);
    } else {
        assert(files.subrange(0, i) =~= files);
    }
}

/// What opening the archive and listing its entry names yields: the names in
/// central-directory order, or the zip error's message.
pub uninterp spec fn zip_names(data: Seq<u8>) -> Result<Seq<Seq<char>>, Seq<char>>;

/// Relies on `zip::ZipArchive::new` and `file_names`: the central directory
/// is a function of the archive bytes, and the names come back in its order.
#[verifier::external_body]
fn zip_file_names(data: &Vec<u8>) -> (r: Result<Vec<String>, String>)
    ensures
        match r {
            Ok(names) => zip_names(data@) == Ok::<Seq<Seq<char>>, Seq<char>>(names.deep_view()),
            Err(e) => zip_names(data@) == Err::<Seq<Seq<char>>, Seq<char>>(e@),
        },
{
    let cursor = std::io::Cursor::new(data.as_slice());
    match zip::ZipArchive::new(cursor) {
        Ok(archive) => Ok(archive.file_names().map(|n| n.to_owned()).collect()),
        Err(e) => Err(e.to_string()),
    }
}

/// What looking an entry up by name and reading it to the end yields: its
/// decompressed bytes, or an error tagged 0 for I/O errors, 1 for a missing
/// entry and 2 for any other zip error, with the error's message.
pub uninterp spec fn zip_entry(data: Seq<u8>, name: Seq<char>) -> Result<Seq<u8>, (int, Seq<char>)>;

/// Relies on `zip::ZipArchive::by_name` and `Read::read_to_end`: which entry
/// is found and what it decompresses to are a function of the archive bytes
/// and the name.
#[verifier::external_body]
fn zip_read_entry(data: &Vec<u8>, name: &str) -> (r: Result<Vec<u8>, ZipErrorKind>)
    ensures
        match r {
            Ok(bytes) => zip_entry(data@, name@) == Ok::<Seq<u8>, (int, Seq<char>)>(bytes@),
            Err(ZipErrorKind::Io(e)) => zip_entry(data@, name@) == Err::<Seq<u8>, (int, Seq<char>)>(
                (0int, e@),
            ),
            Err(ZipErrorKind::FileNotFound(e)) => zip_entry(data@, name@) == Err::<
                Seq<u8>,
                (int, Seq<char>),
            >((1int, e@)),
            Err(ZipErrorKind::Other(e)) => zip_entry(data@, name@) == Err::<
                Seq<u8>,
                (int, Seq<char>),
            >((2int, e@)),
        },
{
    let cursor = std::io::Cursor::new(data.as_slice());
    let outcome = zip::ZipArchive::new(cursor).and_then(|mut a| {
        let mut bytes = Vec::new();
        std::io::Read::read_to_end(&mut a.by_name(name)?, &mut bytes)?;
        Ok(bytes)
    });
    outcome.map_err(|e| {
        let msg = e.to_string();
        match e {
            zip::result::ZipError::Io(_) => ZipErrorKind::Io(msg),
            zip::result::ZipError::FileNotFound => ZipErrorKind::FileNotFound(msg),
            _ => ZipErrorKind::Other(msg),
        }
    })
}

/// The name of the metadata member inside the dist-info directory `stem`.
pub open spec fn metadata_member(stem: Seq<char>) -> Seq<char> {
    stem + ".dist-info/METADATA"@
}

/// A wheel file in its archived form: its parsed filename and the raw bytes
/// of the zip archive.
pub struct ArchivedWheel {
    /// The wheel's parsed filename.
    pub name: WheelFilename,
    /// The raw bytes of the zip archive.
    pub data: Vec<u8>,
}

impl ArchivedWheel {
    /// The raw bytes of the archive.
    pub open spec fn data_view(&self) -> Seq<u8> {
        self.data@
    }

    /// The entry names of the archive, when it opens.
    pub open spec fn spec_names(&self) -> Seq<Seq<char>> {
        match zip_names(self.data_view()) {
            Ok(names) => names,
            Err(_) => Seq::empty(),
        }
    }

    /// How many entries match this wheel's dist-info directory.
    pub open spec fn spec_match_count(&self) -> int {
        count_dist_info(self.spec_names(), self.name.distribution@, self.name.version@)
    }

    /// Whether `stem` is the stem of a matching dist-info entry.
    pub open spec fn spec_is_match(&self, stem: Seq<char>) -> bool {
        exists|i: int|
            0 <= i < self.spec_names().len() && dist_info_stem_of(
                #[trigger] self.spec_names()[i],
                self.name.distribution@,
                self.name.version@,
            ) == Some(stem)
    }

    /// Wraps zip archive bytes under a parsed filename, checking that the
    /// archive opens.
    pub fn from_bytes(name: WheelFilename, bytes: Vec<u8>) -> (r: Result<ArchivedWheel, String>)
        ensures
            match r {
                Ok(w) => w.name == name && w.data_view() == bytes@ && zip_names(bytes@) is Ok,
                Err(e) => zip_names(bytes@) == Err::<Seq<Seq<char>>, Seq<char>>(e@),
            },
    {
        match zip_file_names(&bytes) {
            Ok(_) => Ok(ArchivedWheel { name, data: bytes }),
            Err(e) => Err(e),
        }
    }

    /// Reads the wheel's `METADATA` member and checks it against the
    /// filename: exactly one dist-info directory must match, the member must
    /// parse, and its name and version must agree with the filename.
    pub fn metadata(&self) -> (r: Result<(Vec<u8>, WheelCoreMetadata), WheelVitalsError>)
        ensures
            match r {
                Ok((blob, m)) => exists|stem: Seq<char>|
                    {
                        &&& zip_names(self.data_view()) is Ok
                        &&& self.spec_match_count() == 1
                        &&& #[trigger] self.spec_is_match(stem)
                        &&& zip_entry(self.data_view(), metadata_member(stem)) == Ok::<
                            Seq<u8>,
                            (int, Seq<char>),
                        >(blob@)
                        &&& spec_parse_ok(blob@)
                        &&& m.name@ == spec_parsed_name(blob@)
                        &&& m.version@ == spec_parsed_version(blob@)
                        &&& m.name@ == self.name.distribution@
                        &&& pep440_equal(m.version@, self.name.version@)
                    },
                Err(WheelVitalsError::ZipError(f, e)) => (f@ == "/"@ && zip_names(self.data_view())
                    == Err::<Seq<Seq<char>>, Seq<char>>(e@)) || (zip_names(self.data_view()) is Ok
                    && self.spec_match_count() == 1 && exists|stem: Seq<char>|
                    #[trigger] self.spec_is_match(stem) && f@ == metadata_member(stem) && zip_entry(
                    self.data_view(),
                    metadata_member(stem),
                ) == Err::<Seq<u8>, (int, Seq<char>)>((2int, e@))),
                Err(WheelVitalsError::DistInfoMissing) => zip_names(self.data_view()) is Ok
                    && self.spec_match_count() == 0,
                Err(WheelVitalsError::MultipleSpecialDirs(kind)) => zip_names(self.data_view())
                    is Ok && self.spec_match_count() >= 2 && kind@ == "dist-info"@,
                Err(WheelVitalsError::IoError(e)) => zip_names(self.data_view()) is Ok
                    && self.spec_match_count() == 1 && exists|stem: Seq<char>|
                    #[trigger] self.spec_is_match(stem) && zip_entry(
                    self.data_view(),
                    metadata_member(stem),
                ) == Err::<Seq<u8>, (int, Seq<char>)>((0int, e@)),
                Err(WheelVitalsError::MetadataMissing) => zip_names(self.data_view()) is Ok
                    && self.spec_match_count() == 1 && exists|stem: Seq<char>|
                    #[trigger] self.spec_is_match(stem) && (zip_entry(
                    self.data_view(),
                    metadata_member(stem),
                ) matches Err(t) && t.0 == 1),
                Err(WheelVitalsError::WheelMissing) => false,
                Err(WheelVitalsError::InvalidMetadata(me)) => zip_names(self.data_view()) is Ok
                    && self.spec_match_count() == 1 && exists|stem: Seq<char>|
                    #[trigger] self.spec_is_match(stem) && (zip_entry(
                    self.data_view(),
                    metadata_member(stem),
                ) matches Ok(blob) && (if spec_parse_ok(blob) {
                    &&& me is FailedToParse
                    &&& !(spec_parsed_name(blob) == self.name.distribution@ && pep440_equal(
                        spec_parsed_version(blob),
                        self.name.version@,
                    ))
                } else {
                    spec_parse_error_matches(blob, me)
                })),
            },
    {
        let names = match zip_file_names(&self.data) {
            Ok(names) => names,
            Err(e) => {
                return Err(WheelVitalsError::ZipError("/".to_owned(), e));
            },
        };
        proof {
            assert(self.spec_names() == names.deep_view());
        }
        let stem = match find_dist_info(&self.name, &names) {
            Ok(stem) => stem,
            Err(e) => {
                return Err(e);
            },
        };
        let ghost stem_view = stem@;
        proof {
            let i = choose|i: int|
                0 <= i < names.deep_view().len() && dist_info_stem_of(
                    #[trigger] names.deep_view()[i],
                    self.name.distribution@,
                    self.name.version@,
                ) == Some(stem_view);
            assert(dist_info_stem_of(
                self.spec_names()[i],
                self.name.distribution@,
                self.name.version@,
            ) == Some(stem_view));
            assert(self.spec_is_match(stem_view));
        }
        let metadata_path = stem.concat(".dist-info/METADATA");
        proof {
            assert(metadata_path@ == metadata_member(stem_view));
            reveal_strlit(".dist-info/METADATA");
            reveal_strlit("METADATA");
            reveal_strlit("WHEEL");
            assert(metadata_path@.subrange(
                metadata_path@.len() - 8,
                metadata_path@.len() as int,
            ) =~= "METADATA"@);
            assert(ends_with(metadata_path@, "METADATA"@));
            assert(!ends_with(metadata_path@, "WHEEL"@)) by {
                if ends_with(metadata_path@, "WHEEL"@) {
                    assert(metadata_path@.subrange(
                        metadata_path@.len() - 5,
                        metadata_path@.len() as int,
                    )[4] == 'L');
                    assert(metadata_path@[metadata_path@.len() - 1] == 'A');
                }
            }
        }
        let blob = match zip_read_entry(&self.data, metadata_path.as_str()) {
            Ok(blob) => blob,
            Err(kind) => {
                return Err(WheelVitalsError::from_zip(metadata_path, kind));
            },
        };
        let m = match WheelCoreMetadata::try_from(blob.as_slice()) {
            Ok(m) => m,
            Err(e) => {
                proof {
                    lemma_parse_error_excludes_ok(blob@, e);
                }
                return Err(WheelVitalsError::InvalidMetadata(e));
            },
        };
        if !str_eq(m.name.as_str(), self.name.distribution.as_str()) {
            return Err(WheelVitalsError::InvalidMetadata(WheelCoreMetaDataError::FailedToParse(
                "name mismatch between METADATA and filename".to_owned(),
            )));
        }
        if !versions_equal(m.version.as_str(), self.name.version.as_str()) {
            return Err(WheelVitalsError::InvalidMetadata(WheelCoreMetaDataError::FailedToParse(
                "version mismatch between METADATA and filename".to_owned(),
            )));
        }
        Ok((blob, m))
    }
}

/// Different representations of a wheel that is stored locally on disk.
pub enum LocalWheel {
    /// A `.whl` file held as its archive bytes.
    ArchivedWheel(ArchivedWheel),
}

impl LocalWheel {
    /// The wheel's parsed filename.
    pub fn name(&self) -> (r: &WheelFilename)
        ensures
            match self {
                LocalWheel::ArchivedWheel(w) => r == &w.name,
            },
    {
        match self {
            LocalWheel::ArchivedWheel(w) => &w.name,
        }
    }

    /// Wraps zip archive bytes under a parsed filename, checking that the
    /// archive opens.
    pub fn from_bytes(name: WheelFilename, bytes: Vec<u8>) -> (r: Result<LocalWheel, String>)
        ensures
            match r {
                Ok(w) => w matches LocalWheel::ArchivedWheel(inner) && inner.name == name
                    && inner.data_view() == bytes@ && zip_names(bytes@) is Ok,
                Err(e) => zip_names(bytes@) == Err::<Seq<Seq<char>>, Seq<char>>(e@),
            },
    {
        match ArchivedWheel::from_bytes(name, bytes) {
            Ok(w) => Ok(LocalWheel::ArchivedWheel(w)),
            Err(e) => Err(e),
        }
    }
}

/// The byte range to prefetch to reach a zip archive's central directory,
/// which sits at the end: the last 16 KiB, or the whole stream if shorter.
pub fn tail_prefetch_range(stream_len: u64) -> (r: (u64, u64))
    ensures
        r.0 == if stream_len >= 16384 {
            stream_len - 16384
        } else {
            0
        },
        r.1 == stream_len,
{
    let start = if stream_len >= 16384 {
        stream_len - 16384
    } else {
        0
    };
    (start, stream_len)
}

/// The number of bytes to prefetch for one zip entry: its compressed size
/// plus the 30-byte local header and its name, rounded up to the 8 KiB blocks
/// the zip reader buffers in.
pub open spec fn rounded_fetch_size(compressed: int, name_len: int) -> int {
    ((compressed + 30 + name_len + 8191) / 8192) * 8192
}

/// The byte range to prefetch so that the entry at `offset` can be read.
pub fn metadata_fetch_range(offset: u64, compressed_size: u64, name_len: u64) -> (r: (u64, u64))
    requires
        compressed_size + 30 + name_len + 8191 <= u64::MAX,
        offset + rounded_fetch_size(compressed_size as int, name_len as int) <= u64::MAX,
    ensures
        r.0 == offset,
        r.1 == offset + rounded_fetch_size(compressed_size as int, name_len as int),
{
    let size = compressed_size + 30 + name_len;
    let size = ((size + 8191) / 8192) * 8192;
    (offset, offset + size)
}

} // verus!
