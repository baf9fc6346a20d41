//! The content-addressed extraction cache.
//!
//! [`extract`] streams a wheel (a zip archive) entry by entry, stores each
//! file's bytes in a content-addressed blob store and produces a
//! [`CachedWheel`]: a deterministic inventory mapping each path to the blob's
//! integrity string, a SHA-256 digest of the same bytes, and the entry's
//! permission bits. Identical archive bytes always yield identical
//! inventories, and storing is deduplicating, so extracting twice is
//! harmless.

use crate::strutil::{
    lemma_seq_char_lt_asymmetric, lemma_seq_char_lt_connected, lemma_seq_char_lt_irreflexive,
    lossy_utf8, seq_char_lt, spec_split, split_str, str_eq, str_lt, utf8_to_string,
    utf8_to_string_lossy,
};
use std::io::Cursor;
use std::io::Read;
use vstd::prelude::*;
use vstd::utf8::{decode_utf8, valid_utf8};
use zip::read::read_zipfile_from_stream;

verus! {

/// Per-file record of a cached wheel.
#[derive(Debug, PartialEq, Eq)]
pub struct CachedWheelEntry {
    /// The content-addressed store key of the file's bytes, as an
    /// algorithm-prefixed integrity string.
    pub content: String,
    /// `sha256=<base64url-no-pad digest>` of the same bytes, the format used
    /// by RECORD-style per-file digest lists.
    pub sha256: String,
    /// The entry's unix permission bits, when the archive carries them.
    pub mode: Option<u32>,
}

/// The mathematical value of a [`CachedWheelEntry`].
pub struct CachedWheelEntryView {
    /// The integrity string.
    pub content: Seq<char>,
    /// The `sha256=` digest string.
    pub sha256: Seq<char>,
    /// The permission bits.
    pub mode: Option<u32>,
}

impl View for CachedWheelEntry {
    type V = CachedWheelEntryView;

    open spec fn view(&self) -> CachedWheelEntryView {
        CachedWheelEntryView { content: self.content@, sha256: self.sha256@, mode: self.mode }
    }
}

/// The inventory of one extracted wheel: files keyed by path and ordered by
/// it, plus the archive's directory entries in archive order.
#[derive(Debug, PartialEq, Eq)]
pub struct CachedWheel {
    /// The file records, as a map from path to entry held sorted by path so
    /// that iteration order is stable.
    pub files: Vec<(String, CachedWheelEntry)>,
    /// The directory entries, in archive order.
    pub directories: Vec<String>,
}

/// The mathematical value of a [`CachedWheel`].
pub struct CachedWheelView {
    /// Path-to-entry pairs, sorted by path.
    pub files: Seq<(Seq<char>, CachedWheelEntryView)>,
    /// Directory paths in archive order.
    pub directories: Seq<Seq<char>>,
}

impl View for CachedWheel {
    type V = CachedWheelView;

    open spec fn view(&self) -> CachedWheelView {
        CachedWheelView {
            files: self.files@.map_values(|p: (String, CachedWheelEntry)| (p.0@, p.1@)),
            directories: self.directories.deep_view(),
        }
    }
}

/// The error returned when a wheel cannot be extracted to the cache.
#[derive(Debug)]
pub enum ExtractWheelError {
    /// A zip-level decoding error; holds its message.
    Zip(String),
    /// A zip entry whose name is not a usable relative path: the name and the
    /// reason.
    InvalidEntry(String, String),
    /// The blob store refused a write: the entry's path and the store's
    /// message.
    CacheError(String, String),
    /// An I/O failure while writing an entry: the entry's path and the
    /// message.
    IoError(String, String),
}

/// One zip entry as read from the stream.
pub struct RawZipEntry {
    /// The entry's declared name, as raw bytes.
    pub name: Vec<u8>,
    /// The entry's decompressed contents.
    pub data: Vec<u8>,
    /// The entry's unix permission bits, when present.
    pub unix_mode: Option<u32>,
    /// The entry's last-modified time as the zip format stores it: the
    /// MS-DOS date and time words, when present.
    pub mtime: Option<(u16, u16)>,
    /// The stream position just after the entry.
    pub next_pos: u64,
}

/// The mathematical value of one zip entry: name bytes, data bytes,
/// permission bits, timestamp fields, and the position after it.
pub type ZipEntryModel = (Seq<u8>, Seq<u8>, Option<u32>, Option<(u16, u16)>, int);

/// The model of a [`RawZipEntry`].
pub open spec fn entry_model(e: RawZipEntry) -> ZipEntryModel {
    (e.name@, e.data@, e.unix_mode, e.mtime, e.next_pos as int)
}

/// What reading one zip entry at `pos` from the byte stream yields: the next
/// entry and the position after it, the end of the entry list, or the zip
/// error's message.
pub uninterp spec fn zip_step(bytes: Seq<u8>, pos: int) -> Result<Option<ZipEntryModel>, Seq<char>>;

/// Relies on `zip::read::read_zipfile_from_stream` over an in-memory cursor:
/// what it reads at a position — the entry's name, bytes, permissions and
/// timestamp, and the position it leaves the stream at — is a function of
/// the stream bytes and the position, and a successful read consumes at
/// least the entry's fixed-size local header.
#[verifier::external_body]
fn read_next_entry(bytes: &[u8], pos: u64) -> (r: Result<Option<RawZipEntry>, String>)
    ensures
        match r {
            Ok(Some(e)) => zip_step(bytes@, pos as int) == Ok::<Option<ZipEntryModel>, Seq<char>>(
                Some(entry_model(e)),
            ) && pos < e.next_pos <= bytes@.len(),
            Ok(None) => zip_step(bytes@, pos as int) == Ok::<Option<ZipEntryModel>, Seq<char>>(
                None,
            ),
            Err(s) => zip_step(bytes@, pos as int) == Err::<Option<ZipEntryModel>, Seq<char>>(s@),
        },
{
    let mut cur = Cursor::new(bytes);
    cur.set_position(pos);
    let mut e = match read_zipfile_from_stream(&mut cur) {
        Ok(Some(e)) => e, Ok(None) => return Ok(None), Err(e) => return Err(e.to_string()),
    };
    let mut data = Vec::new();
    if let Err(err) = e.read_to_end(&mut data) { return Err(err.to_string()); }
    let (name, unix_mode) = (e.name_raw().to_vec(), e.unix_mode());
    let mtime = e.last_modified().map(|d| (d.datepart(), d.timepart()));
    drop(e);
    Ok(Some(RawZipEntry { name, data, unix_mode, mtime, next_pos: cur.position() }))
}

/// The content-addressed integrity string the store assigns to a blob under
/// its Xxh3 algorithm.
pub uninterp spec fn xxh3_integrity(data: Seq<u8>) -> Seq<char>;

/// A blob-store failure, split the way the store's callers report it.
enum StoreError {
    /// The store itself failed; holds its message.
    Cache(String),
    /// Writing the bytes failed; holds the I/O message.
    Io(String),
}

/// Relies on cacache's `WriteOpts::open_hash_sync` and `SyncWriter::commit`
/// with the Xxh3 algorithm: commit promotes the whole blob atomically or
/// fails without visible partial state, storing is deduplicating, and the
/// returned integrity string is a function of the bytes alone.
#[verifier::external_body]
fn commit_blob(cache: &str, data: &[u8], mtime_ms: Option<u128>) -> (r: Result<String, StoreError>)
    ensures
        r matches Ok(integrity) ==> integrity@ == xxh3_integrity(data@),
{
    let mut opts = cacache::WriteOpts::new().algorithm(cacache::Algorithm::Xxh3);
    if let Some(ms) = mtime_ms {
        opts = opts.time(ms);
    }
    let mut writer = match opts.open_hash_sync(cache) {
        Ok(w) => w,
        Err(e) => return Err(StoreError::Cache(e.to_string())),
    };
    if let Err(e) = std::io::Write::write_all(&mut writer, data) {
        return Err(StoreError::Io(e.to_string()));
    }
    match writer.commit() {
        Ok(integrity) => Ok(integrity.to_string()),
        Err(e) => Err(StoreError::Cache(e.to_string())),
    }
}

/// The SHA-256 digest of a byte sequence.
pub uninterp spec fn sha256_of(data: Seq<u8>) -> Seq<u8>;

/// Relies on `rattler_digest::compute_bytes_digest` with its `Sha256`: the
/// digest is a function of the bytes and is 32 bytes long.
#[verifier::external_body]
fn sha256_digest(data: &[u8]) -> (r: Vec<u8>)
    ensures
        r@ == sha256_of(data@),
        r@.len() == 32,
{
    rattler_digest::compute_bytes_digest::<rattler_digest::Sha256>(data).to_vec()
}

/// The URL-safe, unpadded base64 encoding of a byte sequence.
pub uninterp spec fn b64url_nopad(data: Seq<u8>) -> Seq<char>;

/// Relies on `data_encoding::BASE64URL_NOPAD.encode`: the encoding is a
/// function of the bytes.
#[verifier::external_body]
fn b64url_encode(data: &[u8]) -> (r: String)
    ensures
        r@ == b64url_nopad(data@),
{
    data_encoding::BASE64URL_NOPAD.encode(data)
}

/// Entry names use `/` or `\` as separators; the cache normalizes both to
/// `/`.
pub open spec fn normalize_seps(s: Seq<char>) -> Seq<char> {
    s.map_values(
        |c: char|
            if c == '\\' {
                '/'
            } else {
                c
            },
    )
}

/// A normalized entry path is usable when it is not absolute, no component is
/// `..`, and its first component is not a drive-like prefix.
pub open spec fn valid_entry_path(p: Seq<char>) -> bool {
    &&& p.len() > 0 ==> p[0] != '/'
    &&& forall|i: int|
        0 <= i < spec_split(p, '/').len() ==> #[trigger] spec_split(p, '/')[i] != ".."@
    &&& forall|j: int| 0 <= j < spec_split(p, '/')[0].len() ==> spec_split(p, '/')[0][j] != ':'
}

/// The file record the cache stores for an entry's bytes and permissions.
pub open spec fn entry_file_model(data: Seq<u8>, mode: Option<u32>) -> CachedWheelEntryView {
    CachedWheelEntryView {
        content: xxh3_integrity(data),
        sha256: "sha256="@ + b64url_nopad(sha256_of(data)),
        mode: mode,
    }
}

/// Inserts a pair into a path-sorted pair sequence, replacing an equal key.
pub open spec fn files_insert(
    files: Seq<(Seq<char>, CachedWheelEntryView)>,
    key: Seq<char>,
    v: CachedWheelEntryView,
) -> Seq<(Seq<char>, CachedWheelEntryView)>
    decreases files.len(),
{
    if files.len() == 0 {
        seq![(key, v)]
    } else if seq_char_lt(key, files[0].0) {
        seq![(key, v)] + files
    } else if key == files[0].0 {
        seq![(key, v)] + files.drop_first()
    } else {
        seq![files[0]] + files_insert(files.drop_first(), key, v)
    }
}

/// The inventory with no entries.
pub open spec fn empty_manifest() -> CachedWheelView {
    CachedWheelView { files: Seq::empty(), directories: Seq::empty() }
}

/// Applies one zip entry to an inventory: the name must decode and be a
/// usable relative path; a name ending in `/` is a directory entry, anything
/// else a file entry stored under its digests. The error carries the
/// reported name and the reason.
pub open spec fn spec_apply_entry(
    m: CachedWheelView,
    name: Seq<u8>,
    data: Seq<u8>,
    mode: Option<u32>,
) -> Result<CachedWheelView, (Seq<char>, Seq<char>)> {
    if !valid_utf8(name) {
        Err((lossy_utf8(name), "is not a valid utf-8 path"@))
    } else {
        let p = normalize_seps(decode_utf8(name));
        if !valid_entry_path(p) {
            Err((decode_utf8(name), "is not a valid path"@))
        } else if p.len() > 0 && p.last() == '/' {
            Ok(CachedWheelView { directories: m.directories.push(p), files: m.files })
        } else {
            Ok(
                CachedWheelView {
                    files: files_insert(m.files, p, entry_file_model(data, mode)),
                    directories: m.directories,
                },
            )
        }
    }
}

/// Folds the entries of an archive, in archive order, into an inventory.
pub open spec fn manifest_from(m: CachedWheelView, entries: Seq<ZipEntryModel>) -> Result<
    CachedWheelView,
    (Seq<char>, Seq<char>),
>
    decreases entries.len(),
{
    if entries.len() == 0 {
        Ok(m)
    } else {
        match spec_apply_entry(m, entries[0].0, entries[0].1, entries[0].2) {
            Ok(m2) => manifest_from(m2, entries.drop_first()),
            Err(e) => Err(e),
        }
    }
}

/// The stream position after a run of entries that started at `pos`.
pub open spec fn chain_end(pos: int, entries: Seq<ZipEntryModel>) -> int {
    if entries.len() == 0 {
        pos
    } else {
        entries.last().4
    }
}

/// Whether `entries` is exactly what reading the stream from `pos` yields,
/// entry after entry.
pub open spec fn zip_chain(bytes: Seq<u8>, pos: int, entries: Seq<ZipEntryModel>) -> bool
    decreases entries.len(),
{
    if entries.len() == 0 {
        true
    } else {
        zip_step(bytes, pos) == Ok::<Option<ZipEntryModel>, Seq<char>>(Some(entries[0]))
            && zip_chain(bytes, entries[0].4, entries.drop_first())
    }
}

/// A chain followed by one more step read at its end is a chain again.
proof fn lemma_zip_chain_push(bytes: Seq<u8>, pos: int, entries: Seq<ZipEntryModel>, e: ZipEntryModel)
    requires
        zip_chain(bytes, pos, entries),
        zip_step(bytes, chain_end(pos, entries)) == Ok::<Option<ZipEntryModel>, Seq<char>>(
            Some(e),
        ),
    ensures
        zip_chain(bytes, pos, entries.push(e)),
        chain_end(pos, entries.push(e)) == e.4,
    decreases entries.len(),
{
    assert(entries.push(e).last() == e);
    if entries.len() == 0 {
        assert(entries.push(e)[0] == e);
        assert(entries.push(e).drop_first() =~= Seq::<ZipEntryModel>::empty());
        assert(zip_chain(bytes, e.4, Seq::<ZipEntryModel>::empty()));
        assert(zip_chain(bytes, e.4, entries.push(e).drop_first()));
        assert(zip_chain(bytes, pos, entries.push(e)));
    } else {
        assert(entries.push(e)[0] == entries[0]);
        assert(entries.push(e).drop_first() =~= entries.drop_first().push(e));
        if entries.len() == 1 {
            assert(entries.last() == entries[0]);
        } else {
            assert(entries.drop_first().last() == entries.last());
        }
        assert(chain_end(pos, entries) == chain_end(entries[0].4, entries.drop_first()));
        lemma_zip_chain_push(bytes, entries[0].4, entries.drop_first(), e);
        assert(zip_chain(bytes, entries[0].4, entries.push(e).drop_first()));
        assert(zip_chain(bytes, pos, entries.push(e)));
    }
}

/// Folding one more entry continues the fold of the prefix.
proof fn lemma_manifest_from_push(
    m: CachedWheelView,
    entries: Seq<ZipEntryModel>,
    e: ZipEntryModel,
)
    ensures
        manifest_from(m, entries.push(e)) == (match manifest_from(m, entries) {
            Ok(m2) => spec_apply_entry(m2, e.0, e.1, e.2),
            Err(err) => Err(err),
        }),
    decreases entries.len(),
{
    if entries.len() == 0 {
        assert(entries.push(e)[0] == e);
        assert(entries.push(e).drop_first() =~= Seq::<ZipEntryModel>::empty());
        assert(manifest_from(m, entries) == Ok::<CachedWheelView, (Seq<char>, Seq<char>)>(m));
        match spec_apply_entry(m, e.0, e.1, e.2) {
            Ok(m2) => {
                assert(manifest_from(m2, Seq::<ZipEntryModel>::empty()) == Ok::<
                    CachedWheelView,
                    (Seq<char>, Seq<char>),
                >(m2));
                assert(manifest_from(m2, entries.push(e).drop_first()) == Ok::<
                    CachedWheelView,
                    (Seq<char>, Seq<char>),
                >(m2));
            },
            Err(_) => {},
        }
    } else {
        assert(entries.push(e)[0] == entries[0]);
        assert(entries.push(e).drop_first() =~= entries.drop_first().push(e));
        match spec_apply_entry(m, entries[0].0, entries[0].1, entries[0].2) {
            Ok(m2) => {
                assert(manifest_from(m, entries) == manifest_from(m2, entries.drop_first()));
                lemma_manifest_from_push(m2, entries.drop_first(), e);
                assert(manifest_from(m, entries.push(e)) == manifest_from(
                    m2,
                    entries.drop_first().push(e),
                ));
            },
            Err(_) => {},
        }
    }
}

/// Reading a stream is deterministic: two complete entry chains from the
/// same position are the same chain.
pub proof fn lemma_chain_unique(
    bytes: Seq<u8>,
    pos: int,
    es1: Seq<ZipEntryModel>,
    es2: Seq<ZipEntryModel>,
)
    requires
        zip_chain(bytes, pos, es1),
        zip_step(bytes, chain_end(pos, es1)) == Ok::<Option<ZipEntryModel>, Seq<char>>(None),
        zip_chain(bytes, pos, es2),
        zip_step(bytes, chain_end(pos, es2)) == Ok::<Option<ZipEntryModel>, Seq<char>>(None),
    ensures
        es1 == es2,
    decreases es1.len(),
{
    if es1.len() == 0 && es2.len() == 0 {
        assert(es1 =~= es2);
    } else if es1.len() == 0 {
        assert(zip_step(bytes, pos) == Ok::<Option<ZipEntryModel>, Seq<char>>(Some(es2[0])));
    } else if es2.len() == 0 {
        assert(zip_step(bytes, pos) == Ok::<Option<ZipEntryModel>, Seq<char>>(Some(es1[0])));
    } else {
        assert(es1[0] == es2[0]);
        if es1.len() == 1 {
            assert(es1.last() == es1[0]);
        } else {
            assert(es1.drop_first().last() == es1.last());
        }
        if es2.len() == 1 {
            assert(es2.last() == es2[0]);
        } else {
            assert(es2.drop_first().last() == es2.last());
        }
        assert(chain_end(pos, es1) == chain_end(es1[0].4, es1.drop_first()));
        assert(chain_end(pos, es2) == chain_end(es2[0].4, es2.drop_first()));
        lemma_chain_unique(bytes, es1[0].4, es1.drop_first(), es2.drop_first());
        assert(es1.drop_first() == es2.drop_first());
        assert(es1.len() == es2.len());
        assert forall|i: int| 0 <= i < es1.len() implies es1[i] == es2[i] by {
            if i >= 1 {
                assert(es1.drop_first()[i - 1] == es2.drop_first()[i - 1]);
                assert(es1[i] == es1.drop_first()[i - 1]);
                assert(es2[i] == es2.drop_first()[i - 1]);
            }
        }
        assert(es1 =~= es2);
    }
}

/// Whether every file record pairs digests computed from one and the same
/// byte sequence.
pub open spec fn files_digest_ok(files: Seq<(Seq<char>, CachedWheelEntryView)>) -> bool {
    forall|i: int| #![trigger files[i]]
        0 <= i < files.len() ==> exists|d: Seq<u8>|
            files[i].1 == #[trigger] entry_file_model(d, files[i].1.mode)
}

proof fn lemma_files_insert_digest_ok(
    files: Seq<(Seq<char>, CachedWheelEntryView)>,
    key: Seq<char>,
    d: Seq<u8>,
    mode: Option<u32>,
)
    requires
        files_digest_ok(files),
    ensures
        files_digest_ok(files_insert(files, key, entry_file_model(d, mode))),
    decreases files.len(),
{
    let v = entry_file_model(d, mode);
    let r = files_insert(files, key, v);
    assert(v == entry_file_model(d, v.mode));
    if files.len() == 0 {
        assert(r[0].1 == v);
    } else if seq_char_lt(key, files[0].0) {
        assert forall|i: int| #![trigger r[i]] 0 <= i < r.len() implies exists|dd: Seq<u8>|
            r[i].1 == #[trigger] entry_file_model(dd, r[i].1.mode) by {
            if i == 0 {
                assert(r[i].1 == entry_file_model(d, r[i].1.mode));
            } else {
                assert(r[i] == files[i - 1]);
                assert(exists|dd: Seq<u8>|
                    files[i - 1].1 == #[trigger] entry_file_model(dd, files[i - 1].1.mode));
            }
        }
    } else if key == files[0].0 {
        assert forall|i: int| #![trigger r[i]] 0 <= i < r.len() implies exists|dd: Seq<u8>|
            r[i].1 == #[trigger] entry_file_model(dd, r[i].1.mode) by {
            if i == 0 {
                assert(r[i].1 == entry_file_model(d, r[i].1.mode));
            } else {
                assert(r[i] == files[i]);
                assert(exists|dd: Seq<u8>|
                    files[i].1 == #[trigger] entry_file_model(dd, files[i].1.mode));
            }
        }
    } else {
        assert(files_digest_ok(files.drop_first())) by {
            assert(forall|i: int|
                0 <= i < files.drop_first().len() ==> #[trigger] files.drop_first()[i] == files[i
                    + 1]);
        }
        lemma_files_insert_digest_ok(files.drop_first(), key, d, mode);
        let rr = files_insert(files.drop_first(), key, v);
        assert forall|i: int| #![trigger r[i]] 0 <= i < r.len() implies exists|dd: Seq<u8>|
            r[i].1 == #[trigger] entry_file_model(dd, r[i].1.mode) by {
            if i == 0 {
                assert(r[i] == files[0]);
                assert(exists|dd: Seq<u8>|
                    files[0].1 == #[trigger] entry_file_model(dd, files[0].1.mode));
            } else {
                assert(r[i] == rr[i - 1]);
                assert(exists|dd: Seq<u8>|
                    rr[i - 1].1 == #[trigger] entry_file_model(dd, rr[i - 1].1.mode));
            }
        }
    }
}

/// Digest integrity: in any inventory an extraction produces, each file
/// record's two digests are computed from one and the same byte sequence, so
/// the blob stored at `content` hashes under SHA-256 to the digest encoded in
/// `sha256`.
pub proof fn lemma_digest_integrity(
    entries: Seq<ZipEntryModel>,
    m0: CachedWheelView,
    m: CachedWheelView,
)
    requires
        files_digest_ok(m0.files),
        manifest_from(m0, entries) == Ok::<CachedWheelView, (Seq<char>, Seq<char>)>(m),
    ensures
        files_digest_ok(m.files),
    decreases entries.len(),
{
    if entries.len() > 0 {
        match spec_apply_entry(m0, entries[0].0, entries[0].1, entries[0].2) {
            Ok(m1) => {
                if !(valid_utf8(entries[0].0) && valid_entry_path(
                    normalize_seps(decode_utf8(entries[0].0)),
                )) {
                } else {
                    let p = normalize_seps(decode_utf8(entries[0].0));
                    if p.len() > 0 && p.last() == '/' {
                    } else {
                        lemma_files_insert_digest_ok(m0.files, p, entries[0].1, entries[0].2);
                    }
                }
                lemma_digest_integrity(entries.drop_first(), m1, m);
            },
            Err(_) => {},
        }
    }
}

/// Extraction is deterministic: two successful extractions of the same
/// archive bytes produce the same inventory — and therefore byte-identical
/// serialized forms — whatever stores they wrote to.
pub proof fn lemma_extract_deterministic(
    bytes: Seq<u8>,
    es1: Seq<ZipEntryModel>,
    es2: Seq<ZipEntryModel>,
    m1: CachedWheelView,
    m2: CachedWheelView,
)
    requires
        zip_chain(bytes, 0, es1),
        zip_step(bytes, chain_end(0, es1)) == Ok::<Option<ZipEntryModel>, Seq<char>>(None),
        manifest_from(empty_manifest(), es1) == Ok::<CachedWheelView, (Seq<char>, Seq<char>)>(m1),
        zip_chain(bytes, 0, es2),
        zip_step(bytes, chain_end(0, es2)) == Ok::<Option<ZipEntryModel>, Seq<char>>(None),
        manifest_from(empty_manifest(), es2) == Ok::<CachedWheelView, (Seq<char>, Seq<char>)>(m2),
    ensures
        m1 == m2,
        crate::owned_archive::serialize_model(m1) == crate::owned_archive::serialize_model(m2),
{
    lemma_chain_unique(bytes, 0, es1, es2);
}


/// The pair sequence a file vector stands for.
pub open spec fn files_view(files: Seq<(String, CachedWheelEntry)>) -> Seq<
    (Seq<char>, CachedWheelEntryView),
> {
    files.map_values(|p: (String, CachedWheelEntry)| (p.0@, p.1@))
}

/// Splitting `files_insert` at a scan position whose keys are all below the
/// new key.
proof fn lemma_files_insert_skip(
    v: Seq<(Seq<char>, CachedWheelEntryView)>,
    key: Seq<char>,
    e: CachedWheelEntryView,
    i: int,
)
    requires
        0 <= i <= v.len(),
        forall|j: int| 0 <= j < i ==> seq_char_lt(#[trigger] v[j].0, key),
    ensures
        files_insert(v, key, e) == v.subrange(0, i) + files_insert(v.skip(i), key, e),
    decreases i,
{
    if i == 0 {
        assert(v.skip(0) =~= v);
        assert(v.subrange(0, 0) =~= Seq::<(Seq<char>, CachedWheelEntryView)>::empty());
        assert(files_insert(v, key, e) =~= v.subrange(0, 0) + files_insert(v.skip(0), key, e));
    } else {
        lemma_seq_char_lt_asymmetric(v[0].0, key);
        lemma_seq_char_lt_irreflexive(key);
        assert(v[0].0 != key) by {
            if v[0].0 == key {
                assert(seq_char_lt(key, key));
            }
        }
        lemma_files_insert_skip(v.drop_first(), key, e, i - 1);
        assert(v.drop_first().subrange(0, i - 1) =~= v.subrange(1, i));
        assert(v.drop_first().skip(i - 1) =~= v.skip(i));
        assert(files_insert(v, key, e) == seq![v[0]] + files_insert(v.drop_first(), key, e));
        assert(seq![v[0]] + (v.subrange(1, i) + files_insert(v.skip(i), key, e)) =~= v.subrange(
            0,
            i,
        ) + files_insert(v.skip(i), key, e));
    }
}

/// Inserts a file record under its path, keeping the vector sorted by path
/// and replacing an existing record with the same path.
fn insert_file(files: &mut Vec<(String, CachedWheelEntry)>, key: String, entry: CachedWheelEntry)
    ensures
        files_view(final(files)@) == files_insert(files_view(old(files)@), key@, entry@),
{
    let n = files.len();
    let mut i: usize = 0;
    while i < n && str_lt(files[i].0.as_str(), key.as_str())
        invariant
            0 <= i <= n,
            n == files@.len(),
            *files == *old(files),
            forall|j: int| 0 <= j < i ==> seq_char_lt(#[trigger] files_view(files@)[j].0, key@),
        decreases n - i,
    {
        i = i + 1;
    }
    let ghost v = files_view(files@);
    proof {
        lemma_files_insert_skip(v, key@, entry@, i as int);
    }
    if i < n {
        if str_eq(files[i].0.as_str(), key.as_str()) {
            proof {
                assert(v.skip(i as int)[0] == v[i as int]);
                assert(files_insert(v.skip(i as int), key@, entry@) == seq![(key@, entry@)]
                    + v.skip(i as int).drop_first());
                assert(v.skip(i as int).drop_first() =~= v.skip(i as int + 1));
            }
            files.remove(i);
            files.insert(i, (key, entry));
            proof {
                assert(files_view(files@) =~= v.subrange(0, i as int) + (seq![(key@, entry@)]
                    + v.skip(i as int + 1)));
            }
            return ;
        }
        proof {
            assert(v.skip(i as int)[0] == v[i as int]);
            lemma_seq_char_lt_connected(key@, v[i as int].0);
            assert(seq_char_lt(key@, v[i as int].0));
            assert(files_insert(v.skip(i as int), key@, entry@) == seq![(key@, entry@)] + v.skip(
                i as int,
            ));
        }
        files.insert(i, (key, entry));
        proof {
            assert(files_view(files@) =~= v.subrange(0, i as int) + (seq![(key@, entry@)]
                + v.skip(i as int)));
        }
        return ;
    }
    proof {
        assert(v.skip(i as int).len() == 0);
        assert(files_insert(v.skip(i as int), key@, entry@) == seq![(key@, entry@)]);
    }
    files.insert(i, (key, entry));
    proof {
        assert(files_view(files@) =~= v.subrange(0, i as int) + seq![(key@, entry@)]);
    }
}

/// Replaces every backslash with a forward slash.
fn normalize_path(s: &str) -> (r: String)
    ensures
        r@ == normalize_seps(s@),
{
    let n = s.unicode_len();
    let mut out = String::new();
    let mut start: usize = 0;
    let mut i: usize = 0;
    while i < n
        invariant
            0 <= start <= i <= n,
            n == s@.len(),
            forall|j: int| start <= j < i ==> s@[j] != '/' && s@[j] != '\\',
            out@ =~= normalize_seps(s@.subrange(0, start as int)),
        decreases n - i,
    {
        let c = s.get_char(i);
        if c == '/' || c == '\\' {
            out.append(s.substring_char(start, i));
            out.append("/");
            proof {
                reveal_strlit("/");
                assert(out@ =~= normalize_seps(s@.subrange(0, i as int + 1)));
            }
            start = i + 1;
        }
        i = i + 1;
    }
    out.append(s.substring_char(start, n));
    proof {
        assert(s@.subrange(0, n as int) =~= s@);
        assert(out@ =~= normalize_seps(s@));
    }
    out
}

/// Checks that a normalized entry path stays inside the archive root.
fn check_entry_path(p: &str) -> (r: bool)
    ensures
        r == valid_entry_path(p@),
{
    let n = p.unicode_len();
    if n > 0 && p.get_char(0) == '/' {
        return false;
    }
    let parts = split_str(p, '/');
    let ghost sparts = spec_split(p@, '/');
    proof {
        crate::strutil::lemma_split_len(p@, '/');
        assert(forall|i: int|
            0 <= i < parts@.len() ==> parts@[i]@ == #[trigger] parts.deep_view()[i]);
    }
    let m = parts.len();
    let mut i: usize = 0;
    while i < m
        invariant
            0 <= i <= m,
            m == parts@.len(),
            parts.deep_view() == sparts,
            sparts == spec_split(p@, '/'),
            forall|j: int|
                0 <= j < parts@.len() ==> parts@[j]@ == #[trigger] parts.deep_view()[j],
            forall|j: int| 0 <= j < i ==> #[trigger] sparts[j] != ".."@,
        decreases m - i,
    {
        if str_eq(parts[i].as_str(), "..") {
            proof {
                assert(sparts[i as int] == ".."@);
            }
            return false;
        }
        i = i + 1;
    }
    let first = &parts[0];
    proof {
        assert(parts.deep_view()[0] == sparts[0]);
        assert(first@ == sparts[0]);
    }
    let fl = first.as_str().unicode_len();
    let mut j: usize = 0;
    while j < fl
        invariant
            0 <= j <= fl,
            fl == first@.len(),
            first@ == sparts[0],
            sparts == spec_split(p@, '/'),
            forall|k: int| 0 <= k < j ==> sparts[0][k] != ':',
        decreases fl - j,
    {
        if first.as_str().get_char(j) == ':' {
            proof {
                assert(sparts[0][j as int] == ':');
            }
            return false;
        }
        j = j + 1;
    }
    true
}

/// Whether a year has 366 days.
pub open spec fn is_leap_year(y: int) -> bool {
    y % 4 == 0 && (y % 100 != 0 || y % 400 == 0)
}

/// The number of days in a month.
pub open spec fn days_in_month(y: int, m: int) -> int {
    if m == 2 {
        if is_leap_year(y) {
            29
        } else {
            28
        }
    } else if m == 4 || m == 6 || m == 9 || m == 11 {
        30
    } else {
        31
    }
}

/// Days from the unix epoch to the start of year `y`.
pub open spec fn days_before_year(y: int) -> int
    decreases y - 1970,
{
    if y <= 1970 {
        0
    } else {
        days_before_year(y - 1) + if is_leap_year(y - 1) {
            366int
        } else {
            365int
        }
    }
}

/// Days from the start of year `y` to the start of month `m`.
pub open spec fn days_before_month(y: int, m: int) -> int
    decreases m,
{
    if m <= 1 {
        0
    } else {
        days_before_month(y, m - 1) + days_in_month(y, m - 1)
    }
}

/// Milliseconds from the unix epoch to the given calendar time.
pub open spec fn unix_ms_of(y: int, mo: int, d: int, h: int, mi: int, s: int) -> int {
    ((((days_before_year(y) + days_before_month(y, mo) + (d - 1)) * 24 + h) * 60 + mi) * 60 + s)
        * 1000
}

/// The calendar fields of an MS-DOS date and time pair: years count from
/// 1980, months and days are bit fields of the date word, and seconds come
/// in units of two.
pub open spec fn dos_fields(date: u16, time: u16) -> (int, int, int, int, int, int) {
    (
        1980 + date as int / 512,
        (date as int / 32) % 16,
        date as int % 32,
        time as int / 2048,
        (time as int / 32) % 64,
        2 * (time as int % 32),
    )
}

/// Whether decoded calendar fields denote a representable time.
pub open spec fn valid_civil(y: int, mo: int, d: int, h: int, mi: int, s: int) -> bool {
    &&& 1 <= mo <= 12
    &&& 1 <= d <= days_in_month(y, mo)
    &&& h < 24
    &&& mi < 60
    &&& s < 60
}

/// The store timestamp for an entry's MS-DOS date and time: its unix
/// millisecond time, or nothing when the fields are absent or out of range.
pub open spec fn spec_mtime_ms(mtime: Option<(u16, u16)>) -> Option<u128> {
    match mtime {
        None => None,
        Some((date, time)) => {
            let (y, mo, d, h, mi, s) = dos_fields(date, time);
            if valid_civil(y, mo, d, h, mi, s) {
                Some(unix_ms_of(y, mo, d, h, mi, s) as u128)
            } else {
                None
            }
        },
    }
}

/// Whether a year has 366 days, decided executably.
fn leap_year(y: u16) -> (r: bool)
    ensures
        r == is_leap_year(y as int),
{
    y % 4 == 0 && (y % 100 != 0 || y % 400 == 0)
}

/// The number of days in a month, decided executably.
fn month_days(y: u16, m: u8) -> (r: u8)
    ensures
        r == days_in_month(y as int, m as int),
{
    if m == 2 {
        if leap_year(y) {
            29
        } else {
            28
        }
    } else if m == 4 || m == 6 || m == 9 || m == 11 {
        30
    } else {
        31
    }
}

proof fn lemma_days_before_year_bound(y: int)
    requires
        1970 <= y,
    ensures
        0 <= days_before_year(y) <= 366 * (y - 1970),
    decreases y - 1970,
{
    if y > 1970 {
        lemma_days_before_year_bound(y - 1);
    }
}

proof fn lemma_days_before_month_bound(y: int, m: int)
    requires
        1 <= m <= 13,
    ensures
        0 <= days_before_month(y, m) <= 31 * (m - 1),
    decreases m,
{
    if m > 1 {
        lemma_days_before_month_bound(y, m - 1);
    }
}

/// Converts an entry's MS-DOS timestamp to the store's millisecond
/// timestamp.
fn mtime_to_ms(mtime: Option<(u16, u16)>) -> (r: Option<u128>)
    ensures
        r == spec_mtime_ms(mtime),
{
    let (date, time) = match mtime {
        None => {
            return None;
        },
        Some(t) => t,
    };
    let y: u16 = 1980 + date / 512;
    let mo: u16 = (date / 32) % 16;
    let d: u16 = date % 32;
    let h: u16 = time / 2048;
    let mi: u16 = (time / 32) % 64;
    let s: u16 = 2 * (time % 32);
    if !(mo >= 1 && mo <= 12) {
        return None;
    }
    let dim = month_days(y, mo as u8);
    if !(d >= 1 && d <= dim as u16 && h < 24 && mi < 60 && s < 60) {
        return None;
    }
    let mut days: u64 = 0;
    let mut yy: u16 = 1970;
    while yy < y
        invariant
            1970 <= yy <= y <= 9999,
            days == days_before_year(yy as int),
            days <= 366 * (yy as int - 1970),
        decreases y - yy,
    {
        days = days + if leap_year(yy) {
            366
        } else {
            365
        };
        yy = yy + 1;
    }
    let mut mm: u16 = 1;
    while mm < mo
        invariant
            1 <= mm <= mo <= 12,
            days == days_before_year(y as int) + days_before_month(y as int, mm as int),
            days_before_year(y as int) <= 366 * (y as int - 1970),
            days_before_month(y as int, mm as int) <= 31 * (mm as int - 1),
        decreases mo - mm,
    {
        proof {
            lemma_days_before_month_bound(y as int, mm as int + 1);
        }
        days = days + month_days(y, mm as u8) as u64;
        mm = mm + 1;
    }
    proof {
        lemma_days_before_year_bound(y as int);
        lemma_days_before_month_bound(y as int, mo as int);
    }
    let days: u64 = days + (d - 1) as u64;
    let ms: u64 = ((((days * 24 + h as u64) * 60 + mi as u64) * 60 + s as u64)) * 1000;
    proof {
        let (sy, smo, sd, sh, smi, ss) = dos_fields(date, time);
        assert(sy == y as int && smo == mo as int && sd == d as int && sh == h as int && smi == mi
             as int && ss == s as int);
    }
    Some(ms as u128)
}

/// Whether `e` is a zip entry that extraction stores as a file under the
/// normalized path `p`: its name decodes, stays inside the archive root, and
/// does not name a directory. Store failures can only be reported at such an
/// entry, under its path.
pub open spec fn is_file_entry_at(e: ZipEntryModel, p: Seq<char>) -> bool {
    &&& valid_utf8(e.0)
    &&& {
        let path = normalize_seps(decode_utf8(e.0));
        &&& valid_entry_path(path)
        &&& !(path.len() > 0 && path.last() == '/')
        &&& p == path
    }
}

/// Extracts the contents of a wheel into the content-addressed cache rooted
/// at `cache`, returning the wheel's inventory.
///
/// The archive is read in stream order. Each file entry's bytes are stored
/// under the store's fast content hash while their SHA-256 is recorded
/// beside it; directory entries are listed as such. An entry whose name is
/// not valid UTF-8 or escapes the archive root aborts the extraction, as
/// does a zip-level error. Blobs already stored stay stored: the store
/// deduplicates by content, so extracting the same wheel twice yields the
/// same inventory and no new blobs.
pub fn extract(cache: &str, archive_bytes: &[u8]) -> (r: Result<CachedWheel, ExtractWheelError>)
    ensures
        match r {
            Ok(w) => exists|es: Seq<ZipEntryModel>|
                {
                    &&& #[trigger] zip_chain(archive_bytes@, 0, es)
                    &&& zip_step(archive_bytes@, chain_end(0, es)) == Ok::<
                        Option<ZipEntryModel>,
                        Seq<char>,
                    >(None)
                    &&& manifest_from(empty_manifest(), es) == Ok::<
                        CachedWheelView,
                        (Seq<char>, Seq<char>),
                    >(w@)
                },
            Err(ExtractWheelError::Zip(d)) => exists|es: Seq<ZipEntryModel>|
                {
                    &&& #[trigger] zip_chain(archive_bytes@, 0, es)
                    &&& zip_step(archive_bytes@, chain_end(0, es)) == Err::<
                        Option<ZipEntryModel>,
                        Seq<char>,
                    >(d@)
                    &&& manifest_from(empty_manifest(), es) is Ok
                },
            Err(ExtractWheelError::InvalidEntry(name, reason)) => exists|es: Seq<ZipEntryModel>|
                {
                    &&& #[trigger] zip_chain(archive_bytes@, 0, es)
                    &&& zip_step(archive_bytes@, chain_end(0, es)) matches Ok(Some(e))
                        && (manifest_from(empty_manifest(), es) matches Ok(m) && spec_apply_entry(
                        m,
                        e.0,
                        e.1,
                        e.2,
                    ) == Err::<CachedWheelView, (Seq<char>, Seq<char>)>((name@, reason@)))
                },
            Err(ExtractWheelError::CacheError(p, _)) => exists|es: Seq<ZipEntryModel>|
                {
                    &&& #[trigger] zip_chain(archive_bytes@, 0, es)
                    &&& manifest_from(empty_manifest(), es) is Ok
                    &&& (zip_step(archive_bytes@, chain_end(0, es)) matches Ok(Some(e))
                        && is_file_entry_at(e, p@))
                },
            Err(ExtractWheelError::IoError(p, _)) => exists|es: Seq<ZipEntryModel>|
                {
                    &&& #[trigger] zip_chain(archive_bytes@, 0, es)
                    &&& manifest_from(empty_manifest(), es) is Ok
                    &&& (zip_step(archive_bytes@, chain_end(0, es)) matches Ok(Some(e))
                        && is_file_entry_at(e, p@))
                },
        },
{
    let mut files: Vec<(String, CachedWheelEntry)> = Vec::new();
    let mut directories: Vec<String> = Vec::new();
    let mut pos: u64 = 0;
    let ghost mut entries: Seq<ZipEntryModel> = Seq::empty();
    proof {
        assert(files_view(files@) =~= empty_manifest().files);
        assert(directories.deep_view() =~= empty_manifest().directories);
    }
    loop
        invariant
            pos <= archive_bytes@.len(),
            zip_chain(archive_bytes@, 0, entries),
            chain_end(0, entries) == pos as int,
            manifest_from(empty_manifest(), entries) == Ok::<
                CachedWheelView,
                (Seq<char>, Seq<char>),
            >(
                CachedWheelView {
                    files: files_view(files@),
                    directories: directories.deep_view(),
                },
            ),
        decreases archive_bytes@.len() - pos,
    {
        let ghost m_now = CachedWheelView {
            files: files_view(files@),
            directories: directories.deep_view(),
        };
        let raw = match read_next_entry(archive_bytes, pos) {
            Ok(Some(e)) => e,
            Ok(None) => {
                return Ok(CachedWheel { files, directories });
            },
            Err(s) => {
                return Err(ExtractWheelError::Zip(s));
            },
        };
        let ghost e_model = entry_model(raw);
        let name_string = match utf8_to_string(raw.name.as_slice()) {
            Some(n) => n,
            None => {
                let reported = utf8_to_string_lossy(raw.name.as_slice());
                return Err(ExtractWheelError::InvalidEntry(
                    reported,
                    "is not a valid utf-8 path".to_owned(),
                ));
            },
        };
        let path = normalize_path(name_string.as_str());
        if !check_entry_path(path.as_str()) {
            return Err(ExtractWheelError::InvalidEntry(
                name_string,
                "is not a valid path".to_owned(),
            ));
        }
        let pn = path.as_str().unicode_len();
        let is_dir = pn > 0 && path.as_str().get_char(pn - 1) == '/';
        proof {
            if pn > 0 {
                assert(path@.last() == path@[pn - 1]);
            }
        }
        if is_dir {
            let ghost old_dirs = directories.deep_view();
            directories.push(path);
            proof {
                assert(directories.deep_view() =~= old_dirs.push(normalize_seps(decode_utf8(
                    raw.name@,
                ))));
            }
        } else {
            let sha = sha256_digest(raw.data.as_slice());
            let enc = b64url_encode(sha.as_slice());
            let sha_field = String::from_str("sha256=").concat(enc.as_str());
            proof {
                reveal_strlit("sha256=");
                assert(sha_field@ == "sha256="@ + b64url_nopad(sha256_of(raw.data@)));
            }
            let ms = mtime_to_ms(raw.mtime);
            let integrity = match commit_blob(cache, raw.data.as_slice(), ms) {
                Ok(integrity) => integrity,
                Err(StoreError::Cache(d)) => {
                    proof {
                        assert(is_file_entry_at(e_model, path@));
                    }
                    return Err(ExtractWheelError::CacheError(path, d));
                },
                Err(StoreError::Io(d)) => {
                    proof {
                        assert(is_file_entry_at(e_model, path@));
                    }
                    return Err(ExtractWheelError::IoError(path, d));
                },
            };
            let entry = CachedWheelEntry { content: integrity, sha256: sha_field, mode: raw.unix_mode };
            proof {
                assert(entry@ == entry_file_model(raw.data@, raw.unix_mode));
            }
            insert_file(&mut files, path, entry);
        }
        proof {
            lemma_zip_chain_push(archive_bytes@, 0, entries, e_model);
            lemma_manifest_from_push(empty_manifest(), entries, e_model);
            assert(spec_apply_entry(m_now, e_model.0, e_model.1, e_model.2) == Ok::<
                CachedWheelView,
                (Seq<char>, Seq<char>),
            >(
                CachedWheelView {
                    files: files_view(files@),
                    directories: directories.deep_view(),
                },
            ));
            entries = entries.push(e_model);
        }
        pos = raw.next_pos;
    }
}

} // verus!
