//! The manifest codec: a binary serialization of [`CachedWheel`] with owned
//! backing bytes.
//!
//! [`OwnedArchive`] owns both the encoded bytes and the manifest decoded from
//! them, so the manifest can be handed out without reparsing and the bytes
//! without re-encoding. Validation parses the buffer once and rejects
//! anything that is not exactly the encoding of one manifest.

use crate::cache::{CachedWheel, CachedWheelEntry, CachedWheelEntryView, CachedWheelView};
use crate::strutil::utf8_to_string;
use vstd::bytes::{
    lemma_auto_spec_u32_to_from_le_bytes, lemma_auto_spec_u64_to_from_le_bytes,
    spec_u32_from_le_bytes, spec_u32_to_le_bytes, spec_u64_from_le_bytes, spec_u64_to_le_bytes,
    u32_from_le_bytes, u32_to_le_bytes, u64_from_le_bytes, u64_to_le_bytes,
};
use vstd::prelude::*;
use vstd::utf8::{
    decode_utf8, encode_utf8, encode_utf8_decode_utf8, encode_utf8_valid_utf8, valid_utf8,
};

verus! {

/// The eight magic bytes that open every encoded manifest.
pub open spec fn magic() -> Seq<u8> {
    seq![0x52u8, 0x49u8, 0x50u8, 0x4du8, 0x41u8, 0x4eu8, 0x49u8, 0x31u8]
}

/// A string's encoding: its UTF-8 length as a little-endian `u64`, then its
/// UTF-8 bytes.
pub open spec fn ser_string(s: Seq<char>) -> Seq<u8> {
    spec_u64_to_le_bytes(encode_utf8(s).len() as u64) + encode_utf8(s)
}

/// A mode's encoding: a zero byte, or a one byte followed by the bits as a
/// little-endian `u32`.
pub open spec fn ser_mode(mode: Option<u32>) -> Seq<u8> {
    match mode {
        None => seq![0u8],
        Some(m) => seq![1u8] + spec_u32_to_le_bytes(m),
    }
}

/// A file record's encoding: path, content, sha256, mode.
pub open spec fn ser_entry(kv: (Seq<char>, CachedWheelEntryView)) -> Seq<u8> {
    ser_string(kv.0) + ser_string(kv.1.content) + ser_string(kv.1.sha256) + ser_mode(kv.1.mode)
}

/// The concatenated encodings of a run of file records.
pub open spec fn ser_files(files: Seq<(Seq<char>, CachedWheelEntryView)>) -> Seq<u8>
    decreases files.len(),
{
    if files.len() == 0 {
        Seq::empty()
    } else {
        ser_entry(files[0]) + ser_files(files.drop_first())
    }
}

/// The concatenated encodings of a run of directory paths.
pub open spec fn ser_dirs(dirs: Seq<Seq<char>>) -> Seq<u8>
    decreases dirs.len(),
{
    if dirs.len() == 0 {
        Seq::empty()
    } else {
        ser_string(dirs[0]) + ser_dirs(dirs.drop_first())
    }
}

/// The encoding of a whole manifest: magic, file count, file records,
/// directory count, directory paths.
pub open spec fn serialize_model(m: CachedWheelView) -> Seq<u8> {
    magic() + spec_u64_to_le_bytes(m.files.len() as u64) + ser_files(m.files)
        + spec_u64_to_le_bytes(m.directories.len() as u64) + ser_dirs(m.directories)
}

/// Whether a manifest's sizes fit the encoding's 64-bit length fields.
pub open spec fn bounded_manifest(m: CachedWheelView) -> bool {
    &&& m.files.len() < 0x1_0000_0000_0000_0000
    &&& m.directories.len() < 0x1_0000_0000_0000_0000
    &&& forall|i: int|
        0 <= i < m.files.len() ==> encode_utf8(#[trigger] m.files[i].0).len()
            < 0x1_0000_0000_0000_0000 && encode_utf8(m.files[i].1.content).len()
            < 0x1_0000_0000_0000_0000 && encode_utf8(m.files[i].1.sha256).len()
            < 0x1_0000_0000_0000_0000
    &&& forall|i: int|
        0 <= i < m.directories.len() ==> encode_utf8(#[trigger] m.directories[i]).len()
            < 0x1_0000_0000_0000_0000
}

/// Reads a little-endian `u64` at `pos`.
pub open spec fn parse_u64(bytes: Seq<u8>, pos: int) -> Option<(u64, int)> {
    if 0 <= pos && pos + 8 <= bytes.len() {
        Some((spec_u64_from_le_bytes(bytes.subrange(pos, pos + 8)), pos + 8))
    } else {
        None
    }
}

/// Reads a length-prefixed string at `pos`.
pub open spec fn parse_string(bytes: Seq<u8>, pos: int) -> Option<(Seq<char>, int)> {
    match parse_u64(bytes, pos) {
        Some((n, p)) => if p + n <= bytes.len() && valid_utf8(bytes.subrange(p, p + n)) {
            Some((decode_utf8(bytes.subrange(p, p + n)), p + n))
        } else {
            None
        },
        None => None,
    }
}

/// Reads an optional mode at `pos`.
pub open spec fn parse_mode(bytes: Seq<u8>, pos: int) -> Option<(Option<u32>, int)> {
    if 0 <= pos && pos < bytes.len() {
        if bytes[pos] == 0 {
            Some((None, pos + 1))
        } else if bytes[pos] == 1 && pos + 5 <= bytes.len() {
            Some((Some(spec_u32_from_le_bytes(bytes.subrange(pos + 1, pos + 5))), pos + 5))
        } else {
            None
        }
    } else {
        None
    }
}

/// Reads one file record at `pos`.
pub open spec fn parse_entry(bytes: Seq<u8>, pos: int) -> Option<
    ((Seq<char>, CachedWheelEntryView), int),
> {
    match parse_string(bytes, pos) {
        Some((path, p1)) => match parse_string(bytes, p1) {
            Some((content, p2)) => match parse_string(bytes, p2) {
                Some((sha256, p3)) => match parse_mode(bytes, p3) {
                    Some((mode, p4)) => Some(
                        ((path, CachedWheelEntryView { content, sha256, mode }), p4),
                    ),
                    None => None,
                },
                None => None,
            },
            None => None,
        },
        None => None,
    }
}

/// Reads `n` file records starting at `pos`.
pub open spec fn parse_files(bytes: Seq<u8>, pos: int, n: nat) -> Option<
    (Seq<(Seq<char>, CachedWheelEntryView)>, int),
>
    decreases n,
{
    if n == 0 {
        Some((Seq::empty(), pos))
    } else {
        match parse_entry(bytes, pos) {
            Some((kv, p)) => match parse_files(bytes, p, (n - 1) as nat) {
                Some((rest, q)) => Some((seq![kv] + rest, q)),
                None => None,
            },
            None => None,
        }
    }
}

/// Reads `n` directory paths starting at `pos`.
pub open spec fn parse_dirs(bytes: Seq<u8>, pos: int, n: nat) -> Option<(Seq<Seq<char>>, int)>
    decreases n,
{
    if n == 0 {
        Some((Seq::empty(), pos))
    } else {
        match parse_string(bytes, pos) {
            Some((d, p)) => match parse_dirs(bytes, p, (n - 1) as nat) {
                Some((rest, q)) => Some((seq![d] + rest, q)),
                None => None,
            },
            None => None,
        }
    }
}

/// Decodes a whole buffer as one manifest; the buffer must be consumed
/// exactly.
pub open spec fn parse_manifest(bytes: Seq<u8>) -> Option<CachedWheelView> {
    if bytes.len() >= 8 && bytes.subrange(0, 8) == magic() {
        match parse_u64(bytes, 8) {
            Some((nf, p1)) => match parse_files(bytes, p1, nf as nat) {
                Some((files, p2)) => match parse_u64(bytes, p2) {
                    Some((nd, p3)) => match parse_dirs(bytes, p3, nd as nat) {
                        Some((dirs, p4)) => if p4 == bytes.len() {
                            Some(CachedWheelView { files, directories: dirs })
                        } else {
                            None
                        },
                        None => None,
                    },
                    None => None,
                },
                None => None,
            },
            None => None,
        }
    } else {
        None
    }
}


proof fn lemma_parse_u64_at(bytes: Seq<u8>, pos: int, v: u64)
    requires
        0 <= pos,
        pos + 8 <= bytes.len(),
        bytes.subrange(pos, pos + 8) == spec_u64_to_le_bytes(v),
    ensures
        parse_u64(bytes, pos) == Some((v, pos + 8)),
{
    lemma_auto_spec_u64_to_from_le_bytes();
}

proof fn lemma_parse_string_at(bytes: Seq<u8>, pos: int, s: Seq<char>)
    requires
        0 <= pos,
        pos + ser_string(s).len() <= bytes.len(),
        bytes.subrange(pos, pos + ser_string(s).len()) == ser_string(s),
        encode_utf8(s).len() < 0x1_0000_0000_0000_0000,
    ensures
        parse_string(bytes, pos) == Some((s, pos + ser_string(s).len())),
{
    lemma_auto_spec_u64_to_from_le_bytes();
    let e = encode_utf8(s);
    let n = e.len() as int;
    assert(ser_string(s).len() == 8 + n);
    assert(bytes.subrange(pos, pos + 8) =~= ser_string(s).subrange(0, 8)) by {
        assert(forall|i: int|
            0 <= i < 8 ==> bytes.subrange(pos, pos + 8)[i] == #[trigger] bytes.subrange(
                pos,
                pos + ser_string(s).len(),
            )[i]);
    }
    assert(ser_string(s).subrange(0, 8) =~= spec_u64_to_le_bytes(n as u64));
    lemma_parse_u64_at(bytes, pos, n as u64);
    assert(bytes.subrange(pos + 8, pos + 8 + n) =~= e) by {
        assert(forall|i: int|
            0 <= i < n ==> bytes.subrange(pos + 8, pos + 8 + n)[i] == #[trigger] bytes.subrange(
                pos,
                pos + ser_string(s).len(),
            )[i + 8]);
        assert(forall|i: int| 0 <= i < n ==> ser_string(s)[i + 8] == e[i]);
    }
    encode_utf8_valid_utf8(s);
    encode_utf8_decode_utf8(s);
}

proof fn lemma_parse_mode_at(bytes: Seq<u8>, pos: int, mode: Option<u32>)
    requires
        0 <= pos,
        pos + ser_mode(mode).len() <= bytes.len(),
        bytes.subrange(pos, pos + ser_mode(mode).len()) == ser_mode(mode),
    ensures
        parse_mode(bytes, pos) == Some((mode, pos + ser_mode(mode).len())),
{
    lemma_auto_spec_u32_to_from_le_bytes();
    match mode {
        None => {
            assert(bytes[pos] == ser_mode(mode)[0]);
        },
        Some(m) => {
            assert(ser_mode(mode).len() == 5);
            assert(bytes[pos] == ser_mode(mode)[0]);
            assert(bytes.subrange(pos + 1, pos + 5) =~= spec_u32_to_le_bytes(m)) by {
                assert(forall|i: int|
                    0 <= i < 4 ==> bytes.subrange(pos + 1, pos + 5)[i] == #[trigger]
                        bytes.subrange(pos, pos + 5)[i + 1]);
                assert(forall|i: int|
                    0 <= i < 4 ==> ser_mode(mode)[i + 1] == spec_u32_to_le_bytes(m)[i]);
            }
            lemma_auto_spec_u32_to_from_le_bytes();
        },
    }
}

/// Whether the strings of a file record all fit the length fields.
pub open spec fn bounded_entry(kv: (Seq<char>, CachedWheelEntryView)) -> bool {
    &&& encode_utf8(kv.0).len() < 0x1_0000_0000_0000_0000
    &&& encode_utf8(kv.1.content).len() < 0x1_0000_0000_0000_0000
    &&& encode_utf8(kv.1.sha256).len() < 0x1_0000_0000_0000_0000
}

proof fn lemma_subrange_chain(bytes: Seq<u8>, pos: int, a: Seq<u8>, b: Seq<u8>)
    requires
        0 <= pos,
        pos + a.len() + b.len() <= bytes.len(),
        bytes.subrange(pos, pos + a.len() + b.len()) == a + b,
    ensures
        bytes.subrange(pos, pos + a.len()) == a,
        bytes.subrange(pos + a.len(), pos + a.len() + b.len()) == b,
{
    assert forall|i: int| 0 <= i < a.len() implies bytes.subrange(pos, pos + a.len())[i]
        == a[i] by {
        assert(bytes.subrange(pos, pos + a.len() + b.len())[i] == (a + b)[i]);
        assert((a + b)[i] == a[i]);
        assert(bytes.subrange(pos, pos + a.len())[i] == bytes[pos + i]);
        assert(bytes.subrange(pos, pos + a.len() + b.len())[i] == bytes[pos + i]);
    }
    assert(bytes.subrange(pos, pos + a.len()) =~= a);
    assert forall|i: int| 0 <= i < b.len() implies bytes.subrange(
        pos + a.len(),
        pos + a.len() + b.len(),
    )[i] == b[i] by {
        assert(bytes.subrange(pos, pos + a.len() + b.len())[a.len() + i] == (a + b)[a.len() + i]);
        assert((a + b)[a.len() + i] == b[i]);
        assert(bytes.subrange(pos + a.len(), pos + a.len() + b.len())[i] == bytes[pos + a.len()
            + i]);
        assert(bytes.subrange(pos, pos + a.len() + b.len())[a.len() + i] == bytes[pos + a.len()
            + i]);
    }
    assert(bytes.subrange(pos + a.len(), pos + a.len() + b.len()) =~= b);
}

proof fn lemma_parse_entry_at(bytes: Seq<u8>, pos: int, kv: (Seq<char>, CachedWheelEntryView))
    requires
        0 <= pos,
        pos + ser_entry(kv).len() <= bytes.len(),
        bytes.subrange(pos, pos + ser_entry(kv).len()) == ser_entry(kv),
        bounded_entry(kv),
    ensures
        parse_entry(bytes, pos) == Some((kv, pos + ser_entry(kv).len())),
{
    lemma_auto_spec_u64_to_from_le_bytes();
    let s0 = ser_string(kv.0);
    let s1 = ser_string(kv.1.content);
    let s2 = ser_string(kv.1.sha256);
    let s3 = ser_mode(kv.1.mode);
    assert(ser_entry(kv) =~= s0 + (s1 + (s2 + s3)));
    lemma_subrange_chain(bytes, pos, s0, s1 + (s2 + s3));
    lemma_parse_string_at(bytes, pos, kv.0);
    let p1 = pos + s0.len();
    lemma_subrange_chain(bytes, p1, s1, s2 + s3);
    lemma_parse_string_at(bytes, p1, kv.1.content);
    let p2 = p1 + s1.len();
    lemma_subrange_chain(bytes, p2, s2, s3);
    lemma_parse_string_at(bytes, p2, kv.1.sha256);
    let p3 = p2 + s2.len();
    lemma_parse_mode_at(bytes, p3, kv.1.mode);
    assert(kv == (kv.0, CachedWheelEntryView { content: kv.1.content, sha256: kv.1.sha256, mode: kv.1.mode }));
}

proof fn lemma_parse_files_at(bytes: Seq<u8>, pos: int, files: Seq<(Seq<char>, CachedWheelEntryView)>)
    requires
        0 <= pos,
        pos + ser_files(files).len() <= bytes.len(),
        bytes.subrange(pos, pos + ser_files(files).len()) == ser_files(files),
        forall|i: int| 0 <= i < files.len() ==> bounded_entry(#[trigger] files[i]),
    ensures
        parse_files(bytes, pos, files.len() as nat) == Some(
            (files, pos + ser_files(files).len()),
        ),
    decreases files.len(),
{
    if files.len() == 0 {
        assert(parse_files(bytes, pos, 0) == Some((Seq::<
            (Seq<char>, CachedWheelEntryView),
        >::empty(), pos)));
        assert(files =~= Seq::<(Seq<char>, CachedWheelEntryView)>::empty());
    } else {
        let head = ser_entry(files[0]);
        let rest = ser_files(files.drop_first());
        assert(ser_files(files) == head + rest);
        lemma_subrange_chain(bytes, pos, head, rest);
        lemma_parse_entry_at(bytes, pos, files[0]);
        let p = pos + head.len();
        assert(forall|i: int|
            0 <= i < files.drop_first().len() ==> bounded_entry(
                #[trigger] files.drop_first()[i],
            )) by {
            assert(forall|i: int|
                0 <= i < files.drop_first().len() ==> files.drop_first()[i] == #[trigger] files[
                    i + 1]);
        }
        lemma_parse_files_at(bytes, p, files.drop_first());
        assert(seq![files[0]] + files.drop_first() =~= files);
    }
}

proof fn lemma_parse_dirs_at(bytes: Seq<u8>, pos: int, dirs: Seq<Seq<char>>)
    requires
        0 <= pos,
        pos + ser_dirs(dirs).len() <= bytes.len(),
        bytes.subrange(pos, pos + ser_dirs(dirs).len()) == ser_dirs(dirs),
        forall|i: int|
            0 <= i < dirs.len() ==> encode_utf8(#[trigger] dirs[i]).len()
                < 0x1_0000_0000_0000_0000,
    ensures
        parse_dirs(bytes, pos, dirs.len() as nat) == Some((dirs, pos + ser_dirs(dirs).len())),
    decreases dirs.len(),
{
    if dirs.len() == 0 {
        assert(dirs =~= Seq::<Seq<char>>::empty());
    } else {
        let head = ser_string(dirs[0]);
        let rest = ser_dirs(dirs.drop_first());
        assert(ser_dirs(dirs) == head + rest);
        lemma_subrange_chain(bytes, pos, head, rest);
        lemma_parse_string_at(bytes, pos, dirs[0]);
        let p = pos + head.len();
        assert(forall|i: int|
            0 <= i < dirs.drop_first().len() ==> encode_utf8(
                #[trigger] dirs.drop_first()[i],
            ).len() < 0x1_0000_0000_0000_0000) by {
            assert(forall|i: int|
                0 <= i < dirs.drop_first().len() ==> dirs.drop_first()[i] == #[trigger] dirs[i
                    + 1]);
        }
        lemma_parse_dirs_at(bytes, p, dirs.drop_first());
        assert(seq![dirs[0]] + dirs.drop_first() =~= dirs);
    }
}

/// Codec round trip: decoding the encoding of any manifest whose sizes fit
/// the length fields succeeds and yields the manifest itself.
pub proof fn lemma_codec_round_trip(m: CachedWheelView)
    requires
        bounded_manifest(m),
    ensures
        parse_manifest(serialize_model(m)) == Some(m),
{
    lemma_auto_spec_u64_to_from_le_bytes();
    let bytes = serialize_model(m);
    let nf = spec_u64_to_le_bytes(m.files.len() as u64);
    let fs = ser_files(m.files);
    let nd = spec_u64_to_le_bytes(m.directories.len() as u64);
    let ds = ser_dirs(m.directories);
    assert(bytes =~= magic() + (nf + (fs + (nd + ds))));
    assert(bytes.subrange(0, magic().len() + (nf + (fs + (nd + ds))).len() as int) =~= magic() + (
    nf + (fs + (nd + ds))));
    lemma_subrange_chain(bytes, 0, magic(), nf + (fs + (nd + ds)));
    assert(bytes.subrange(0, 8) == magic());
    lemma_subrange_chain(bytes, 8, nf, fs + (nd + ds));
    lemma_parse_u64_at(bytes, 8, m.files.len() as u64);
    lemma_subrange_chain(bytes, 16, fs, nd + ds);
    assert(forall|i: int| 0 <= i < m.files.len() ==> bounded_entry(#[trigger] m.files[i]));
    lemma_parse_files_at(bytes, 16, m.files);
    let p2: int = 16 + fs.len() as int;
    lemma_subrange_chain(bytes, p2, nd, ds);
    lemma_parse_u64_at(bytes, p2, m.directories.len() as u64);
    lemma_parse_dirs_at(bytes, p2 + 8, m.directories);
    assert(p2 + 8 + ds.len() == bytes.len());
    assert(m == CachedWheelView { files: m.files, directories: m.directories });
}


/// Appends a byte slice.
fn append_bytes(out: &mut Vec<u8>, src: &[u8])
    ensures
        final(out)@ == old(out)@ + src@,
{
    let n = src.len();
    let mut i: usize = 0;
    while i < n
        invariant
            0 <= i <= n,
            n == src@.len(),
            out@ == old(out)@ + src@.subrange(0, i as int),
        decreases n - i,
    {
        out.push(src[i]);
        proof {
            assert(old(out)@ + src@.subrange(0, i as int + 1) =~= (old(out)@ + src@.subrange(
                0,
                i as int,
            )).push(src@[i as int]));
        }
        i = i + 1;
    }
    proof {
        assert(src@.subrange(0, n as int) =~= src@);
    }
}

/// Appends a little-endian `u64`.
fn append_u64(out: &mut Vec<u8>, v: u64)
    ensures
        final(out)@ == old(out)@ + spec_u64_to_le_bytes(v),
{
    let b = u64_to_le_bytes(v);
    append_bytes(out, b.as_slice());
}

/// Appends a length-prefixed string.
fn append_string(out: &mut Vec<u8>, s: &str)
    ensures
        final(out)@ == old(out)@ + ser_string(s@),
{
    let b = s.as_bytes();
    append_u64(out, b.len() as u64);
    append_bytes(out, b);
    proof {
        assert(out@ =~= old(out)@ + ser_string(s@));
    }
}

/// Appends an optional mode.
fn append_mode(out: &mut Vec<u8>, mode: Option<u32>)
    ensures
        final(out)@ == old(out)@ + ser_mode(mode),
{
    match mode {
        None => {
            out.push(0);
            proof {
                assert(old(out)@ + ser_mode(mode) =~= old(out)@.push(0u8));
            }
        },
        Some(m) => {
            out.push(1);
            let b = u32_to_le_bytes(m);
            append_bytes(out, b.as_slice());
            proof {
                assert(out@ =~= old(out)@ + ser_mode(mode));
            }
        },
    }
}

proof fn lemma_ser_files_snoc(files: Seq<(Seq<char>, CachedWheelEntryView)>, kv: (Seq<char>, CachedWheelEntryView))
    ensures
        ser_files(files.push(kv)) == ser_files(files) + ser_entry(kv),
    decreases files.len(),
{
    if files.len() == 0 {
        assert(files.push(kv)[0] == kv);
        assert(files.push(kv).drop_first() =~= Seq::<(Seq<char>, CachedWheelEntryView)>::empty());
        assert(ser_files(Seq::<(Seq<char>, CachedWheelEntryView)>::empty())
            == Seq::<u8>::empty());
        assert(ser_files(files.push(kv)) =~= ser_entry(kv) + Seq::<u8>::empty());
        assert(ser_entry(kv) + Seq::<u8>::empty() =~= ser_entry(kv));
        assert(ser_files(files) + ser_entry(kv) =~= ser_entry(kv));
    } else {
        assert(files.push(kv)[0] == files[0]);
        assert(files.push(kv).drop_first() =~= files.drop_first().push(kv));
        lemma_ser_files_snoc(files.drop_first(), kv);
        assert(ser_entry(files[0]) + (ser_files(files.drop_first()) + ser_entry(kv)) =~= (
        ser_entry(files[0]) + ser_files(files.drop_first())) + ser_entry(kv));
    }
}

proof fn lemma_ser_dirs_snoc(dirs: Seq<Seq<char>>, d: Seq<char>)
    ensures
        ser_dirs(dirs.push(d)) == ser_dirs(dirs) + ser_string(d),
    decreases dirs.len(),
{
    if dirs.len() == 0 {
        assert(dirs.push(d)[0] == d);
        assert(dirs.push(d).drop_first() =~= Seq::<Seq<char>>::empty());
        assert(ser_dirs(Seq::<Seq<char>>::empty()) == Seq::<u8>::empty());
        assert(ser_dirs(dirs.push(d)) =~= ser_string(d) + Seq::<u8>::empty());
        assert(ser_string(d) + Seq::<u8>::empty() =~= ser_string(d));
        assert(ser_dirs(dirs) + ser_string(d) =~= ser_string(d));
    } else {
        assert(dirs.push(d)[0] == dirs[0]);
        assert(dirs.push(d).drop_first() =~= dirs.drop_first().push(d));
        lemma_ser_dirs_snoc(dirs.drop_first(), d);
        assert(ser_string(dirs[0]) + (ser_dirs(dirs.drop_first()) + ser_string(d)) =~= (
        ser_string(dirs[0]) + ser_dirs(dirs.drop_first())) + ser_string(d));
    }
}

/// Encodes a manifest.
fn serialize_manifest(m: &CachedWheel) -> (r: Vec<u8>)
    ensures
        r@ == serialize_model(m@),
{
    let mut out: Vec<u8> = Vec::new();
    out.push(0x52);
    out.push(0x49);
    out.push(0x50);
    out.push(0x4d);
    out.push(0x41);
    out.push(0x4e);
    out.push(0x49);
    out.push(0x31);
    proof {
        assert(out@ =~= magic());
    }
    append_u64(&mut out, m.files.len() as u64);
    let ghost header = out@;
    let n = m.files.len();
    let mut i: usize = 0;
    while i < n
        invariant
            0 <= i <= n,
            n == m.files@.len(),
            out@ == header + ser_files(m@.files.subrange(0, i as int)),
        decreases n - i,
    {
        let pair = &m.files[i];
        append_string(&mut out, pair.0.as_str());
        append_string(&mut out, pair.1.content.as_str());
        append_string(&mut out, pair.1.sha256.as_str());
        append_mode(&mut out, pair.1.mode);
        proof {
            let prefix = m@.files.subrange(0, i as int);
            assert(m@.files.subrange(0, i as int + 1) =~= prefix.push(m@.files[i as int]));
            lemma_ser_files_snoc(prefix, m@.files[i as int]);
            assert(m@.files[i as int] == (pair.0@, pair.1@));
            assert(ser_entry(m@.files[i as int]) =~= ser_string(pair.0@) + ser_string(
                pair.1.content@,
            ) + ser_string(pair.1.sha256@) + ser_mode(pair.1.mode));
            assert(out@ =~= header + ser_files(m@.files.subrange(0, i as int + 1)));
        }
        i = i + 1;
    }
    proof {
        assert(m@.files.subrange(0, n as int) =~= m@.files);
    }
    append_u64(&mut out, m.directories.len() as u64);
    let ghost header2 = out@;
    let nd = m.directories.len();
    let mut j: usize = 0;
    while j < nd
        invariant
            0 <= j <= nd,
            nd == m.directories@.len(),
            out@ == header2 + ser_dirs(m@.directories.subrange(0, j as int)),
        decreases nd - j,
    {
        append_string(&mut out, m.directories[j].as_str());
        proof {
            let prefix = m@.directories.subrange(0, j as int);
            assert(m@.directories.subrange(0, j as int + 1) =~= prefix.push(m@.directories[
                j as int]));
            lemma_ser_dirs_snoc(prefix, m@.directories[j as int]);
            assert(m@.directories[j as int] == m.directories@[j as int]@);
            assert(out@ =~= header2 + ser_dirs(m@.directories.subrange(0, j as int + 1)));
        }
        j = j + 1;
    }
    proof {
        assert(m@.directories.subrange(0, nd as int) =~= m@.directories);
        assert(out@ =~= serialize_model(m@));
    }
    out
}

/// Reads a little-endian `u64`, executably.
fn read_u64(bytes: &[u8], pos: usize) -> (r: Option<(u64, usize)>)
    ensures
        match r {
            Some((v, q)) => parse_u64(bytes@, pos as int) == Some((v, q as int)),
            None => parse_u64(bytes@, pos as int) is None,
        },
{
    if bytes.len() >= 8 && pos <= bytes.len() - 8 {
        let sub = vstd::slice::slice_subrange(bytes, pos, pos + 8);
        Some((u64_from_le_bytes(sub), pos + 8))
    } else {
        None
    }
}

/// Reads a length-prefixed string, executably.
fn read_string(bytes: &[u8], pos: usize) -> (r: Option<(String, usize)>)
    ensures
        match r {
            Some((v, q)) => parse_string(bytes@, pos as int) == Some((v@, q as int)),
            None => parse_string(bytes@, pos as int) is None,
        },
{
    let (n, p) = match read_u64(bytes, pos) {
        Some(x) => x,
        None => {
            return None;
        },
    };
    if n > (bytes.len() - p) as u64 {
        return None;
    }
    let nn = n as usize;
    let sub = vstd::slice::slice_subrange(bytes, p, p + nn);
    match utf8_to_string(sub) {
        Some(v) => Some((v, p + nn)),
        None => None,
    }
}

/// Reads an optional mode, executably.
fn read_mode(bytes: &[u8], pos: usize) -> (r: Option<(Option<u32>, usize)>)
    ensures
        match r {
            Some((v, q)) => parse_mode(bytes@, pos as int) == Some((v, q as int)),
            None => parse_mode(bytes@, pos as int) is None,
        },
{
    if pos >= bytes.len() {
        return None;
    }
    let tag = bytes[pos];
    if tag == 0 {
        Some((None, pos + 1))
    } else if tag == 1 && bytes.len() - pos >= 5 {
        let sub = vstd::slice::slice_subrange(bytes, pos + 1, pos + 5);
        Some((Some(u32_from_le_bytes(sub)), pos + 5))
    } else {
        None
    }
}

/// Reads one file record, executably.
fn read_entry(bytes: &[u8], pos: usize) -> (r: Option<((String, CachedWheelEntry), usize)>)
    ensures
        match r {
            Some(((path, e), q)) => parse_entry(bytes@, pos as int) == Some(
                ((path@, e@), q as int),
            ),
            None => parse_entry(bytes@, pos as int) is None,
        },
{
    let (path, p1) = match read_string(bytes, pos) {
        Some(x) => x,
        None => {
            return None;
        },
    };
    let (content, p2) = match read_string(bytes, p1) {
        Some(x) => x,
        None => {
            return None;
        },
    };
    let (sha256, p3) = match read_string(bytes, p2) {
        Some(x) => x,
        None => {
            return None;
        },
    };
    let (mode, p4) = match read_mode(bytes, p3) {
        Some(x) => x,
        None => {
            return None;
        },
    };
    Some(((path, CachedWheelEntry { content, sha256, mode }), p4))
}

/// What a prefix of already-read records turns the rest of a parse into.
pub open spec fn with_prefix_files(
    acc: Seq<(Seq<char>, CachedWheelEntryView)>,
    rest: Option<(Seq<(Seq<char>, CachedWheelEntryView)>, int)>,
) -> Option<(Seq<(Seq<char>, CachedWheelEntryView)>, int)> {
    match rest {
        Some((r, q)) => Some((acc + r, q)),
        None => None,
    }
}

/// Reads `n` file records, executably.
fn read_files(bytes: &[u8], pos: usize, n: u64) -> (r: Option<
    (Vec<(String, CachedWheelEntry)>, usize),
>)
    ensures
        match r {
            Some((v, q)) => parse_files(bytes@, pos as int, n as nat) == Some(
                (crate::cache::files_view(v@), q as int),
            ),
            None => parse_files(bytes@, pos as int, n as nat) is None,
        },
{
    let mut acc: Vec<(String, CachedWheelEntry)> = Vec::new();
    let mut cur = pos;
    let mut left = n;
    proof {
        assert(crate::cache::files_view(acc@) =~= Seq::<(Seq<char>, CachedWheelEntryView)>::empty());
        assert(parse_files(bytes@, pos as int, n as nat) == with_prefix_files(
            crate::cache::files_view(acc@),
            parse_files(bytes@, cur as int, left as nat),
        )) by {
            match parse_files(bytes@, cur as int, left as nat) {
                Some((r, q)) => {
                    assert(crate::cache::files_view(acc@) + r =~= r);
                },
                None => {},
            }
        }
    }
    while left > 0
        invariant
            parse_files(bytes@, pos as int, n as nat) == with_prefix_files(
                crate::cache::files_view(acc@),
                parse_files(bytes@, cur as int, left as nat),
            ),
        decreases left,
    {
        let (kv, q) = match read_entry(bytes, cur) {
            Some(x) => x,
            None => {
                return None;
            },
        };
        let ghost old_acc = crate::cache::files_view(acc@);
        let ghost kv_view = (kv.0@, kv.1@);
        acc.push(kv);
        proof {
            assert(crate::cache::files_view(acc@) =~= old_acc.push(kv_view));
            match parse_files(bytes@, q as int, (left - 1) as nat) {
                Some((r, qq)) => {
                    assert(old_acc + (seq![kv_view] + r) =~= old_acc.push(kv_view) + r);
                },
                None => {},
            }
        }
        cur = q;
        left = left - 1;
    }
    proof {
        assert(parse_files(bytes@, cur as int, 0) == Some((Seq::<
            (Seq<char>, CachedWheelEntryView),
        >::empty(), cur as int)));
        assert(crate::cache::files_view(acc@) + Seq::<(Seq<char>, CachedWheelEntryView)>::empty()
            =~= crate::cache::files_view(acc@));
    }
    Some((acc, cur))
}

/// What a prefix of already-read paths turns the rest of a parse into.
pub open spec fn with_prefix_dirs(acc: Seq<Seq<char>>, rest: Option<(Seq<Seq<char>>, int)>) -> Option<
    (Seq<Seq<char>>, int),
> {
    match rest {
        Some((r, q)) => Some((acc + r, q)),
        None => None,
    }
}

/// Reads `n` directory paths, executably.
fn read_dirs(bytes: &[u8], pos: usize, n: u64) -> (r: Option<(Vec<String>, usize)>)
    ensures
        match r {
            Some((v, q)) => parse_dirs(bytes@, pos as int, n as nat) == Some(
                (v.deep_view(), q as int),
            ),
            None => parse_dirs(bytes@, pos as int, n as nat) is None,
        },
{
    let mut acc: Vec<String> = Vec::new();
    let mut cur = pos;
    let mut left = n;
    proof {
        assert(acc.deep_view() =~= Seq::<Seq<char>>::empty());
        assert(parse_dirs(bytes@, pos as int, n as nat) == with_prefix_dirs(
            acc.deep_view(),
            parse_dirs(bytes@, cur as int, left as nat),
        )) by {
            match parse_dirs(bytes@, cur as int, left as nat) {
                Some((r, q)) => {
                    assert(acc.deep_view() + r =~= r);
                },
                None => {},
            }
        }
    }
    while left > 0
        invariant
            parse_dirs(bytes@, pos as int, n as nat) == with_prefix_dirs(
                acc.deep_view(),
                parse_dirs(bytes@, cur as int, left as nat),
            ),
        decreases left,
    {
        let (d, q) = match read_string(bytes, cur) {
            Some(x) => x,
            None => {
                return None;
            },
        };
        let ghost old_acc = acc.deep_view();
        let ghost d_view = d@;
        acc.push(d);
        proof {
            assert(acc.deep_view() =~= old_acc.push(d_view));
            match parse_dirs(bytes@, q as int, (left - 1) as nat) {
                Some((r, qq)) => {
                    assert(old_acc + (seq![d_view] + r) =~= old_acc.push(d_view) + r);
                },
                None => {},
            }
        }
        cur = q;
        left = left - 1;
    }
    proof {
        assert(parse_dirs(bytes@, cur as int, 0) == Some((Seq::<Seq<char>>::empty(), cur as int)));
        assert(acc.deep_view() + Seq::<Seq<char>>::empty() =~= acc.deep_view());
    }
    Some((acc, cur))
}

/// Decodes a whole buffer as one manifest, executably.
fn decode_manifest(bytes: &[u8]) -> (r: Option<CachedWheel>)
    ensures
        match r {
            Some(w) => parse_manifest(bytes@) == Some(w@),
            None => parse_manifest(bytes@) is None,
        },
{
    if bytes.len() < 8 {
        return None;
    }
    let magic_ok = bytes[0] == 0x52 && bytes[1] == 0x49 && bytes[2] == 0x50 && bytes[3] == 0x4d
        && bytes[4] == 0x41 && bytes[5] == 0x4e && bytes[6] == 0x49 && bytes[7] == 0x31;
    if !magic_ok {
        proof {
            assert(bytes@.subrange(0, 8) != magic()) by {
                if bytes@.subrange(0, 8) == magic() {
                    assert(bytes@[0] == magic()[0]);
                    assert(bytes@[1] == magic()[1]);
                    assert(bytes@[2] == magic()[2]);
                    assert(bytes@[3] == magic()[3]);
                    assert(bytes@[4] == magic()[4]);
                    assert(bytes@[5] == magic()[5]);
                    assert(bytes@[6] == magic()[6]);
                    assert(bytes@[7] == magic()[7]);
                }
            }
        }
        return None;
    }
    proof {
        assert(bytes@.subrange(0, 8) =~= magic());
    }
    let (nf, p1) = match read_u64(bytes, 8) {
        Some(x) => x,
        None => {
            return None;
        },
    };
    let (files, p2) = match read_files(bytes, p1, nf) {
        Some(x) => x,
        None => {
            return None;
        },
    };
    let (nd, p3) = match read_u64(bytes, p2) {
        Some(x) => x,
        None => {
            return None;
        },
    };
    let (dirs, p4) = match read_dirs(bytes, p3, nd) {
        Some(x) => x,
        None => {
            return None;
        },
    };
    if p4 != bytes.len() {
        return None;
    }
    Some(CachedWheel { files, directories: dirs })
}

/// Deep-copies a manifest.
fn clone_manifest(m: &CachedWheel) -> (r: CachedWheel)
    ensures
        r@ == m@,
{
    let mut files: Vec<(String, CachedWheelEntry)> = Vec::new();
    let n = m.files.len();
    let mut i: usize = 0;
    while i < n
        invariant
            0 <= i <= n,
            n == m.files@.len(),
            i == files@.len(),
            forall|k: int|
                0 <= k < i ==> (#[trigger] files@[k]).0@ == m.files@[k].0@ && files@[k].1@
                    == m.files@[k].1@,
        decreases n - i,
    {
        let pair = &m.files[i];
        let entry = CachedWheelEntry {
            content: pair.1.content.clone(),
            sha256: pair.1.sha256.clone(),
            mode: pair.1.mode,
        };
        files.push((pair.0.clone(), entry));
        i = i + 1;
    }
    let mut directories: Vec<String> = Vec::new();
    let nd = m.directories.len();
    let mut j: usize = 0;
    while j < nd
        invariant
            0 <= j <= nd,
            nd == m.directories@.len(),
            j == directories@.len(),
            forall|k: int| 0 <= k < j ==> (#[trigger] directories@[k])@ == m.directories@[k]@,
        decreases nd - j,
    {
        directories.push(m.directories[j].clone());
        j = j + 1;
    }
    let r = CachedWheel { files, directories };
    proof {
        assert forall|k: int| 0 <= k < r@.files.len() implies r@.files[k] == m@.files[k] by {
            assert(r@.files[k] == (r.files@[k].0@, r.files@[k].1@));
            assert(m@.files[k] == (m.files@[k].0@, m.files@[k].1@));
        }
        assert(r@.files =~= m@.files);
        assert forall|k: int| 0 <= k < r@.directories.len() implies r@.directories[k]
            == m@.directories[k] by {
            assert(r@.directories[k] == r.directories@[k]@);
            assert(m@.directories[k] == m.directories@[k]@);
        }
        assert(r@.directories =~= m@.directories);
        assert(r@ == m@);
    }
    r
}

/// The error returned when a byte buffer is not the encoding of a manifest.
#[derive(Debug)]
pub struct CorruptedArchive {
    /// A short description of the rejection.
    pub message: String,
}

/// The error returned when a manifest cannot be read from a byte source.
#[derive(Debug)]
pub enum ReadArchiveError {
    /// The bytes were read but are not an encoded manifest.
    CorruptedArchive(CorruptedArchive),
    /// Reading the bytes failed; holds the I/O message.
    IoError(String),
}

/// An encoded manifest together with the manifest decoded from it: the bytes
/// can be handed out without re-encoding and the manifest without reparsing.
pub struct OwnedArchive {
    bytes: Vec<u8>,
    value: CachedWheel,
}

impl OwnedArchive {
    /// The owned encoded bytes.
    pub closed spec fn bytes_view(&self) -> Seq<u8> {
        self.bytes@
    }

    /// The manifest the bytes encode.
    pub closed spec fn manifest_view(&self) -> CachedWheelView {
        self.value@
    }

    /// Validates a byte buffer as the encoding of one manifest and takes
    /// ownership of it.
    pub fn new(bytes: Vec<u8>) -> (r: Result<OwnedArchive, CorruptedArchive>)
        ensures
            match r {
                Ok(a) => a.bytes_view() == bytes@ && parse_manifest(bytes@) == Some(
                    a.manifest_view(),
                ),
                Err(_) => parse_manifest(bytes@) is None,
            },
    {
        match decode_manifest(bytes.as_slice()) {
            Some(value) => Ok(OwnedArchive { bytes, value }),
            None => Err(
                CorruptedArchive { message: "buffer is not an encoded manifest".to_owned() },
            ),
        }
    }

    /// Encodes a manifest, keeping a copy of it beside the bytes.
    pub fn from_unarchived(unarchived: &CachedWheel) -> (r: OwnedArchive)
        ensures
            r.bytes_view() == serialize_model(unarchived@),
            r.manifest_view() == unarchived@,
    {
        let bytes = serialize_manifest(unarchived);
        let value = clone_manifest(unarchived);
        OwnedArchive { bytes, value }
    }

    /// Borrows the decoded manifest; constant time.
    pub fn archived(this: &OwnedArchive) -> (r: &CachedWheel)
        ensures
            r@ == this.manifest_view(),
    {
        &this.value
    }

    /// The byte representation of the archive.
    pub fn as_bytes(this: &OwnedArchive) -> (r: &[u8])
        ensures
            r@ == this.bytes_view(),
    {
        this.bytes.as_slice()
    }

    /// Copies the decoded manifest out, for callers that need to mutate it.
    pub fn deserialize(this: &OwnedArchive) -> (r: CachedWheel)
        ensures
            r@ == this.manifest_view(),
    {
        clone_manifest(&this.value)
    }
}

} // verus!
