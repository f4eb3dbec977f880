//! The on-disk layout: a 4-byte schema version, then the entry count and
//! the entries. Integers are little-endian and of fixed width. An entry is
//! the byte length of its path, the path as UTF-8, the rank's bits and the
//! time of the last visit.

use vstd::prelude::*;
use vstd::utf8::{decode_utf8, encode_utf8, encode_utf8_decode_utf8, encode_utf8_valid_utf8, valid_utf8};

use crate::dir::Dir;
use crate::error::DbError;

verus! {

/// The schema version that this library reads and writes.
pub const CURRENT_VERSION: u32 = 3;

/// Width in bytes of the version tag.
pub const VERSION_WIDTH: usize = 4;

/// The largest database, in bytes, that is decoded (8 MiB).
pub const MAX_SIZE: usize = 8388608;

/// The model of an entry: path, rank bits, time of last visit.
pub type DirModel = (Seq<char>, u64, i64);

pub open spec fn dirs_view(ds: Seq<Dir>) -> Seq<DirModel> {
    ds.map_values(|d: Dir| d@)
}

pub open spec fn u32_bytes(x: u32) -> Seq<u8> {
    seq![x as u8, (x >> 8u32) as u8, (x >> 16u32) as u8, (x >> 24u32) as u8]
}

pub open spec fn u32_of(b: Seq<u8>) -> u32 {
    (b[0] as u32) | ((b[1] as u32) << 8u32) | ((b[2] as u32) << 16u32) | ((b[3] as u32) << 24u32)
}

pub open spec fn u64_bytes(x: u64) -> Seq<u8> {
    seq![
        x as u8,
        (x >> 8u64) as u8,
        (x >> 16u64) as u8,
        (x >> 24u64) as u8,
        (x >> 32u64) as u8,
        (x >> 40u64) as u8,
        (x >> 48u64) as u8,
        (x >> 56u64) as u8,
    ]
}

pub open spec fn u64_of(b: Seq<u8>) -> u64 {
    (b[0] as u64) | ((b[1] as u64) << 8u64) | ((b[2] as u64) << 16u64) | ((b[3] as u64) << 24u64)
        | ((b[4] as u64) << 32u64) | ((b[5] as u64) << 40u64) | ((b[6] as u64) << 48u64) | ((b[7]
        as u64) << 56u64)
}

/// The bytes of one entry.
pub open spec fn entry_bytes(d: DirModel) -> Seq<u8> {
    u64_bytes(encode_utf8(d.0).len() as u64) + encode_utf8(d.0) + u64_bytes(d.1) + u64_bytes(
        d.2 as u64,
    )
}

/// The bytes of a sequence of entries, one after another.
pub open spec fn entries_bytes(ds: Seq<DirModel>) -> Seq<u8>
    decreases ds.len(),
{
    if ds.len() == 0 {
        Seq::empty()
    } else {
        entries_bytes(ds.drop_last()) + entry_bytes(ds.last())
    }
}

/// The bytes after the version tag: the count, then the entries.
pub open spec fn body_bytes(ds: Seq<DirModel>) -> Seq<u8> {
    u64_bytes(ds.len() as u64) + entries_bytes(ds)
}

/// The whole file for a version and entries.
pub open spec fn encoding(version: u32, ds: Seq<DirModel>) -> Seq<u8> {
    u32_bytes(version) + body_bytes(ds)
}

/// Reads one entry at the front of `b`: the entry and how many bytes it took.
pub open spec fn parse_entry(b: Seq<u8>) -> Option<(DirModel, int)> {
    if b.len() < 8 {
        None
    } else {
        let n = u64_of(b) as int;
        if b.len() < n + 24 || !valid_utf8(b.subrange(8, 8 + n)) {
            None
        } else {
            Some(
                (
                    (
                        decode_utf8(b.subrange(8, 8 + n)),
                        u64_of(b.subrange(8 + n, 16 + n)),
                        u64_of(b.subrange(16 + n, 24 + n)) as i64,
                    ),
                    n + 24,
                ),
            )
        }
    }
}

/// Reads exactly `count` entries that fill `b`.
pub open spec fn parse_entries(b: Seq<u8>, count: nat) -> Option<Seq<DirModel>>
    decreases count,
{
    if count == 0 {
        if b.len() == 0 {
            Some(Seq::empty())
        } else {
            None
        }
    } else {
        match parse_entry(b) {
            Some((d, k)) => match parse_entries(b.skip(k), (count - 1) as nat) {
                Some(rest) => Some(seq![d] + rest),
                None => None,
            },
            None => None,
        }
    }
}

/// Reads the bytes after the version tag.
pub open spec fn parse_body(b: Seq<u8>) -> Option<Seq<DirModel>> {
    if b.len() < 8 {
        None
    } else {
        parse_entries(b.skip(8), u64_of(b) as nat)
    }
}

/// What decoding a whole file gives.
pub open spec fn decode_spec(b: Seq<u8>) -> Result<Seq<DirModel>, DbError> {
    if b.len() == 0 {
        Ok(Seq::empty())
    } else if b.len() < VERSION_WIDTH {
        Err(DbError::DatabaseCorrupted)
    } else if u32_of(b) != CURRENT_VERSION {
        Err(DbError::UnsupportedSchema { version: u32_of(b) })
    } else if b.len() > MAX_SIZE {
        Err(DbError::DatabaseCorrupted)
    } else {
        match parse_body(b.skip(4)) {
            Some(ds) => Ok(ds),
            None => Err(DbError::DatabaseCorrupted),
        }
    }
}

pub open spec fn result_view(r: Result<Vec<Dir>, DbError>) -> Result<Seq<DirModel>, DbError> {
    match r {
        Ok(v) => Ok(dirs_view(v@)),
        Err(e) => Err(e),
    }
}

pub proof fn lemma_u32_round_trip(x: u32)
    ensures
        u32_of(u32_bytes(x)) == x,
{
    assert(((x as u8) as u32) | ((((x >> 8u32) as u8) as u32) << 8u32) | ((((x >> 16u32) as u8)
        as u32) << 16u32) | ((((x >> 24u32) as u8) as u32) << 24u32) == x) by (bit_vector);
}

pub proof fn lemma_u64_round_trip(x: u64)
    ensures
        u64_of(u64_bytes(x)) == x,
{
    assert(((x as u8) as u64) | ((((x >> 8u64) as u8) as u64) << 8u64) | ((((x >> 16u64) as u8)
        as u64) << 16u64) | ((((x >> 24u64) as u8) as u64) << 24u64) | ((((x >> 32u64) as u8)
        as u64) << 32u64) | ((((x >> 40u64) as u8) as u64) << 40u64) | ((((x >> 48u64) as u8)
        as u64) << 48u64) | ((((x >> 56u64) as u8) as u64) << 56u64) == x) by (bit_vector);
}

fn push_u32(out: &mut Vec<u8>, x: u32)
    ensures
        final(out)@ == old(out)@ + u32_bytes(x),
{
    out.push(x as u8);
    out.push((x >> 8u32) as u8);
    out.push((x >> 16u32) as u8);
    out.push((x >> 24u32) as u8);
    assert(final(out)@ =~= old(out)@ + u32_bytes(x));
}

fn push_u64(out: &mut Vec<u8>, x: u64)
    ensures
        final(out)@ == old(out)@ + u64_bytes(x),
{
    out.push(x as u8);
    out.push((x >> 8u64) as u8);
    out.push((x >> 16u64) as u8);
    out.push((x >> 24u64) as u8);
    out.push((x >> 32u64) as u8);
    out.push((x >> 40u64) as u8);
    out.push((x >> 48u64) as u8);
    out.push((x >> 56u64) as u8);
    assert(final(out)@ =~= old(out)@ + u64_bytes(x));
}

fn read_u32(b: &[u8]) -> (r: u32)
    requires
        b@.len() >= 4,
    ensures
        r == u32_of(b@),
{
    (b[0] as u32) | ((b[1] as u32) << 8u32) | ((b[2] as u32) << 16u32) | ((b[3] as u32) << 24u32)
}

fn read_u64(b: &[u8], at: usize) -> (r: u64)
    requires
        at + 8 <= b@.len(),
    ensures
        r == u64_of(b@.skip(at as int)),
{
    (b[at] as u64) | ((b[at + 1] as u64) << 8u64) | ((b[at + 2] as u64) << 16u64) | ((b[at + 3]
        as u64) << 24u64) | ((b[at + 4] as u64) << 32u64) | ((b[at + 5] as u64) << 40u64) | ((b[at
        + 6] as u64) << 48u64) | ((b[at + 7] as u64) << 56u64)
}

/// Relies on `String::from_utf8`: it succeeds exactly on valid UTF-8, and the
/// string then holds exactly those bytes.
#[verifier::external_body]
fn string_from_utf8(b: Vec<u8>) -> (r: Option<String>)
    ensures
        r is Some <==> valid_utf8(b@),
        r matches Some(s) ==> encode_utf8(s@) == b@,
{
    String::from_utf8(b).ok()
}

/// The bytes of a prefix of entries end where those of the next begin.
proof fn lemma_entries_take(ds: Seq<DirModel>, i: int)
    requires
        0 <= i < ds.len(),
    ensures
        entries_bytes(ds.take(i + 1)) == entries_bytes(ds.take(i)) + entry_bytes(ds[i]),
{
    assert(ds.take(i + 1).drop_last() =~= ds.take(i));
}

/// Each entry takes at least 24 bytes.
proof fn lemma_entries_len(ds: Seq<DirModel>)
    ensures
        entries_bytes(ds).len() >= 24 * ds.len(),
    decreases ds.len(),
{
    if ds.len() > 0 {
        lemma_entries_len(ds.drop_last());
    }
}

/// A longer prefix of entries never takes fewer bytes.
proof fn lemma_entries_take_mono(ds: Seq<DirModel>, i: int, j: int)
    requires
        0 <= i <= j <= ds.len(),
    ensures
        entries_bytes(ds.take(i)).len() <= entries_bytes(ds.take(j)).len(),
    decreases j - i,
{
    if i < j {
        lemma_entries_take(ds, j - 1);
        lemma_entries_take_mono(ds, i, j - 1);
    }
}

/// The entries' bytes, read from the front: the first entry, then the rest.
proof fn lemma_entries_front(ds: Seq<DirModel>)
    requires
        ds.len() > 0,
    ensures
        entries_bytes(ds) == entry_bytes(ds[0]) + entries_bytes(ds.drop_first()),
    decreases ds.len(),
{
    if ds.len() == 1 {
        assert(ds.drop_last() =~= Seq::<DirModel>::empty());
        assert(ds.drop_first() =~= Seq::<DirModel>::empty());
        assert(entries_bytes(ds) =~= entry_bytes(ds[0]) + entries_bytes(ds.drop_first()));
    } else {
        lemma_entries_front(ds.drop_last());
        assert(ds.drop_last().drop_first() =~= ds.drop_first().drop_last());
        assert(ds.drop_first().last() == ds.last());
        assert(entries_bytes(ds) =~= entry_bytes(ds[0]) + entries_bytes(ds.drop_first()));
    }
}

proof fn lemma_i64_cast(x: i64)
    ensures
        (x as u64) as i64 == x,
{
    assert((x as u64) as i64 == x) by (bit_vector);
}

/// An entry's bytes read back as the entry, whatever follows them.
proof fn lemma_parse_entry(d: DirModel, rest: Seq<u8>)
    requires
        encode_utf8(d.0).len() <= u64::MAX,
    ensures
        parse_entry(entry_bytes(d) + rest) == Some((d, entry_bytes(d).len() as int)),
{
    let p = encode_utf8(d.0);
    let n = p.len() as int;
    let b = entry_bytes(d) + rest;
    lemma_u64_round_trip(p.len() as u64);
    lemma_u64_round_trip(d.1);
    lemma_u64_round_trip(d.2 as u64);
    lemma_i64_cast(d.2);
    encode_utf8_valid_utf8(d.0);
    encode_utf8_decode_utf8(d.0);
    assert(b.subrange(0, 8) =~= u64_bytes(p.len() as u64));
    assert(u64_of(b) == u64_of(b.subrange(0, 8)));
    assert(b.subrange(8, 8 + n) =~= p);
    assert(b.subrange(8 + n, 16 + n) =~= u64_bytes(d.1));
    assert(b.subrange(16 + n, 24 + n) =~= u64_bytes(d.2 as u64));
}

/// The bytes of entries read back as those entries.
proof fn lemma_parse_entries(ds: Seq<DirModel>)
    requires
        entries_bytes(ds).len() <= u64::MAX,
    ensures
        parse_entries(entries_bytes(ds), ds.len()) == Some(ds),
    decreases ds.len(),
{
    if ds.len() == 0 {
    } else {
        lemma_entries_front(ds);
        let tail = ds.drop_first();
        let b = entries_bytes(ds);
        lemma_parse_entry(ds[0], entries_bytes(tail));
        let k = entry_bytes(ds[0]).len() as int;
        assert(b.skip(k) =~= entries_bytes(tail));
        lemma_parse_entries(tail);
        assert(seq![ds[0]] + tail =~= ds);
    }
}

/// Decoding what was encoded with the current version gives the same
/// entries back, for every sequence of entries whose encoding stays within
/// the size ceiling.
pub proof fn lemma_round_trip(ds: Seq<DirModel>)
    requires
        encoding(CURRENT_VERSION, ds).len() <= MAX_SIZE,
    ensures
        decode_spec(encoding(CURRENT_VERSION, ds)) == Ok::<Seq<DirModel>, DbError>(ds),
{
    let b = encoding(CURRENT_VERSION, ds);
    let body = body_bytes(ds);
    lemma_entries_len(ds);
    lemma_u32_round_trip(CURRENT_VERSION);
    lemma_u64_round_trip(ds.len() as u64);
    assert(b.subrange(0, 4) =~= u32_bytes(CURRENT_VERSION));
    assert(u32_of(b) == u32_of(b.subrange(0, 4)));
    assert(b.skip(4) =~= body);
    assert(body.subrange(0, 8) =~= u64_bytes(ds.len() as u64));
    assert(u64_of(body) == u64_of(body.subrange(0, 8)));
    assert(body.skip(8) =~= entries_bytes(ds));
    lemma_parse_entries(ds);
}

/// A buffer whose version tag is not the current one is refused as an
/// unsupported schema carrying the tag read, whatever bytes follow it.
pub proof fn lemma_version_rejected(b: Seq<u8>)
    requires
        b.len() >= VERSION_WIDTH,
        u32_of(b) != CURRENT_VERSION,
    ensures
        decode_spec(b) == Err::<Seq<DirModel>, DbError>(DbError::UnsupportedSchema { version: u32_of(b) }),
{
}

/// A buffer with the current version that is larger than the size ceiling
/// is corrupted, however well formed the rest of it is.
pub proof fn lemma_oversized_rejected(b: Seq<u8>)
    requires
        b.len() > MAX_SIZE,
        u32_of(b) == CURRENT_VERSION,
    ensures
        decode_spec(b) == Err::<Seq<DirModel>, DbError>(DbError::DatabaseCorrupted),
{
}

/// A non-empty buffer shorter than the version tag is corrupted; an empty
/// buffer decodes to no entries.
pub proof fn lemma_short_buffers(b: Seq<u8>)
    requires
        b.len() < VERSION_WIDTH,
    ensures
        b.len() == 0 ==> decode_spec(b) == Ok::<Seq<DirModel>, DbError>(Seq::empty()),
        b.len() > 0 ==> decode_spec(b) == Err::<Seq<DirModel>, DbError>(DbError::DatabaseCorrupted),
{
}

fn push_entry(out: &mut Vec<u8>, d: &Dir)
    ensures
        final(out)@ == old(out)@ + entry_bytes(d@),
{
    let bytes = d.path.as_str().as_bytes();
    push_u64(out, bytes.len() as u64);
    let ghost start = out@;
    let mut k: usize = 0;
    while k < bytes.len()
        invariant
            k <= bytes@.len(),
            out@ == start + bytes@.take(k as int),
        decreases bytes@.len() - k,
    {
        out.push(bytes[k]);
        k = k + 1;
        assert(out@ =~= start + bytes@.take(k as int));
    }
    assert(bytes@.take(k as int) =~= bytes@);
    push_u64(out, d.rank_bits);
    push_u64(out, d.last_accessed as u64);
    assert(final(out)@ =~= old(out)@ + entry_bytes(d@));
}

/// The size of the encoding of entries, or `None` where it exceeds `usize`.
pub fn encoded_size(dirs: &Vec<Dir>) -> (r: Option<usize>)
    ensures
        match r {
            Some(n) => n == encoding(CURRENT_VERSION, dirs_view(dirs@)).len(),
            None => encoding(CURRENT_VERSION, dirs_view(dirs@)).len() > usize::MAX,
        },
{
    let ghost ds = dirs_view(dirs@);
    let mut total: usize = 12;
    let mut i: usize = 0;
    while i < dirs.len()
        invariant
            i <= dirs@.len(),
            ds == dirs_view(dirs@),
            total == 12 + entries_bytes(ds.take(i as int)).len(),
        decreases dirs@.len() - i,
    {
        let n = dirs[i].path.as_str().as_bytes().len();
        proof {
            lemma_entries_take(ds, i as int);
            assert(ds[i as int] == dirs@[i as int]@);
            assert(n == encode_utf8(dirs@[i as int].path@).len());
            assert(entry_bytes(ds[i as int]).len() == 24 + n);
        }
        if total > usize::MAX - 24 || total + 24 > usize::MAX - n {
            proof {
                lemma_entries_take_mono(ds, i + 1, ds.len() as int);
                assert(ds.take(ds.len() as int) =~= ds);
            }
            return None;
        }
        total = total + 24 + n;
        i = i + 1;
    }
    assert(ds.take(i as int) =~= ds);
    Some(total)
}

/// The bytes of a version tag followed by entries; fails only where their
/// size does not fit in `usize`. The buffer is sized once, before writing.
pub fn encode(version: u32, dirs: &Vec<Dir>) -> (r: Result<Vec<u8>, DbError>)
    ensures
        match r {
            Ok(b) => b@ == encoding(version, dirs_view(dirs@)),
            Err(e) => e == DbError::SerializationFailure && encoding(version, dirs_view(
                dirs@,
            )).len() > usize::MAX,
        },
{
    let size = match encoded_size(dirs) {
        Some(n) => n,
        None => return Err(DbError::SerializationFailure),
    };
    let ghost ds = dirs_view(dirs@);
    let mut out: Vec<u8> = Vec::with_capacity(size);
    push_u32(&mut out, version);
    push_u64(&mut out, dirs.len() as u64);
    let mut i: usize = 0;
    while i < dirs.len()
        invariant
            i <= dirs@.len(),
            ds == dirs_view(dirs@),
            out@ == u32_bytes(version) + u64_bytes(dirs@.len() as u64) + entries_bytes(
                ds.take(i as int),
            ),
        decreases dirs@.len() - i,
    {
        push_entry(&mut out, &dirs[i]);
        proof {
            lemma_entries_take(ds, i as int);
        }
        i = i + 1;
        assert(out@ =~= u32_bytes(version) + u64_bytes(dirs@.len() as u64) + entries_bytes(
            ds.take(i as int),
        ));
    }
    assert(ds.take(i as int) =~= ds);
    assert(out@ =~= encoding(version, ds));
    Ok(out)
}

/// `prefix` placed before what `rest` holds, if anything.
pub open spec fn prepend(prefix: Seq<DirModel>, rest: Option<Seq<DirModel>>) -> Option<
    Seq<DirModel>,
> {
    match rest {
        Some(r) => Some(prefix + r),
        None => None,
    }
}

/// Reads the entry that starts at `at`, and the number of bytes it takes.
fn decode_entry(b: &[u8], at: usize) -> (r: Option<(Dir, usize)>)
    requires
        at <= b@.len(),
    ensures
        match r {
            Some((d, k)) => parse_entry(b@.skip(at as int)) == Some((d@, k as int)),
            None => parse_entry(b@.skip(at as int)) is None,
        },
{
    let ghost s = b@.skip(at as int);
    let rem = b.len() - at;
    if rem < 8 {
        return None;
    }
    let n64 = read_u64(b, at);
    if n64 > (rem - 8) as u64 || (rem - 8) - (n64 as usize) < 16 {
        return None;
    }
    let n = n64 as usize;
    let start = at + 8;
    let mut v: Vec<u8> = Vec::with_capacity(n);
    let blen = b.len();
    let mut k: usize = 0;
    while k < n
        invariant
            k <= n,
            blen == b@.len(),
            start + n <= b@.len(),
            v@ == b@.subrange(start as int, start + k),
        decreases n - k,
    {
        v.push(b[start + k]);
        k = k + 1;
        assert(v@ =~= b@.subrange(start as int, start + k));
    }
    assert(v@ =~= s.subrange(8, 8 + n));
    let path = match string_from_utf8(v) {
        Some(p) => p,
        None => return None,
    };
    proof {
        encode_utf8_decode_utf8(path@);
    }
    let rank_bits = read_u64(b, start + n);
    let last = read_u64(b, start + n + 8);
    assert(u64_of(b@.skip(start + n)) == u64_of(s.subrange(8 + n, 16 + n)));
    assert(u64_of(b@.skip(start + n + 8)) == u64_of(s.subrange(16 + n, 24 + n)));
    Some((Dir { path, rank_bits, last_accessed: #[verifier::truncate] (last as i64) }, n + 24))
}

/// Decodes a whole database file. An empty buffer holds no entries. A
/// buffer shorter than the version tag is corrupted; one with another
/// version is refused with that version, whatever follows. A buffer larger
/// than the size ceiling is corrupted. Then the count and exactly that many
/// entries must fill the rest.
pub fn decode(bytes: &[u8]) -> (r: Result<Vec<Dir>, DbError>)
    ensures
        result_view(r) == decode_spec(bytes@),
        bytes@.len() > MAX_SIZE && u32_of(bytes@) == CURRENT_VERSION ==> r matches Err(
            DbError::DatabaseCorrupted,
        ),
{
    if bytes.len() == 0 {
        let out: Vec<Dir> = Vec::new();
        assert(dirs_view(out@) =~= Seq::<DirModel>::empty());
        return Ok(out);
    }
    if bytes.len() < VERSION_WIDTH {
        return Err(DbError::DatabaseCorrupted);
    }
    let version = read_u32(bytes);
    if version != CURRENT_VERSION {
        return Err(DbError::UnsupportedSchema { version });
    }
    if bytes.len() > MAX_SIZE || bytes.len() < VERSION_WIDTH + 8 {
        return Err(DbError::DatabaseCorrupted);
    }
    let count = read_u64(bytes, 4);
    let ghost body = bytes@.skip(4);
    assert(body.skip(8) =~= bytes@.skip(12));
    let mut out: Vec<Dir> = Vec::new();
    let mut pos: usize = 12;
    let mut i: u64 = 0;
    assert(dirs_view(out@) + parse_entries(bytes@.skip(12), count as nat)->0 =~= parse_entries(bytes@.skip(12), count as nat)->0);
    while i < count
        invariant
            i <= count,
            12 <= pos <= bytes@.len(),
            body == bytes@.skip(4),
            u32_of(bytes@) == CURRENT_VERSION,
            count == u64_of(body),
            bytes@.len() <= MAX_SIZE,
            parse_body(body) == prepend(
                dirs_view(out@),
                parse_entries(bytes@.skip(pos as int), (count - i) as nat),
            ),
        decreases count - i,
    {
        let ghost rest = bytes@.skip(pos as int);
        match decode_entry(bytes, pos) {
            Some((d, k)) => {
                let ghost dv = d@;
                assert(rest.skip(k as int) =~= bytes@.skip(pos + k));
                let ghost old_out = dirs_view(out@);
                out.push(d);
                assert(dirs_view(out@) =~= old_out + seq![dv]);
                assert(prepend(old_out, prepend(seq![dv], parse_entries(bytes@.skip(pos + k), (count - i - 1) as nat)))
                    == prepend(dirs_view(out@), parse_entries(bytes@.skip(pos + k), (count - i - 1) as nat))) by {
                    match parse_entries(bytes@.skip(pos + k), (count - i - 1) as nat) {
                        Some(x) => {
                            assert(old_out + (seq![dv] + x) =~= (old_out + seq![dv]) + x);
                        },
                        None => {},
                    }
                }
                pos = pos + k;
            },
            None => {
                assert(parse_entries(rest, (count - i) as nat) is None);
                return Err(DbError::DatabaseCorrupted);
            },
        }
        i = i + 1;
    }
    if pos != bytes.len() {
        return Err(DbError::DatabaseCorrupted);
    }
    assert(dirs_view(out@) + Seq::<DirModel>::empty() =~= dirs_view(out@));
    Ok(out)
}

} // verus!
