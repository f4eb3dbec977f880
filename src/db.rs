//! The store: entries, the dirty flag and the data directory. Reading and
//! writing files is left to the caller: `open` takes the file's bytes, `save`
//! hands back what to write and under which names, and `finish_save` takes
//! the outcome of the writes.

use vstd::prelude::*;
use vstd::string::StringExecFns;

use crate::codec::{decode, decode_spec, dirs_view, encode, encoding, result_view, u32_of, CURRENT_VERSION, MAX_SIZE};
use crate::dir::{is_directory, order_key, score_spec, Dir, SIGN_BIT};
use crate::error::DbError;
use crate::matcher::{lower_of, lowercase, path_matches, views_of};

verus! {

broadcast use vstd::seq_lib::group_to_multiset_ensures;

/// The database, as held in memory.
pub struct Db {
    pub dirs: Vec<Dir>,
    /// The entries changed since they were last written.
    pub modified: bool,
    /// The directory that holds the database file.
    pub data_dir: String,
}

/// What a save must write: `bytes` into a new file named `tmp_name` in the
/// data directory, which is then renamed onto the database file.
pub struct SavePlan {
    pub bytes: Vec<u8>,
    pub tmp_name: String,
}

/// How the writes of a save ended.
pub enum WriteOutcome {
    /// The temporary file was written and renamed onto the database file.
    Committed,
    /// Writing or renaming failed with `error`; removing the temporary file
    /// afterwards failed with `cleanup_error`, if it is there.
    Failed { error: DbError, cleanup_error: Option<DbError> },
}

/// The name of the database file in the data directory.
pub open spec fn db_file_name_spec() -> Seq<char> {
    seq!['d', 'b', '.', 'z', 'o']
}

/// A character of the text form of a UUID.
pub open spec fn is_id_char(c: char) -> bool {
    ('0' <= c <= '9') || ('a' <= c <= 'f') || c == '-'
}

/// A temporary name: `db-`, a 36-character identifier, then `.zo.tmp`.
pub open spec fn is_tmp_name(s: Seq<char>) -> bool {
    exists|id: Seq<char>|
        id.len() == 36 && (forall|i: int| 0 <= i < 36 ==> is_id_char(#[trigger] id[i])) && s
            == seq!['d', 'b', '-'] + id + seq!['.', 'z', 'o', '.', 't', 'm', 'p']
}

/// A temporary name is a plain file name, so the file is made in the data
/// directory beside the database file, and it is never the database file's
/// own name.
pub proof fn lemma_tmp_name_beside_database(s: Seq<char>)
    requires
        is_tmp_name(s),
    ensures
        s != db_file_name_spec(),
        !s.contains('/'),
{
    let id = choose|id: Seq<char>|
        id.len() == 36 && (forall|i: int| 0 <= i < 36 ==> is_id_char(#[trigger] id[i])) && s
            == seq!['d', 'b', '-'] + id + seq!['.', 'z', 'o', '.', 't', 'm', 'p'];
    assert(s.len() == 46);
    assert forall|i: int| 0 <= i < s.len() implies s[i] != '/' by {
        if 3 <= i < 39 {
            assert(s[i] == id[i - 3]);
            assert(is_id_char(id[i - 3]));
        }
    }
}

/// Every reported position holds an entry that matches, has a valid rank
/// and is on disk: an entry whose directory is gone is never reported,
/// however high its score.
pub proof fn lemma_selection_on_disk(
    ds: Seq<Dir>,
    kws: Seq<Seq<char>>,
    on_disk: Seq<bool>,
    n: int,
)
    requires
        0 <= n <= ds.len() <= usize::MAX,
        on_disk.len() == ds.len(),
    ensures
        forall|k: int|
            0 <= k < selection(ds, kws, on_disk, n).len() ==> {
                let i = #[trigger] selection(ds, kws, on_disk, n)[k] as int;
                0 <= i < n && wanted(ds[i], kws, on_disk[i]) && on_disk[i]
            },
        forall|i: int|
            0 <= i < n && !on_disk[i] ==> !selection(ds, kws, on_disk, n).contains(i as usize),
    decreases n,
{
    let sel = selection(ds, kws, on_disk, n);
    if n > 0 {
        lemma_selection_on_disk(ds, kws, on_disk, n - 1);
        let prev = selection(ds, kws, on_disk, n - 1);
        assert forall|k: int| 0 <= k < sel.len() implies 0 <= (sel[k] as int) && (sel[k] as int)
            < n && wanted(ds[sel[k] as int], kws, on_disk[sel[k] as int]) by {
            if k < prev.len() {
                assert(sel[k] == prev[k]);
            } else {
                assert(sel[k] == (n - 1) as usize);
            }
        }
    }
    assert forall|i: int| 0 <= i < n && !on_disk[i] implies !sel.contains(i as usize) by {
        if sel.contains(i as usize) {
            let k = choose|k: int| 0 <= k < sel.len() && sel[k] == i as usize;
            assert(sel[k] as int == i);
            assert(on_disk[sel[k] as int]);
        }
    }
}

/// Where an entry stands in the ranking at `now`: its score in the total
/// order of `f64` values.
pub open spec fn sort_key(d: Dir, now: i64) -> u64 {
    order_key(score_spec(d.rank_bits, d.last_accessed, now))
}

/// Entries in order of descending score.
pub open spec fn sorted_by_score(ds: Seq<Dir>, now: i64) -> bool {
    forall|i: int, j: int| 0 <= i < j < ds.len() ==> sort_key(ds[i], now) >= sort_key(ds[j], now)
}

/// An entry is reported when it matches, has a valid rank and is on disk.
pub open spec fn wanted(d: Dir, kws: Seq<Seq<char>>, on_disk: bool) -> bool {
    path_matches(d.path@, kws) && crate::dir::rank_is_valid(d.rank_bits) && on_disk
}

/// The positions among the first `n` entries that are reported, in order.
pub open spec fn selection(ds: Seq<Dir>, kws: Seq<Seq<char>>, on_disk: Seq<bool>, n: int) -> Seq<usize>
    decreases n,
{
    if n <= 0 {
        Seq::empty()
    } else if wanted(ds[n - 1], kws, on_disk[n - 1]) {
        selection(ds, kws, on_disk, n - 1).push((n - 1) as usize)
    } else {
        selection(ds, kws, on_disk, n - 1)
    }
}

/// Keywords in lower case.
pub open spec fn lowered(kws: Seq<Seq<char>>) -> Seq<Seq<char>> {
    kws.map_values(|k: Seq<char>| lower_of(k))
}

/// Relies on `uuid::Uuid::new_v4` and the hyphenated text form of a UUID:
/// 36 characters, each a lower-case hex digit or a hyphen. The value is
/// random, so nothing more is promised.
#[verifier::external_body]
fn random_id() -> (r: String)
    ensures
        r@.len() == 36,
        forall|i: int| 0 <= i < 36 ==> is_id_char(#[trigger] r@[i]),
{
    uuid::Uuid::new_v4().to_string()
}

/// The name of the database file in the data directory.
pub fn db_file_name() -> (r: String)
    ensures
        r@ == db_file_name_spec(),
{
    proof {
        reveal_strlit("db.zo");
    }
    String::from_str("db.zo")
}

/// A temporary file name built around the identifier `id`.
pub fn tmp_file_name(id: &str) -> (r: String)
    ensures
        r@ == seq!['d', 'b', '-'] + id@ + seq!['.', 'z', 'o', '.', 't', 'm', 'p'],
{
    proof {
        reveal_strlit("db-");
        reveal_strlit(".zo.tmp");
    }
    let mut name = String::from_str("db-");
    name.append(id);
    name.append(".zo.tmp");
    name
}

/// A fresh, randomly named temporary file name.
pub fn new_tmp_file_name() -> (r: String)
    ensures
        is_tmp_name(r@),
{
    let id = random_id();
    let r = tmp_file_name(id.as_str());
    assert(r@ == seq!['d', 'b', '-'] + id@ + seq!['.', 'z', 'o', '.', 't', 'm', 'p']);
    assert(forall|i: int| 0 <= i < 36 ==> is_id_char(#[trigger] id@[i]));
    r
}

/// The error that a failed save reports: the cleanup's failure where there is
/// one, else the failure of the write or the rename.
pub fn save_error(error: DbError, cleanup_error: Option<DbError>) -> (r: DbError)
    ensures
        r == (match cleanup_error {
            Some(c) => c,
            None => error,
        }),
{
    match cleanup_error {
        Some(c) => c,
        None => error,
    }
}

/// The positions of the entries to report, given for each entry whether it
/// is on disk, in the order of the entries.
pub fn select_matches(dirs: &Vec<Dir>, keywords: &[String], on_disk: &Vec<bool>) -> (r: Vec<usize>)
    requires
        on_disk@.len() == dirs@.len(),
    ensures
        r@ == selection(dirs@, views_of(keywords@), on_disk@, dirs@.len() as int),
{
    let mut out: Vec<usize> = Vec::new();
    let mut i: usize = 0;
    while i < dirs.len()
        invariant
            i <= dirs@.len(),
            on_disk@.len() == dirs@.len(),
            out@ == selection(dirs@, views_of(keywords@), on_disk@, i as int),
        decreases dirs@.len() - i,
    {
        let d = &dirs[i];
        if d.is_match(keywords) && d.is_valid_given(on_disk[i]) {
            out.push(i);
        }
        i = i + 1;
    }
    out
}

/// The sort key of an entry at `now`.
fn key_of(d: &Dir, now: i64) -> (r: u64)
    ensures
        r == sort_key(*d, now),
{
    let s = d.get_score(now);
    if s >= SIGN_BIT {
        u64::MAX - s
    } else {
        s + SIGN_BIT
    }
}

/// Lower-case copies of the keywords.
fn lower_keywords(keywords: &[String]) -> (r: Vec<String>)
    ensures
        views_of(r@) == lowered(views_of(keywords@)),
{
    let mut out: Vec<String> = Vec::new();
    let mut i: usize = 0;
    while i < keywords.len()
        invariant
            i <= keywords@.len(),
            out@.len() == i,
            forall|k: int| 0 <= k < i ==> #[trigger] out@[k]@ == lower_of(keywords@[k]@),
        decreases keywords@.len() - i,
    {
        out.push(lowercase(keywords[i].as_str()));
        i = i + 1;
    }
    assert(views_of(out@) =~= lowered(views_of(keywords@)));
    out
}

impl Db {
    /// An empty store over `data_dir`.
    pub fn empty(data_dir: String) -> (r: Db)
        ensures
            r.dirs@.len() == 0,
            !r.modified,
            r.data_dir@ == data_dir@,
    {
        Db { dirs: Vec::new(), modified: false, data_dir }
    }

    /// Opens the store from what the database file holds: `None` where there
    /// is no such file, which gives an empty store, as an empty file does.
    pub fn open(data_dir: String, contents: Option<&[u8]>) -> (r: Result<Db, DbError>)
        ensures
            contents is None ==> (r matches Ok(db) && db.dirs@.len() == 0),
            contents matches Some(b) ==> (b@.len() > MAX_SIZE && u32_of(b@) == CURRENT_VERSION
                ==> r is Err),
            contents matches Some(b) ==> match (r, decode_spec(b@)) {
                (Ok(db), Ok(ds)) => dirs_view(db.dirs@) == ds,
                (Err(e), Err(f)) => e == f,
                _ => false,
            },
            r matches Ok(db) ==> !db.modified && db.data_dir@ == data_dir@,
    {
        match contents {
            None => Ok(Db::empty(data_dir)),
            Some(b) => {
                let decoded = decode(b);
                match decoded {
                    Ok(dirs) => Ok(Db { dirs, modified: false, data_dir }),
                    Err(e) => Err(e),
                }
            },
        }
    }

    /// What to write to persist the entries: nothing where they have not
    /// changed; else their encoding under the current version, to be written
    /// to a fresh temporary file and renamed onto the database file. The store
    /// stays as it is until `finish_save`.
    pub fn save(&self) -> (r: Result<Option<SavePlan>, DbError>)
        ensures
            !self.modified ==> r matches Ok(None),
            self.modified ==> match r {
                Ok(Some(p)) => p.bytes@ == encoding(CURRENT_VERSION, dirs_view(self.dirs@))
                    && is_tmp_name(p.tmp_name@),
                Ok(None) => false,
                Err(e) => e == DbError::SerializationFailure && encoding(
                    CURRENT_VERSION,
                    dirs_view(self.dirs@),
                ).len() > usize::MAX,
            },
    {
        if !self.modified {
            return Ok(None);
        }
        match encode(CURRENT_VERSION, &self.dirs) {
            Ok(bytes) => Ok(Some(SavePlan { bytes, tmp_name: new_tmp_file_name() })),
            Err(e) => Err(e),
        }
    }

    /// Puts the entries in order of descending score at `now`; the order of
    /// entries with equal scores is not fixed.
    pub fn sort_by_score(&mut self, now: i64)
        ensures
            final(self).dirs@.to_multiset() == old(self).dirs@.to_multiset(),
            sorted_by_score(final(self).dirs@, now),
            final(self).modified == old(self).modified,
            final(self).data_dir == old(self).data_dir,
    {
        let mut rest: Vec<Dir> = Vec::new();
        std::mem::swap(&mut rest, &mut self.dirs);
        let ghost all = rest@;
        let mut out: Vec<Dir> = Vec::new();
        assert(out@.to_multiset().add(rest@.to_multiset()) =~= all.to_multiset());
        while rest.len() > 0
            invariant
                out@.to_multiset().add(rest@.to_multiset()) == all.to_multiset(),
                sorted_by_score(out@, now),
                forall|i: int, j: int|
                    0 <= i < out@.len() && 0 <= j < rest@.len() ==> sort_key(out@[i], now)
                        >= sort_key(rest@[j], now),
            decreases rest@.len(),
        {
            let mut best: usize = 0;
            let mut best_key = key_of(&rest[0], now);
            let mut j: usize = 1;
            while j < rest.len()
                invariant
                    1 <= j <= rest@.len(),
                    best < rest@.len(),
                    best_key == sort_key(rest@[best as int], now),
                    forall|k: int| 0 <= k < j ==> sort_key(rest@[k], now) <= best_key,
                decreases rest@.len() - j,
            {
                let k = key_of(&rest[j], now);
                if k > best_key {
                    best = j;
                    best_key = k;
                }
                j = j + 1;
            }
            let ghost before = rest@;
            let d = rest.remove(best);
            assert(before.remove(best as int).to_multiset() =~= before.to_multiset().remove(d));
            let ghost old_out = out@;
            out.push(d);
            assert(out@.to_multiset() =~= old_out.to_multiset().insert(d));
            assert(before.to_multiset().count(d) > 0) by {
                assert(before.contains(d)) by {
                    assert(before[best as int] == d);
                }
            }
            assert(out@.to_multiset().add(rest@.to_multiset()) =~= all.to_multiset());
        }
        assert(rest@.to_multiset() =~= vstd::multiset::Multiset::empty()) by {
            assert(rest@ =~= Seq::<Dir>::empty());
        }
        assert(out@.to_multiset() =~= all.to_multiset());
        self.dirs = out;
    }

    /// The ranking query: sorts the entries by descending score at `now`,
    /// then gives, in that order, the positions of the entries that match the
    /// keywords taken in lower case and are valid, with each entry's presence
    /// on disk checked now.
    pub fn matches(&mut self, now: i64, keywords: &[String]) -> (r: Vec<usize>)
        ensures
            final(self).dirs@.to_multiset() == old(self).dirs@.to_multiset(),
            sorted_by_score(final(self).dirs@, now),
            final(self).modified == old(self).modified,
            final(self).data_dir == old(self).data_dir,
            exists|on_disk: Seq<bool>|
                on_disk.len() == final(self).dirs@.len() && r@ == selection(
                    final(self).dirs@,
                    lowered(views_of(keywords@)),
                    on_disk,
                    final(self).dirs@.len() as int,
                ),
    {
        self.sort_by_score(now);
        let kws = lower_keywords(keywords);
        let mut on_disk: Vec<bool> = Vec::new();
        let mut i: usize = 0;
        while i < self.dirs.len()
            invariant
                i <= self.dirs@.len(),
                on_disk@.len() == i,
            decreases self.dirs@.len() - i,
        {
            let d = &self.dirs[i];
            let present = if d.rank_valid() && d.is_match(kws.as_slice()) {
                is_directory(d.path.as_str())
            } else {
                false
            };
            on_disk.push(present);
            i = i + 1;
        }
        let r = select_matches(&self.dirs, kws.as_slice(), &on_disk);
        assert(on_disk@.len() == self.dirs@.len() && r@ == selection(self.dirs@, lowered(views_of(keywords@)), on_disk@, self.dirs@.len() as int));
        r
    }

    /// Takes the outcome of a save's writes. Once they are committed the
    /// store is clean, so that a second save writes nothing.
    pub fn finish_save(&mut self, outcome: WriteOutcome) -> (r: Result<(), DbError>)
        ensures
            final(self).dirs == old(self).dirs,
            final(self).data_dir@ == old(self).data_dir@,
            match outcome {
                WriteOutcome::Committed => r is Ok && !final(self).modified,
                WriteOutcome::Failed { error, cleanup_error } => final(self).modified
                    == old(self).modified && r == Err::<(), DbError>(match cleanup_error {
                    Some(c) => c,
                    None => error,
                }),
            },
    {
        match outcome {
            WriteOutcome::Committed => {
                self.modified = false;
                Ok(())
            },
            WriteOutcome::Failed { error, cleanup_error } => Err(save_error(error, cleanup_error)),
        }
    }
}

} // verus!
