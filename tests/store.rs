use zoxide_db::codec::{decode, encode, CURRENT_VERSION, MAX_SIZE};
use zoxide_db::db::{db_file_name, save_error, select_matches, tmp_file_name, Db, WriteOutcome};
use zoxide_db::dir::Dir;
use zoxide_db::error::DbError;

fn dir(path: &str, rank: f64, last_accessed: i64) -> Dir {
    Dir { path: path.to_string(), rank_bits: rank.to_bits(), last_accessed }
}

fn score(d: &Dir, now: i64) -> f64 {
    f64::from_bits(d.get_score(now))
}

fn kws(words: &[&str]) -> Vec<String> {
    words.iter().map(|w| w.to_string()).collect()
}

#[test]
fn score_decays_by_bucket() {
    let d = dir("/a", 10.0, 0);
    assert_eq!(score(&d, 30 * 60), 40.0);
    assert_eq!(score(&d, 2 * 3600), 20.0);
    assert_eq!(score(&d, 2 * 86400), 5.0);
    assert_eq!(score(&d, 10 * 86400), 2.5);
}

#[test]
fn score_bucket_edges_are_half_open() {
    let d = dir("/a", 3.0, 1000);
    assert_eq!(score(&d, 1000 + 3599), 12.0);
    assert_eq!(score(&d, 1000 + 3600), 6.0);
    assert_eq!(score(&d, 1000 + 86400), 1.5);
    assert_eq!(score(&d, 1000 + 604800), 0.75);
}

#[test]
fn score_of_future_access_is_quadrupled() {
    let d = dir("/a", 1.5, 5000);
    assert_eq!(score(&d, 0), 6.0);
    let far = dir("/a", 2.0, i64::MAX);
    assert_eq!(score(&far, i64::MIN), 8.0);
}

#[test]
fn score_matches_float_products() {
    for rank in [1.0, 1.25, 7.3, 123456.789, 1e300] {
        let d = dir("/a", rank, 0);
        assert_eq!(score(&d, 0), rank * 4.0);
        assert_eq!(score(&d, 7200), rank * 2.0);
        assert_eq!(score(&d, 86400 * 3), rank * 0.5);
        assert_eq!(score(&d, 86400 * 30), rank * 0.25);
    }
    let big = dir("/a", f64::MAX, 0);
    assert_eq!(score(&big, 0), f64::INFINITY);
}

#[test]
fn invalid_ranks_are_recognised() {
    for rank in [0.5, 0.0, -3.0, f64::NAN, f64::INFINITY, f64::MIN_POSITIVE] {
        assert!(!dir("/a", rank, 0).rank_valid());
    }
    assert!(dir("/a", 1.0, 0).rank_valid());
    assert!(dir("/a", f64::MAX, 0).rank_valid());
}

#[test]
fn score_of_every_rank_matches_float_products() {
    let ranks = [
        0.0,
        -0.0,
        0.5,
        0.3,
        -2.75,
        1.0,
        f64::MAX,
        -f64::MAX,
        f64::MAX / 3.0,
        f64::INFINITY,
        f64::NEG_INFINITY,
        f64::MIN_POSITIVE,
        f64::MIN_POSITIVE * 1.5,
        f64::MIN_POSITIVE * 3.3,
        -f64::MIN_POSITIVE * 2.7,
        f64::from_bits(1),
        f64::from_bits(2),
        f64::from_bits(3),
        f64::from_bits(6),
        f64::from_bits(7),
        f64::from_bits(0x000F_FFFF_FFFF_FFFF),
        f64::from_bits(0x0007_FFFF_FFFF_FFFF),
        f64::from_bits(0x0008_0000_0000_0001),
        f64::from_bits(0x0010_0000_0000_0003),
        f64::from_bits(0x0020_0000_0000_0005),
        f64::from_bits(0x0020_0000_0000_0006),
        f64::from_bits(0x8000_0000_0000_0005),
    ];
    let factors = [(0, 4.0), (7200, 2.0), (3 * 86400, 0.5), (30 * 86400, 0.25)];
    for rank in ranks {
        let d = dir("/a", rank, 0);
        for (now, factor) in factors {
            let expected = rank * factor;
            assert_eq!(d.get_score(now), expected.to_bits(), "rank {:e} factor {}", rank, factor);
        }
    }
    let nan = dir("/a", f64::NAN, 0);
    for (now, _) in factors {
        assert!(f64::from_bits(nan.get_score(now)).is_nan());
    }
}

#[test]
fn score_never_grows_with_time() {
    for rank in [0.0, 0.5, 1.0, 42.0, f64::from_bits(3), f64::INFINITY] {
        let d = dir("/a", rank, 0);
        let mut previous = f64::INFINITY;
        for now in [-10, 0, 3599, 3600, 86399, 86400, 604799, 604800, 10_000_000] {
            let s = score(&d, now);
            assert!(s <= previous);
            previous = s;
        }
    }
}

#[test]
fn display_clamps_score() {
    let d = dir("/p/q", 5000.0, 0);
    let s = d.display_score(0);
    assert_eq!(f64::from_bits(s.score_bits), 9999.0);
    assert_eq!(s.path, "/p/q");
    let small = dir("/p", 2.0, 0);
    assert_eq!(f64::from_bits(small.display_score(0).score_bits), 8.0);
    assert_eq!(d.display().text(), "/p/q");
    assert_eq!(f64::from_bits(dir("/p", 0.5, 0).display_score(0).score_bits), 2.0);
    assert_eq!(dir("/p", -1.0, 0).display_score(0).score_bits, 0);
    assert_eq!(dir("/p", f64::NAN, 0).display_score(0).score_bits, 0);
    assert_eq!(f64::from_bits(dir("/p", f64::INFINITY, 0).display_score(0).score_bits), 9999.0);
}

#[test]
fn keywords_match_in_order() {
    let d = dir("/foo/baz/barn", 1.0, 0);
    assert!(d.is_match(&kws(&["foo", "bar"])));
    let e = dir("/bar/foo", 1.0, 0);
    assert!(!e.is_match(&kws(&["foo", "bar"])));
}

#[test]
fn last_keyword_must_be_in_final_segment() {
    let d = dir("/x/y/barstool", 1.0, 0);
    assert!(d.is_match(&kws(&["bar"])));
    let e = dir("/bar/x", 1.0, 0);
    assert!(!e.is_match(&kws(&["bar"])));
}

#[test]
fn matches_do_not_overlap() {
    let d = dir("/abab", 1.0, 0);
    assert!(d.is_match(&kws(&["ab", "ab"])));
    let e = dir("/aba", 1.0, 0);
    assert!(!e.is_match(&kws(&["ab", "ba"])));
}

#[test]
fn path_is_lowered_for_matching() {
    let d = dir("/Home/User/Projects", 1.0, 0);
    assert!(d.is_match(&kws(&["proj"])));
    assert!(!d.is_match(&kws(&["Proj"])));
    assert_eq!(d.path, "/Home/User/Projects");
}

#[test]
fn empty_query_matches_everything() {
    assert!(dir("/any/where", 1.0, 0).is_match(&[]));
    assert!(dir("/", 1.0, 0).is_match(&[]));
}

#[test]
fn round_trip_through_codec() {
    let dirs = vec![dir("/home/u", 12.5, 1_700_000_000), dir("/tmp/ünïcode", 1.0, -42), dir("", 3.0, 0)];
    let bytes = encode(CURRENT_VERSION, &dirs).unwrap();
    assert_eq!(decode(&bytes).unwrap(), dirs);
    let none: Vec<Dir> = Vec::new();
    let empty = encode(CURRENT_VERSION, &none).unwrap();
    assert_eq!(empty.len(), 12);
    assert_eq!(decode(&empty).unwrap(), none);
}

#[test]
fn encoding_matches_bincode_layout() {
    let dirs = vec![dir("/home/u", 12.5, 1_700_000_000), dir("/a/é", 1.0, -7)];
    let tuples: Vec<(String, f64, i64)> =
        dirs.iter().map(|d| (d.path.clone(), f64::from_bits(d.rank_bits), d.last_accessed)).collect();
    let expected = bincode::serialize(&(3u32, tuples)).unwrap();
    assert_eq!(encode(CURRENT_VERSION, &dirs).unwrap(), expected);
}

#[test]
fn other_versions_are_refused() {
    let dirs = vec![dir("/a", 1.0, 0)];
    let bytes = encode(4, &dirs).unwrap();
    assert_eq!(decode(&bytes), Err(DbError::UnsupportedSchema { version: 4 }));
    assert_eq!(decode(&[2, 0, 0, 0]), Err(DbError::UnsupportedSchema { version: 2 }));
    assert_eq!(decode(&[1, 1, 0, 0, 9, 9]), Err(DbError::UnsupportedSchema { version: 257 }));
}

#[test]
fn short_and_empty_buffers() {
    assert_eq!(decode(&[]), Ok(Vec::new()));
    assert_eq!(decode(&[3]), Err(DbError::DatabaseCorrupted));
    assert_eq!(decode(&[3, 0, 0]), Err(DbError::DatabaseCorrupted));
    assert_eq!(decode(&[3, 0, 0, 0]), Err(DbError::DatabaseCorrupted));
}

#[test]
fn malformed_bodies_are_corrupted() {
    let dirs = vec![dir("/abc", 2.0, 5)];
    let bytes = encode(CURRENT_VERSION, &dirs).unwrap();
    let mut trailing = bytes.clone();
    trailing.push(0);
    assert_eq!(decode(&trailing), Err(DbError::DatabaseCorrupted));
    assert_eq!(decode(&bytes[..bytes.len() - 1]), Err(DbError::DatabaseCorrupted));
    let mut bad_utf8 = bytes.clone();
    bad_utf8[20] = 0xff;
    assert_eq!(decode(&bad_utf8), Err(DbError::DatabaseCorrupted));
    let mut huge_count = bytes.clone();
    huge_count[11] = 0x7f;
    assert_eq!(decode(&huge_count), Err(DbError::DatabaseCorrupted));
}

#[test]
fn oversized_body_is_refused() {
    let mut bytes = vec![3u8, 0, 0, 0];
    bytes.resize(4 + MAX_SIZE + 1, 0);
    assert_eq!(decode(&bytes), Err(DbError::DatabaseCorrupted));
}

#[test]
fn well_formed_file_over_ceiling_is_refused() {
    let path = "a".repeat(MAX_SIZE + 1 - 36);
    let dirs = vec![Dir { path, rank_bits: 1.0f64.to_bits(), last_accessed: 0 }];
    let bytes = encode(CURRENT_VERSION, &dirs).unwrap();
    assert_eq!(bytes.len(), MAX_SIZE + 1);
    assert_eq!(decode(&bytes), Err(DbError::DatabaseCorrupted));
    let mut at_limit = dirs.clone();
    at_limit[0].path.pop();
    let bytes = encode(CURRENT_VERSION, &at_limit).unwrap();
    assert_eq!(bytes.len(), MAX_SIZE);
    assert_eq!(decode(&bytes).unwrap(), at_limit);
}

#[test]
fn other_version_over_ceiling_is_unsupported() {
    let mut bytes = vec![9u8, 0, 0, 0];
    bytes.resize(MAX_SIZE + 100, 0);
    assert_eq!(decode(&bytes), Err(DbError::UnsupportedSchema { version: 9 }));
}

#[test]
fn open_missing_or_empty_file_gives_empty_store() {
    let db = Db::open("/data".to_string(), None).unwrap();
    assert!(db.dirs.is_empty());
    assert!(!db.modified);
    assert_eq!(db.data_dir, "/data");
    let db = Db::open("/data".to_string(), Some(&[])).unwrap();
    assert!(db.dirs.is_empty());
}

#[test]
fn open_decodes_file() {
    let dirs = vec![dir("/x", 4.0, 10)];
    let bytes = encode(CURRENT_VERSION, &dirs).unwrap();
    let db = Db::open("/d".to_string(), Some(&bytes)).unwrap();
    assert_eq!(db.dirs, dirs);
    assert!(matches!(Db::open("/d".to_string(), Some(&[1, 2])), Err(DbError::DatabaseCorrupted)));
}

#[test]
fn save_twice_writes_once() {
    let mut db = Db::open("/d".to_string(), None).unwrap();
    assert!(db.save().unwrap().is_none());
    db.dirs.push(dir("/x", 1.0, 0));
    db.modified = true;
    let plan = db.save().unwrap().unwrap();
    assert_eq!(decode(&plan.bytes).unwrap(), db.dirs);
    assert!(db.finish_save(WriteOutcome::Committed).is_ok());
    assert!(!db.modified);
    assert!(db.save().unwrap().is_none());
}

#[test]
fn failed_save_keeps_store_dirty() {
    let mut db = Db::open("/d".to_string(), None).unwrap();
    db.modified = true;
    let failed = WriteOutcome::Failed { error: DbError::IoUnavailable { path: "/d/tmp".to_string() }, cleanup_error: None };
    assert_eq!(db.finish_save(failed), Err(DbError::IoUnavailable { path: "/d/tmp".to_string() }));
    assert!(db.modified);
}

#[test]
fn cleanup_failure_replaces_write_failure() {
    let write = DbError::IoUnavailable { path: "/d/db.zo".to_string() };
    let cleanup = DbError::IoUnavailable { path: "/d/db-x.zo.tmp".to_string() };
    assert_eq!(save_error(write, Some(cleanup)), DbError::IoUnavailable { path: "/d/db-x.zo.tmp".to_string() });
    let write = DbError::IoUnavailable { path: "/d/db.zo".to_string() };
    assert_eq!(save_error(write, None), DbError::IoUnavailable { path: "/d/db.zo".to_string() });
}

#[test]
fn temporary_name_stays_beside_database() {
    assert_eq!(db_file_name(), "db.zo");
    assert_eq!(tmp_file_name("abc"), "db-abc.zo.tmp");
    let mut db = Db::open("/d".to_string(), None).unwrap();
    db.modified = true;
    let plan = db.save().unwrap().unwrap();
    assert!(plan.tmp_name.starts_with("db-") && plan.tmp_name.ends_with(".zo.tmp"));
    assert_eq!(plan.tmp_name.len(), 46);
    assert!(!plan.tmp_name.contains('/'));
    let again = db.save().unwrap().unwrap();
    assert_ne!(plan.tmp_name, again.tmp_name);
}

#[test]
fn ranking_sorts_and_skips_missing_directories() {
    let mut db = Db::open("/d".to_string(), None).unwrap();
    db.dirs.push(dir("/", 1.0, 0));
    db.dirs.push(dir("/no/such/dir/for/this/store", 1000.0, 100));
    db.dirs.push(dir("/", 0.5, 100));
    db.dirs.push(dir("/", f64::INFINITY, 100));
    let found = db.matches(100, &[]);
    assert_eq!(db.dirs[0].rank_bits, f64::INFINITY.to_bits());
    assert_eq!(db.dirs[1].path, "/no/such/dir/for/this/store");
    assert_eq!(db.dirs[3].rank_bits, 0.5f64.to_bits());
    assert_eq!(found, vec![2]);
    assert_eq!(db.dirs[found[0]].rank_bits, 1.0f64.to_bits());
}

#[test]
fn ranking_lowers_keywords_and_orders_by_score() {
    let mut db = Db::open("/d".to_string(), None).unwrap();
    db.dirs.push(dir("/usr", 1.0, 0));
    db.dirs.push(dir("/usr/bin", 3.0, 0));
    db.dirs.push(dir("/tmp", 9.0, 0));
    let found = db.matches(10, &kws(&["USR"]));
    let paths: Vec<&str> = found.iter().map(|&i| db.dirs[i].path.as_str()).collect();
    assert_eq!(paths, vec!["/usr"]);
    assert_eq!(db.dirs[0].path, "/tmp");
    assert_eq!(db.dirs[1].path, "/usr/bin");
}

#[test]
fn selection_uses_given_presence() {
    let dirs = vec![dir("/a/foo", 2.0, 0), dir("/b/foo", 2.0, 0), dir("/c/foo", 0.5, 0), dir("/d/bar", 2.0, 0)];
    let k = kws(&["foo"]);
    assert_eq!(select_matches(&dirs, &k, &vec![true, false, true, true]), vec![0]);
    assert_eq!(select_matches(&dirs, &k, &vec![true, true, true, true]), vec![0, 1]);
    assert_eq!(select_matches(&dirs, &[], &vec![false, true, true, true]), vec![1, 3]);
}

#[test]
fn decay_exponent_by_elapsed_time() {
    let d = dir("/a", 1.0, 100);
    assert_eq!(d.decay_exponent_at(50), 2);
    assert_eq!(d.decay_exponent_at(100 + 3599), 2);
    assert_eq!(d.decay_exponent_at(100 + 3600), 1);
    assert_eq!(d.decay_exponent_at(100 + 86400), -1);
    assert_eq!(d.decay_exponent_at(100 + 604800), -2);
}
