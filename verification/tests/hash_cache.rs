use mailarch::hash::compute_msg_hash;
use mailarch::database::ReadFault;
use mailarch::hash_cache::{judge_tables, CacheError, HashCache, Listing, OpenStep, Survey};
use redb::{
    Database, MultimapTableDefinition, ReadableDatabase, ReadableTable, ReadableTableMetadata,
    TableDefinition,
};
use std::io::Write;
use tempfile::TempDir;

fn dir() -> TempDir {
    tempfile::tempdir().unwrap()
}

fn base(dir: &TempDir) -> &str {
    dir.path().to_str().unwrap()
}

fn load(dir: &TempDir) -> HashCache {
    match HashCache::load(base(dir)) {
        Ok(cache) => cache,
        Err(_) => panic!("cannot load"),
    }
}

fn holds(cache: &HashCache, raw: &[u8]) -> bool {
    match cache.contains_hash(&compute_msg_hash(raw)) {
        Ok(found) => found,
        Err(_) => panic!("cannot look up"),
    }
}

fn names(texts: &[&str]) -> Vec<String> {
    texts.iter().map(|text| text.to_string()).collect()
}

fn nothing(_: u64) -> Option<Vec<u8>> {
    None
}

fn content(n: u64) -> Option<Vec<u8>> {
    if n == 13 {
        None
    } else {
        Some(format!("message {n}").into_bytes())
    }
}

#[test]
fn new_cache_is_empty() {
    let dir = dir();
    let cache = load(&dir);
    assert!(dir.path().join(".mailarchdb").exists());
    assert!(!holds(&cache, b"hello"));
    assert_eq!(cache.len(), 0);
    assert!(matches!(cache.count(), Ok(0)));
}

#[test]
fn inserted_hash_is_found() {
    let dir = dir();
    let mut cache = load(&dir);
    assert!(cache.insert(1, compute_msg_hash(b"hello")).is_ok());
    assert!(holds(&cache, b"hello"));
    assert!(!holds(&cache, b"Hello"));
    assert!(cache.insert(2, compute_msg_hash(b"Hello")).is_ok());
    assert!(holds(&cache, b"hello"));
    assert!(holds(&cache, b"Hello"));
    assert_eq!(cache.len(), 2);
}

#[test]
fn cache_outlives_its_process() {
    let dir = dir();
    let mut cache = load(&dir);
    assert!(cache.insert(1, compute_msg_hash(b"hello")).is_ok());
    drop(cache);
    let cache = load(&dir);
    assert!(holds(&cache, b"hello"));
    assert_eq!(cache.len(), 1);
}

#[test]
fn sync_follows_directory() {
    let dir = dir();
    let mut cache = load(&dir);
    assert!(cache.insert(1, compute_msg_hash(b"one")).is_ok());
    assert!(cache.insert(2, compute_msg_hash(b"two")).is_ok());
    let listing = names(&["2", ".mh_sequences", "7", "+7", "13", "cur", ".lock"]);
    assert!(cache.sync_with_dir(&listing, content).is_ok());
    // Gone from the directory.
    assert!(!holds(&cache, b"one"));
    // Still there, and not read again.
    assert!(holds(&cache, b"two"));
    assert!(!holds(&cache, b"message 2"));
    // New.
    assert!(holds(&cache, b"message 7"));
    // Cannot be read.
    assert!(!holds(&cache, b"message 13"));
    assert_eq!(cache.len(), 2);
    // Again: only what could not be read is tried once more.
    assert!(cache.sync_with_dir(&listing, nothing).is_ok());
    assert_eq!(cache.len(), 2);
    assert!(holds(&cache, b"message 7"));
    assert!(cache.sync_with_dir(&names(&[]), nothing).is_ok());
    assert_eq!(cache.len(), 0);
    assert!(!holds(&cache, b"two"));
}

#[test]
fn equal_messages_are_kept_apart() {
    let dir = dir();
    let mut cache = load(&dir);
    assert!(cache.insert(1, compute_msg_hash(b"same")).is_ok());
    assert!(cache.insert(2, compute_msg_hash(b"same")).is_ok());
    assert_eq!(cache.len(), 2);
    assert!(cache.sync_with_dir(&names(&["2"]), nothing).is_ok());
    assert!(holds(&cache, b"same"));
    assert_eq!(cache.len(), 1);
    drop(cache);
    assert_eq!(load(&dir).len(), 1);
}

#[test]
fn directory_must_exist() {
    let dir = dir();
    let missing = dir.path().join("missing");
    assert!(matches!(HashCache::load(missing.to_str().unwrap()), Err(CacheError::Open(_))));
}

#[test]
fn corrupted_file_is_refused() {
    let dir = dir();
    let mut file =
        tempfile::Builder::new().prefix(".mailarchdb").rand_bytes(0).tempfile_in(dir.path()).unwrap();
    file.write_all(b"this is no database").unwrap();
    assert!(matches!(HashCache::load(base(&dir)), Err(CacheError::Open(_))));
}

#[test]
fn other_version_is_refused() {
    let dir = dir();
    let db = Database::create(dir.path().join(".mailarchdb")).unwrap();
    let txn = db.begin_write().unwrap();
    let attr: TableDefinition<&str, &str> = TableDefinition::new("attr");
    txn.open_table(attr).unwrap().insert("version", "2").unwrap();
    txn.commit().unwrap();
    drop(db);
    match HashCache::load(base(&dir)) {
        Err(CacheError::UnsupportedVersion(found)) => assert_eq!(found, "2"),
        _ => panic!("not refused"),
    }
}

#[test]
fn tables_of_different_lengths_are_refused() {
    let dir = dir();
    drop(load(&dir));
    let db = Database::create(dir.path().join(".mailarchdb")).unwrap();
    let txn = db.begin_write().unwrap();
    let h2id: MultimapTableDefinition<&[u8], u64> = MultimapTableDefinition::new("h2id");
    let hash = compute_msg_hash(b"lost");
    txn.open_multimap_table(h2id).unwrap().insert(hash.as_slice(), 1).unwrap();
    txn.commit().unwrap();
    drop(db);
    assert!(matches!(HashCache::load(base(&dir)), Err(CacheError::LengthMismatch)));
}

#[test]
fn refused_database_stays_as_it_was() {
    let dir = dir();
    let attr: TableDefinition<&str, &str> = TableDefinition::new("attr");
    let id2h: TableDefinition<u64, &[u8]> = TableDefinition::new("id2h");
    for version in ["2", "1"] {
        let mut db = Database::create(dir.path().join(format!("db{version}"))).unwrap();
        let txn = db.begin_write().unwrap();
        txn.open_table(attr).unwrap().insert("version", version).unwrap();
        txn.open_table(id2h).unwrap().insert(7, [1u8, 2].as_slice()).unwrap();
        txn.commit().unwrap();
        match HashCache::init(&mut db) {
            Err(CacheError::UnsupportedVersion(found)) => assert_eq!((version, found.as_str()), ("2", "2")),
            Err(CacheError::LengthMismatch) => assert_eq!(version, "1"),
            _ => panic!("not refused"),
        }
        let txn = db.begin_read().unwrap();
        let found = txn.open_table(attr).unwrap();
        assert_eq!(found.get("version").unwrap().unwrap().value(), version);
        assert_eq!(found.len().unwrap(), 1);
        let found = txn.open_table(id2h).unwrap();
        assert_eq!(found.get(7).unwrap().unwrap().value().to_vec(), vec![1, 2]);
        assert_eq!(found.len().unwrap(), 1);
    }
}

#[test]
fn new_database_is_initialised_once() {
    let dir = dir();
    let mut db = Database::create(dir.path().join("db")).unwrap();
    assert!(matches!(HashCache::init(&mut db), Ok(true)));
    assert!(matches!(HashCache::init(&mut db), Ok(false)));
}

#[test]
fn tables_of_other_types_are_refused() {
    let dir = dir();
    let db = Database::create(dir.path().join(".mailarchdb")).unwrap();
    let txn = db.begin_write().unwrap();
    let id2h: TableDefinition<&str, &str> = TableDefinition::new("id2h");
    txn.open_table(id2h).unwrap().insert("1", "x").unwrap();
    txn.commit().unwrap();
    drop(db);
    assert!(matches!(HashCache::load(base(&dir)), Err(CacheError::Access(_))));
}

#[test]
fn tables_are_judged() {
    assert!(matches!(judge_tables(None, 0, 0), Ok(true)));
    assert!(matches!(judge_tables(Some("1".to_string()), 5, 5), Ok(false)));
    assert!(matches!(judge_tables(Some("1".to_string()), 5, 4), Err(CacheError::LengthMismatch)));
    assert!(matches!(judge_tables(None, 5, 4), Err(CacheError::LengthMismatch)));
    assert!(matches!(
        judge_tables(Some("10".to_string()), 5, 4),
        Err(CacheError::UnsupportedVersion(found)) if found == "10"
    ));
}

#[test]
fn unknown_count_shows_as_zero() {
    assert_eq!(HashCache::counted(Ok(3)), 3);
    assert_eq!(HashCache::counted(Err(CacheError::LengthMismatch)), 0);
}

#[test]
fn lookups_are_read() {
    assert!(matches!(HashCache::found(Ok(Some(3))), Ok(true)));
    assert!(matches!(HashCache::found(Ok(None)), Ok(false)));
    assert!(matches!(HashCache::found(Err(ReadFault::MissingTable)), Ok(false)));
    let fault = || ReadFault::Failed(redb::Error::Corrupted("test".to_string()));
    assert!(matches!(HashCache::found(Err(fault())), Err(CacheError::Access(_))));
    assert!(matches!(HashCache::number_of(Ok(3)), Ok(3)));
    assert!(matches!(HashCache::number_of(Ok(u64::MAX)), Ok(usize::MAX)));
    assert!(matches!(HashCache::number_of(Err(ReadFault::MissingTable)), Ok(0)));
    assert!(matches!(HashCache::number_of(Err(fault())), Err(CacheError::Access(_))));
}

#[test]
fn surveyed_hashes_are_found() {
    let survey = Survey::take(Listing::Names(names(&["7", "13", "cur", "8"])), content).unwrap();
    assert!(survey.contains_hash(&compute_msg_hash(b"message 7")));
    assert!(survey.contains_hash(&compute_msg_hash(b"message 8")));
    assert!(!survey.contains_hash(&compute_msg_hash(b"message 13")));
    assert!(!survey.contains_hash(&compute_msg_hash(b"message 1")));
    let survey = Survey::take(Listing::Missing, content).unwrap();
    assert!(!survey.contains_hash(&compute_msg_hash(b"message 7")));
    assert!(Survey::take(Listing::Failed, content).is_none());
}

#[test]
fn opening_recovers() {
    let next = HashCache::load_and_sync_lossy;
    assert_eq!(next(OpenStep::Load, true), OpenStep::Sync);
    assert_eq!(next(OpenStep::Sync, true), OpenStep::Ready);
    assert_eq!(next(OpenStep::Load, false), OpenStep::Remove);
    assert_eq!(next(OpenStep::Sync, false), OpenStep::Remove);
    assert_eq!(next(OpenStep::Remove, true), OpenStep::Reload);
    assert_eq!(next(OpenStep::Reload, true), OpenStep::Resync);
    assert_eq!(next(OpenStep::Resync, true), OpenStep::Ready);
    assert_eq!(next(OpenStep::Remove, false), OpenStep::RemoveFailed);
    assert_eq!(next(OpenStep::Reload, false), OpenStep::ReloadFailed);
    assert_eq!(next(OpenStep::Resync, false), OpenStep::ResyncFailed);
    for last in [OpenStep::Ready, OpenStep::RemoveFailed, OpenStep::ReloadFailed, OpenStep::ResyncFailed] {
        assert_eq!(next(last, true), last);
        assert_eq!(next(last, false), last);
    }
}
