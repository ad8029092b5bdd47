//! Per-mailbox message hash cache for MH-format deduplication.
//!
//! Table `attr`:
//! `key (str)` -> `value (str)`
//!
//! Table `id2h`:
//! `msgnum (u64)` -> `hash (28-byte SHA3-224)`
//!
//! Table `h2id`:
//! `hash (28-byte SHA3-224)` -> `msgnum (u64)`
use crate::database::{
    abort, begin_read, begin_write, commit, create, db_identity, db_opened, db_path, db_tables,
    db_writing, number_get, number_insert, number_len, number_remove, pair_insert, pair_len, pair_remove, read_number_keys,
    read_number_len, read_pair_first, text_get, text_insert, txn_database, txn_tables, ReadFault,
    Tables,
};
use crate::hash::{compute_msg_hash, sha3_224, MsgHash, HASH_LEN};
use crate::mailbox_path::{join_path, path_joined};
use crate::text::{decimal, decimal_reads_back, number, parse_number, views};
use redb::{Database, WriteTransaction};
use std::collections::HashSet;
use vstd::prelude::*;

verus! {

broadcast use vstd::std_specs::hash::group_hash_axioms;

/// The name of the database file inside the mailbox directory.
pub const FILE_NAME: &'static str = ".mailarchdb";

/// The version of the database layout.
pub const VERSION: &'static str = "1";

pub const TABLE_ATTR: &'static str = "attr";

pub const TABLE_ID2H: &'static str = "id2h";

pub const TABLE_H2ID: &'static str = "h2id";

pub const KEY_VERSION: &'static str = "version";

/// What a cache records.
#[verifier::ext_equal]
pub struct CacheView {
    /// The version of the layout, where one is written down.
    pub version: Option<Seq<char>>,
    /// The hash of each message, by its number.
    pub hashes: Map<u64, Seq<u8>>,
    /// Each hash with each message number that has it.
    pub ids: Set<(Seq<u8>, u64)>,
}

/// What the tables of a database record.
pub open spec fn cache_of(tables: Tables) -> CacheView {
    let attr = tables.text(TABLE_ATTR@);
    CacheView {
        version: if attr.contains_key(KEY_VERSION@) {
            Some(attr[KEY_VERSION@])
        } else {
            None
        },
        hashes: tables.number(TABLE_ID2H@),
        ids: tables.pair(TABLE_H2ID@),
    }
}

impl CacheView {
    /// The two tables agree: a hash is paired with a number exactly where the number has it.
    pub open spec fn consistent(self) -> bool {
        forall|hash: Seq<u8>, n: u64| #[trigger]
            self.ids.contains((hash, n)) <==> (self.hashes.contains_key(n) && self.hashes[n]
                == hash)
    }

    /// A cache with these tables can be used: no other version is written down, and the tables have
    /// the same length.
    pub open spec fn is_usable(self) -> bool {
        &&& self.version is None || self.version == Some(VERSION@)
        &&& self.hashes.dom().finite() && self.ids.finite()
        &&& self.hashes.len() == self.ids.len()
    }

    /// What a cache with these tables records once it is loaded: the same, and the version.
    pub open spec fn loaded(self) -> CacheView {
        CacheView { version: Some(VERSION@), ..self }
    }

    /// Some message has the hash.
    pub open spec fn contains(self, hash: Seq<u8>) -> bool {
        exists|n: u64| self.ids.contains((hash, n))
    }

    /// With `hash` recorded for message `n`.
    pub open spec fn with(self, n: u64, hash: Seq<u8>) -> CacheView {
        CacheView {
            hashes: self.hashes.insert(n, hash),
            ids: self.ids.insert((hash, n)),
            ..self
        }
    }

    /// With all of `entries` recorded, one after the other.
    pub open spec fn with_all(self, entries: Seq<(u64, MsgHash)>) -> CacheView
        decreases entries.len(),
    {
        if entries.len() == 0 {
            self
        } else {
            self.with_all(entries.drop_last()).with(entries.last().0, entries.last().1@)
        }
    }

    /// Without message `n`.
    pub open spec fn without(self, n: u64) -> CacheView {
        CacheView {
            hashes: self.hashes.remove(n),
            ids: self.ids.remove((self.hashes[n], n)),
            ..self
        }
    }

    /// Without the messages that are not among `present`.
    pub open spec fn kept(self, present: Set<u64>) -> CacheView {
        CacheView {
            hashes: self.hashes.restrict(present),
            ids: self.ids.filter(
                |pair: (Seq<u8>, u64)|
                    present.contains(pair.1) || !self.hashes.contains_key(pair.1)
                        || self.hashes[pair.1] != pair.0,
            ),
            ..self
        }
    }
}

/// The message numbers that a directory lists: those of its files whose names are numbers.
pub open spec fn listed(names: Seq<Seq<char>>) -> Set<u64> {
    Set::new(|n: u64| exists|i: int| 0 <= i < names.len() && #[trigger] number(names[i]) == Some(n))
}

/// Why a cache could not be used.
pub enum CacheError {
    /// The database file could not be opened.
    Open(redb::Error),
    /// A transaction could not be begun.
    Begin(redb::Error),
    /// A table could not be read or written.
    Access(redb::Error),
    /// What was written could not be committed.
    Commit(redb::Error),
    /// The database has another layout.
    UnsupportedVersion(String),
    /// The tables `id2h` and `h2id` have different lengths.
    LengthMismatch,
    /// A message that was to be dropped was not recorded.
    StaleMissing(u64),
}

/// Whether tables with this version and these lengths can be used, and if so whether the version
/// has yet to be written down.
pub fn judge_tables(version: Option<String>, id2h_len: u64, h2id_len: u64) -> (res: Result<
    bool,
    CacheError,
>)
    ensures
        match version {
            Some(found) if found@ != VERSION@ => res matches Err(
                CacheError::UnsupportedVersion(v),
            ) && v@ == found@,
            _ => if id2h_len != h2id_len {
                res matches Err(CacheError::LengthMismatch)
            } else {
                res matches Ok(init) && init == (version is None)
            },
        },
{
    let init = version.is_none();
    if let Some(found) = version {
        if found != VERSION.to_owned() {
            return Err(CacheError::UnsupportedVersion(found));
        }
    }
    if id2h_len != h2id_len {
        return Err(CacheError::LengthMismatch);
    }
    Ok(init)
}

/// Checks the tables of a database, and writes the version down where there is none. Tells
/// whether it did.
fn prepare(txn: &mut WriteTransaction) -> (res: Result<bool, CacheError>)
    ensures
        txn_database(*final(txn)) == txn_database(*old(txn)),
        ({
            let before = cache_of(txn_tables(*old(txn)));
            let after = cache_of(txn_tables(*final(txn)));
            match res {
                Ok(init) => {
                    &&& before.is_usable()
                    &&& init == (before.version is None)
                    &&& after == before.loaded()
                },
                Err(CacheError::UnsupportedVersion(found)) => before.version == Some(found@)
                    && found@ != VERSION@,
                Err(CacheError::LengthMismatch) => {
                    &&& before.version is None || before.version == Some(VERSION@)
                    &&& before.hashes.len() != before.ids.len()
                },
                Err(CacheError::Access(_)) => true,
                Err(_) => false,
            }
        }),
{
    proof {
        reveal_strlit("attr");
        reveal_strlit("id2h");
        reveal_strlit("h2id");
    }
    let ghost start = txn_tables(*txn);
    let version = match text_get(txn, TABLE_ATTR, KEY_VERSION) {
        Ok(version) => version,
        Err(e) => return Err(CacheError::Access(e)),
    };
    let ghost found = version;
    let id2h_len = match number_len(txn, TABLE_ID2H) {
        Ok(len) => len,
        Err(e) => return Err(CacheError::Access(e)),
    };
    let h2id_len = match pair_len(txn, TABLE_H2ID) {
        Ok(len) => len,
        Err(e) => return Err(CacheError::Access(e)),
    };
    assert(cache_of(txn_tables(*txn)) == cache_of(start));
    let init = match judge_tables(version, id2h_len, h2id_len) {
        Ok(init) => init,
        Err(e) => return Err(e),
    };
    if init {
        if let Err(e) = text_insert(txn, TABLE_ATTR, KEY_VERSION, VERSION) {
            return Err(CacheError::Access(e));
        }
    }
    Ok(init)
}

/// Records `hash` for message `msgnum` in both tables.
fn put(txn: &mut WriteTransaction, msgnum: u64, hash: &MsgHash) -> (res: Result<(), CacheError>)
    ensures
        txn_database(*final(txn)) == txn_database(*old(txn)),
        match res {
            Ok(()) => cache_of(txn_tables(*final(txn))) == cache_of(txn_tables(*old(txn))).with(
                msgnum,
                hash@,
            ),
            Err(CacheError::Access(_)) => true,
            Err(_) => false,
        },
{
    proof {
        reveal_strlit("id2h");
        reveal_strlit("h2id");
    }
    if let Err(e) = number_insert(txn, TABLE_ID2H, msgnum, hash.as_slice()) {
        return Err(CacheError::Access(e));
    }
    match pair_insert(txn, TABLE_H2ID, hash.as_slice(), msgnum) {
        Ok(()) => Ok(()),
        Err(e) => Err(CacheError::Access(e)),
    }
}

/// Takes message `msgnum` out of both tables.
fn take(txn: &mut WriteTransaction, msgnum: u64) -> (res: Result<(), CacheError>)
    ensures
        txn_database(*final(txn)) == txn_database(*old(txn)),
        ({
            let before = cache_of(txn_tables(*old(txn)));
            match res {
                Ok(()) => before.hashes.contains_key(msgnum) && cache_of(txn_tables(*final(txn)))
                    == before.without(msgnum),
                Err(CacheError::StaleMissing(n)) => n == msgnum && !before.hashes.contains_key(
                    msgnum,
                ),
                Err(CacheError::Access(_)) => true,
                Err(_) => false,
            }
        }),
{
    proof {
        reveal_strlit("id2h");
        reveal_strlit("h2id");
    }
    let hash = match number_get(txn, TABLE_ID2H, msgnum) {
        Ok(Some(hash)) => hash,
        Ok(None) => return Err(CacheError::StaleMissing(msgnum)),
        Err(e) => return Err(CacheError::Access(e)),
    };
    if let Err(e) = number_remove(txn, TABLE_ID2H, msgnum) {
        return Err(CacheError::Access(e));
    }
    match pair_remove(txn, TABLE_H2ID, hash.as_slice(), msgnum) {
        Ok(()) => Ok(()),
        Err(e) => Err(CacheError::Access(e)),
    }
}

/// What one more name adds to the message numbers that are listed.
proof fn lemma_listed_take(texts: Seq<Seq<char>>, i: int)
    requires
        0 <= i < texts.len(),
    ensures
        forall|n: u64|
            #[trigger] listed(texts.take(i + 1)).contains(n) <==> listed(texts.take(i)).contains(n)
                || number(texts[i]) == Some(n),
{
    let before = texts.take(i);
    let after = texts.take(i + 1);
    assert forall|n: u64| #[trigger] listed(after).contains(n) <==> listed(before).contains(n)
        || number(texts[i]) == Some(n) by {
        if listed(after).contains(n) {
            let k = choose|k: int| 0 <= k < after.len() && #[trigger] number(after[k]) == Some(n);
            if k < i {
                assert(number(before[k]) == Some(n));
            }
        }
        if listed(before).contains(n) {
            let k = choose|k: int| 0 <= k < before.len() && #[trigger] number(before[k]) == Some(n);
            assert(number(after[k]) == Some(n));
        }
        assert(after[i] == texts[i]);
    }
}

/// The message numbers that a directory lists.
fn listed_numbers(names: &Vec<String>) -> (res: HashSet<u64>)
    ensures
        res@ == listed(views(names@)),
{
    let mut out: HashSet<u64> = HashSet::new();
    let mut i: usize = 0;
    let ghost texts = views(names@);
    assert(out@ == listed(texts.take(0)));
    while i < names.len()
        invariant
            i <= names.len(),
            texts == views(names@),
            out@ == listed(texts.take(i as int)),
        decreases names.len() - i,
    {
        let parsed = parse_number(names[i].as_str());
        proof {
            lemma_listed_take(texts, i as int);
        }
        if let Some(n) = parsed {
            out.insert(n);
        }
        assert(out@ =~= listed(texts.take(i + 1)));
        i += 1;
    }
    assert(texts.take(i as int) == texts);
    out
}

/// The numbers in `nums`, as a set.
fn set_of(nums: &Vec<u64>) -> (res: HashSet<u64>)
    ensures
        res@ == nums@.to_set(),
{
    let mut out: HashSet<u64> = HashSet::new();
    let mut i: usize = 0;
    assert(out@ == nums@.take(0).to_set());
    while i < nums.len()
        invariant
            i <= nums.len(),
            out@ == nums@.take(i as int).to_set(),
        decreases nums.len() - i,
    {
        out.insert(nums[i]);
        proof {
            lemma_take_to_set(nums@, i as int);
        }
        i += 1;
    }
    assert(nums@.take(i as int) == nums@);
    out
}

/// One more element of a sequence is one more element of its set.
proof fn lemma_take_to_set(s: Seq<u64>, i: int)
    requires
        0 <= i < s.len(),
    ensures
        s.take(i + 1).to_set() == s.take(i).to_set().insert(s[i]),
{
    let before = s.take(i);
    let after = s.take(i + 1);
    assert forall|n: u64| after.contains(n) <==> before.contains(n) || n == s[i] by {
        if after.contains(n) {
            let k = choose|k: int| 0 <= k < after.len() && after[k] == n;
            if k < i {
                assert(before[k] == n);
            }
        }
        if before.contains(n) {
            let k = choose|k: int| 0 <= k < before.len() && before[k] == n;
            assert(after[k] == n);
        }
        assert(after[i] == s[i]);
    }
    assert(after.to_set() =~= before.to_set().insert(s[i]));
}

/// The numbers in `nums` that are not in `present`, in the same order.
fn missing_from(nums: &Vec<u64>, present: &HashSet<u64>) -> (res: Vec<u64>)
    requires
        nums@.no_duplicates(),
    ensures
        res@.no_duplicates(),
        res@.to_set() == nums@.to_set().difference(present@),
{
    let mut out: Vec<u64> = Vec::new();
    let mut i: usize = 0;
    assert(out@.to_set() =~= nums@.take(0).to_set().difference(present@));
    while i < nums.len()
        invariant
            i <= nums.len(),
            nums@.no_duplicates(),
            out@.no_duplicates(),
            out@.to_set() == nums@.take(i as int).to_set().difference(present@),
        decreases nums.len() - i,
    {
        let n = nums[i];
        let ghost before = out@;
        proof {
            lemma_take_to_set(nums@, i as int);
            if nums@.take(i as int).contains(n) {
                let k = choose|k: int| 0 <= k < i && nums@.take(i as int)[k] == n;
                assert(nums@[k] == n);
            }
            assert(!before.to_set().contains(n));
        }
        if !present.contains(&n) {
            out.push(n);
            proof {
                lemma_push_to_set(before, n);
            }
        }
        assert(out@.to_set() =~= nums@.take(i + 1).to_set().difference(present@));
        i += 1;
    }
    assert(nums@.take(i as int) == nums@);
    out
}

/// Pushing a new element keeps a sequence free of duplicates and adds to its set.
proof fn lemma_push_to_set(s: Seq<u64>, n: u64)
    ensures
        s.push(n).to_set() == s.to_set().insert(n),
        s.no_duplicates() && !s.to_set().contains(n) ==> s.push(n).no_duplicates(),
{
    let longer = s.push(n);
    assert(longer.take(s.len() as int) == s);
    assert(longer.take(s.len() as int + 1) == longer);
    lemma_take_to_set(longer, s.len() as int);
    if s.no_duplicates() && !s.to_set().contains(n) {
        assert forall|i: int, j: int|
            0 <= i < longer.len() && 0 <= j < longer.len() && i != j implies longer[i]
            != longer[j] by {
            if i < s.len() {
                assert(s.contains(s[i]));
            }
            if j < s.len() {
                assert(s.contains(s[j]));
            }
        }
    }
}

/// The message numbers that a directory lists and that are not in `cached`, each once.
fn unrecorded(names: &Vec<String>, cached: &HashSet<u64>) -> (res: Vec<u64>)
    ensures
        res@.no_duplicates(),
        res@.to_set() == listed(views(names@)).difference(cached@),
{
    let mut seen: HashSet<u64> = HashSet::new();
    let mut out: Vec<u64> = Vec::new();
    let mut i: usize = 0;
    let ghost texts = views(names@);
    assert(out@.to_set() =~= listed(texts.take(0)).difference(cached@));
    while i < names.len()
        invariant
            i <= names.len(),
            texts == views(names@),
            seen@ == out@.to_set(),
            out@.no_duplicates(),
            out@.to_set() == listed(texts.take(i as int)).difference(cached@),
        decreases names.len() - i,
    {
        let ghost before = out@;
        let parsed = parse_number(names[i].as_str());
        proof {
            lemma_listed_take(texts, i as int);
        }
        if let Some(n) = parsed {
            if !cached.contains(&n) && !seen.contains(&n) {
                seen.insert(n);
                out.push(n);
                proof {
                    lemma_push_to_set(before, n);
                }
            }
        }
        assert(out@.to_set() =~= listed(texts.take(i + 1)).difference(cached@));
        i += 1;
    }
    assert(texts.take(i as int) == texts);
    out
}

/// The hash cache of one mailbox.
pub struct HashCache {
    db: Database,
}

impl View for HashCache {
    type V = CacheView;

    closed spec fn view(&self) -> CacheView {
        cache_of(db_tables(self.db))
    }
}

/// What became of a cache that was to change from `before` to `after`: where the change failed,
/// the cache is as it was, unless only the commit failed, which leaves it either way.
pub open spec fn changed(
    before: CacheView,
    after: CacheView,
    found: CacheView,
    res: Result<(), CacheError>,
) -> bool {
    match res {
        Ok(()) => found == after,
        Err(CacheError::Commit(_)) => found == before || found == after,
        Err(CacheError::Begin(_)) | Err(CacheError::Access(_)) => found == before,
        Err(_) => false,
    }
}

impl HashCache {
    /// Load the cache, and sync with the directory if loading succeeded. If loading or syncing
    /// fails, delete the cache and rebuild from directory contents. Given whether `step`
    /// succeeded, this is the step to take next. [`OpenStep::Load`] is the first one.
    pub fn load_and_sync_lossy(step: OpenStep, ok: bool) -> (res: OpenStep)
        ensures
            res == step.successor(ok),
    {
        match step {
            OpenStep::Load => if ok { OpenStep::Sync } else { OpenStep::Remove },
            OpenStep::Sync => if ok { OpenStep::Ready } else { OpenStep::Remove },
            OpenStep::Remove => if ok { OpenStep::Reload } else { OpenStep::RemoveFailed },
            OpenStep::Reload => if ok { OpenStep::Resync } else { OpenStep::ReloadFailed },
            OpenStep::Resync => if ok { OpenStep::Ready } else { OpenStep::ResyncFailed },
            last => last,
        }
    }

    /// No transaction is left open.
    pub closed spec fn wf(&self) -> bool {
        !db_writing(self.db)
    }

    /// The path of the database file.
    pub closed spec fn path(&self) -> Seq<char> {
        db_path(self.db)
    }

    /// What the database file held when it was opened.
    pub closed spec fn opened(&self) -> CacheView {
        cache_of(db_opened(self.db))
    }

    /// Checks the tables of a database that was just opened, and writes the version down where
    /// there is none. Tells whether it did. A database that is refused stays as it was.
    pub fn init(db: &mut Database) -> (res: Result<bool, CacheError>)
        requires
            !db_writing(*old(db)),
        ensures
            db_path(*final(db)) == db_path(*old(db)),
            db_opened(*final(db)) == db_opened(*old(db)),
            db_identity(*final(db)) == db_identity(*old(db)),
            !db_writing(*final(db)),
            ({
                let before = cache_of(db_tables(*old(db)));
                let after = cache_of(db_tables(*final(db)));
                match res {
                    Ok(init) => {
                        &&& before.is_usable()
                        &&& init == (before.version is None)
                        &&& after == before.loaded()
                    },
                    Err(CacheError::UnsupportedVersion(found)) => before.version == Some(found@)
                        && found@ != VERSION@,
                    Err(CacheError::LengthMismatch) => {
                        &&& before.version is None || before.version == Some(VERSION@)
                        &&& before.hashes.len() != before.ids.len()
                    },
                    Err(CacheError::Begin(_)) | Err(CacheError::Access(_)) => true,
                    Err(CacheError::Commit(_)) => {
                        &&& before.version is None
                        &&& after == before || after == before.loaded()
                    },
                    Err(_) => false,
                }
            }),
            res matches Err(e) ==> e is Commit || db_tables(*final(db)) == db_tables(*old(db)),
    {
        let mut txn = match begin_write(db) {
            Ok(txn) => txn,
            Err(e) => return Err(CacheError::Begin(e)),
        };
        match prepare(&mut txn) {
            Ok(true) => match commit(db, txn) {
                Ok(()) => Ok(true),
                Err(e) => Err(CacheError::Commit(e)),
            },
            Ok(false) => {
                abort(db, txn);
                Ok(false)
            },
            Err(e) => {
                abort(db, txn);
                Err(e)
            },
        }
    }

    /// Open or create the database in the mailbox directory `base`.
    ///
    /// What the file holds is up to the disk. Whatever it is, a cache comes back only with the
    /// layout that this crate knows and with tables of the same length, and records what the file
    /// held.
    pub fn load(base: &str) -> (res: Result<HashCache, CacheError>)
        ensures
            match res {
                Ok(cache) => {
                    &&& cache.wf()
                    &&& cache.path() == path_joined(base@, FILE_NAME@)
                    &&& cache.opened().is_usable()
                    &&& cache@ == cache.opened().loaded()
                },
                Err(CacheError::UnsupportedVersion(found)) => found@ != VERSION@,
                Err(CacheError::StaleMissing(_)) => false,
                Err(_) => true,
            },
    {
        let path = join_path(base, FILE_NAME);
        match create(path.as_str()) {
            Ok(db) => {
                let mut db = db;
                match Self::init(&mut db) {
                    Ok(_) => Ok(HashCache { db }),
                    Err(e) => Err(e),
                }
            },
            Err(e) => Err(CacheError::Open(e)),
        }
    }

    /// Ends a transaction: commits it where all went well, else leaves the cache as it was.
    fn finish(&mut self, txn: WriteTransaction, done: Result<(), CacheError>) -> (res: Result<
        (),
        CacheError,
    >)
        requires
            txn_database(txn) == db_identity(old(self).db),
        ensures
            final(self).wf(),
            final(self).path() == old(self).path(),
            final(self).opened() == old(self).opened(),
            match done {
                Ok(()) => changed(old(self)@, cache_of(txn_tables(txn)), final(self)@, res) && !(
                res matches Err(CacheError::Begin(_))) && !(res matches Err(CacheError::Access(_))),
                Err(_) => res == done && final(self)@ == old(self)@,
            },
    {
        match done {
            Ok(()) => match commit(&mut self.db, txn) {
                Ok(()) => Ok(()),
                Err(e) => Err(CacheError::Commit(e)),
            },
            Err(e) => {
                abort(&mut self.db, txn);
                Err(e)
            },
        }
    }

    /// Whether a hash is present, by the first message that was read for it. A missing table holds
    /// none.
    pub fn found(first: Result<Option<u64>, ReadFault>) -> (res: Result<bool, CacheError>)
        ensures
            match first {
                Ok(Some(_)) => res == Ok::<bool, CacheError>(true),
                Ok(None) | Err(ReadFault::MissingTable) => res == Ok::<bool, CacheError>(false),
                Err(ReadFault::Failed(e)) => res == Err::<bool, CacheError>(CacheError::Access(e)),
            },
    {
        match first {
            Ok(Some(_)) => Ok(true),
            Ok(None) | Err(ReadFault::MissingTable) => Ok(false),
            Err(ReadFault::Failed(e)) => Err(CacheError::Access(e)),
        }
    }

    /// Check whether `hash` is present.
    pub fn contains_hash(&self, hash: &MsgHash) -> (res: Result<bool, CacheError>)
        ensures
            match res {
                Ok(found) => found == self@.contains(hash@),
                Err(CacheError::Begin(_)) | Err(CacheError::Access(_)) => true,
                Err(_) => false,
            },
    {
        let txn = match begin_read(&self.db) {
            Ok(txn) => txn,
            Err(e) => return Err(CacheError::Begin(e)),
        };
        proof {
            reveal_strlit("h2id");
        }
        let first = read_pair_first(&txn, TABLE_H2ID, hash.as_slice());
        assert(first matches Ok(Some(n)) ==> self@.ids.contains((hash@, n)));
        Self::found(first)
    }

    /// Insert `hash` for `msgnum`.
    pub fn insert(&mut self, msgnum: u64, hash: MsgHash) -> (res: Result<(), CacheError>)
        requires
            old(self).wf(),
        ensures
            final(self).wf(),
            final(self).path() == old(self).path(),
            final(self).opened() == old(self).opened(),
            changed(old(self)@, old(self)@.with(msgnum, hash@), final(self)@, res),
    {
        let mut txn = match begin_write(&mut self.db) {
            Ok(txn) => txn,
            Err(e) => return Err(CacheError::Begin(e)),
        };
        let done = put(&mut txn, msgnum, &hash);
        self.finish(txn, done)
    }

    /// The number of entries, by the length that was read: no more than a `usize` holds. A missing
    /// table has none.
    pub fn number_of(len: Result<u64, ReadFault>) -> (res: Result<usize, CacheError>)
        ensures
            match len {
                Ok(len) => res matches Ok(n) && n == if len <= usize::MAX {
                    len as int
                } else {
                    usize::MAX as int
                },
                Err(ReadFault::MissingTable) => res == Ok::<usize, CacheError>(0),
                Err(ReadFault::Failed(e)) => res == Err::<usize, CacheError>(CacheError::Access(e)),
            },
    {
        match len {
            Ok(len) => Ok(if len <= usize::MAX as u64 { len as usize } else { usize::MAX }),
            Err(ReadFault::MissingTable) => Ok(0),
            Err(ReadFault::Failed(e)) => Err(CacheError::Access(e)),
        }
    }

    /// Number of recorded messages, or why it cannot be told.
    pub fn count(&self) -> (res: Result<usize, CacheError>)
        ensures
            match res {
                Ok(len) => len == if self@.hashes.len() <= usize::MAX {
                    self@.hashes.len()
                } else {
                    usize::MAX as nat
                },
                Err(CacheError::Begin(_)) | Err(CacheError::Access(_)) => true,
                Err(_) => false,
            },
    {
        let txn = match begin_read(&self.db) {
            Ok(txn) => txn,
            Err(e) => return Err(CacheError::Begin(e)),
        };
        proof {
            reveal_strlit("id2h");
        }
        Self::number_of(read_number_len(&txn, TABLE_ID2H))
    }

    /// The number to show for a number that may not have been told.
    pub fn counted(count: Result<usize, CacheError>) -> (res: usize)
        ensures
            res == match count {
                Ok(len) => len,
                Err(_) => 0,
            },
    {
        match count {
            Ok(len) => len,
            Err(_) => 0,
        }
    }

    /// Number of recorded messages, or zero where it cannot be told. Whether it can be told is up to
    /// the disk: this shows what [`HashCache::counted`] makes of [`HashCache::count`].
    pub fn len(&self) -> (res: usize)
        ensures
            res == 0 || res == self@.hashes.len() || (res == usize::MAX && self@.hashes.len()
                > usize::MAX),
    {
        Self::counted(self.count())
    }

    /// The numbers of all recorded messages.
    fn msgnums(&self) -> (res: Result<Vec<u64>, CacheError>)
        ensures
            match res {
                Ok(nums) => nums@.no_duplicates() && nums@.to_set() == self@.hashes.dom(),
                Err(CacheError::Begin(_)) | Err(CacheError::Access(_)) => true,
                Err(_) => false,
            },
    {
        let txn = match begin_read(&self.db) {
            Ok(txn) => txn,
            Err(e) => return Err(CacheError::Begin(e)),
        };
        proof {
            reveal_strlit("id2h");
        }
        match read_number_keys(&txn, TABLE_ID2H) {
            Ok(nums) => Ok(nums),
            Err(ReadFault::MissingTable) => {
                let none: Vec<u64> = Vec::new();
                assert(none@.to_set() == self@.hashes.dom());
                Ok(none)
            },
            Err(ReadFault::Failed(e)) => Err(CacheError::Access(e)),
        }
    }

    /// Drops the recorded messages `stale` in one transaction.
    fn remove_all(&mut self, stale: &Vec<u64>) -> (res: Result<(), CacheError>)
        requires
            old(self).wf(),
            stale@.no_duplicates(),
            forall|i: int| 0 <= i < stale.len() ==> old(self)@.hashes.contains_key(#[trigger] stale@[i]),
        ensures
            final(self).wf(),
            final(self).path() == old(self).path(),
            final(self).opened() == old(self).opened(),
            changed(
                old(self)@,
                old(self)@.kept(Set::new(|n: u64| !stale@.contains(n))),
                final(self)@,
                res,
            ),
    {
        let ghost start = self@;
        let mut txn = match begin_write(&mut self.db) {
            Ok(txn) => txn,
            Err(e) => return Err(CacheError::Begin(e)),
        };
        let mut i: usize = 0;
        assert(cache_of(txn_tables(txn)) == start.kept(
            Set::new(|n: u64| !stale@.take(0).contains(n)),
        ));
        while i < stale.len()
            invariant
                i <= stale.len(),
                start == old(self)@,
                self@ == start,
                self.path() == old(self).path(),
                self.opened() == old(self).opened(),
                txn_database(txn) == db_identity(self.db),
                stale@.no_duplicates(),
                forall|k: int|
                    0 <= k < stale.len() ==> start.hashes.contains_key(#[trigger] stale@[k]),
                cache_of(txn_tables(txn)) == start.kept(
                    Set::new(|n: u64| !stale@.take(i as int).contains(n)),
                ),
            decreases stale.len() - i,
        {
            let n = stale[i];
            let ghost before = stale@.take(i as int);
            let ghost after = stale@.take(i + 1);
            assert(!before.contains(n));
            assert(after == before.push(n));
            assert forall|m: u64| after.contains(m) <==> before.contains(m) || m == n by {
                if before.contains(m) {
                    let k = choose|k: int| 0 <= k < before.len() && before[k] == m;
                    assert(after[k] == m);
                }
                assert(after[i as int] == n);
            }
            assert(start.hashes.contains_key(stale@[i as int]));
            assert(cache_of(txn_tables(txn)).hashes.contains_key(n));
            match take(&mut txn, n) {
                Ok(()) => {
                    assert(cache_of(txn_tables(txn)) == start.kept(
                        Set::new(|n: u64| !after.contains(n)),
                    ));
                },
                Err(e) => {
                    return self.finish(txn, Err(e));
                },
            }
            i += 1;
        }
        assert(stale@.take(i as int) == stale@);
        self.finish(txn, Ok(()))
    }

    /// First half of bringing the cache in line with its directory: drops the messages whose files
    /// are gone. `names` are the names of all files in the directory; those that are no message
    /// numbers do not count. Returns the messages whose hashes are not recorded yet, each once.
    fn drop_stale(&mut self, names: &Vec<String>) -> (res: Result<Vec<u64>, CacheError>)
        requires
            old(self).wf(),
        ensures
            final(self).wf(),
            final(self).path() == old(self).path(),
            final(self).opened() == old(self).opened(),
            ({
                let present = listed(views(names@));
                match res {
                    Ok(unknown) => {
                        &&& final(self)@ == old(self)@.kept(present)
                        &&& unknown@.no_duplicates()
                        &&& unknown@.to_set() == present.difference(old(self)@.hashes.dom())
                    },
                    Err(CacheError::Commit(_)) => final(self)@ == old(self)@ || final(self)@
                        == old(self)@.kept(present),
                    Err(CacheError::Begin(_)) | Err(CacheError::Access(_)) => final(self)@ == old(
                        self,
                    )@,
                    Err(_) => false,
                }
            }),
    {
        let ghost start = self@;
        let ghost present_set = listed(views(names@));
        let cached_nums = match self.msgnums() {
            Ok(nums) => nums,
            Err(e) => return Err(e),
        };
        let present = listed_numbers(names);
        let cached = set_of(&cached_nums);
        let stale = missing_from(&cached_nums, &present);
        proof {
            assert forall|i: int| 0 <= i < stale.len() implies start.hashes.contains_key(
                #[trigger] stale@[i],
            ) by {
                assert(stale@.to_set().contains(stale@[i]));
            }
            assert forall|n: u64| start.hashes.contains_key(n) implies stale@.contains(n)
                == !present_set.contains(n) by {
                assert(stale@.to_set().contains(n) == !present_set.contains(n));
            }
            let rest = Set::new(|n: u64| !stale@.contains(n));
            assert(start.kept(rest) == start.kept(present_set));
            if stale.len() == 0 {
                assert(start.kept(present_set) == start);
            }
        }
        if stale.len() > 0 {
            if let Err(e) = self.remove_all(&stale) {
                return Err(e);
            }
        }
        let unknown = unrecorded(names, &cached);
        Ok(unknown)
    }

    /// Second half of bringing the cache in line with its directory: records the hashes of the
    /// messages that the first half found unrecorded and that could be read, in one transaction.
    fn add_hashes(&mut self, hashes: &Vec<(u64, MsgHash)>) -> (res: Result<(), CacheError>)
        requires
            old(self).wf(),
        ensures
            final(self).wf(),
            final(self).path() == old(self).path(),
            final(self).opened() == old(self).opened(),
            changed(old(self)@, old(self)@.with_all(hashes@), final(self)@, res),
    {
        let ghost start = self@;
        let mut txn = match begin_write(&mut self.db) {
            Ok(txn) => txn,
            Err(e) => return Err(CacheError::Begin(e)),
        };
        let mut i: usize = 0;
        assert(hashes@.take(0) == Seq::<(u64, MsgHash)>::empty());
        while i < hashes.len()
            invariant
                i <= hashes.len(),
                start == old(self)@,
                self@ == start,
                self.path() == old(self).path(),
                self.opened() == old(self).opened(),
                txn_database(txn) == db_identity(self.db),
                cache_of(txn_tables(txn)) == start.with_all(hashes@.take(i as int)),
            decreases hashes.len() - i,
        {
            assert(hashes@.take(i + 1).drop_last() == hashes@.take(i as int));
            if let Err(e) = put(&mut txn, hashes[i].0, &hashes[i].1) {
                return self.finish(txn, Err(e));
            }
            i += 1;
        }
        assert(hashes@.take(i as int) == hashes@);
        self.finish(txn, Ok(()))
    }

    /// Sync cache with its directory:
    /// Hash uncached files, drop deleted entries.
    ///
    /// `names` are the names of all files in the directory; those that are no message numbers do
    /// not count. `read` reads the file of a message, and gives `None` where it cannot be read:
    /// such a message is left out.
    pub fn sync_with_dir<F: Fn(u64) -> Option<Vec<u8>>>(
        &mut self,
        names: &Vec<String>,
        read: F,
    ) -> (res: Result<(), CacheError>)
        requires
            old(self).wf(),
            forall|n: u64| #[trigger] read.requires((n,)),
        ensures
            final(self).wf(),
            final(self).path() == old(self).path(),
            final(self).opened() == old(self).opened(),
            ({
                let present = listed(views(names@));
                let kept = old(self)@.kept(present);
                let unknown = present.difference(old(self)@.hashes.dom());
                match res {
                    Ok(()) => exists|entries: Seq<(u64, MsgHash)>| #[trigger]
                        are_hashes(read, unknown, entries) && final(self)@ == kept.with_all(
                            entries,
                        ),
                    Err(CacheError::Commit(_)) => final(self)@ == old(self)@ || final(self)@ == kept
                        || exists|entries: Seq<(u64, MsgHash)>| #[trigger]
                        are_hashes(read, unknown, entries) && final(self)@ == kept.with_all(
                            entries,
                        ),
                    Err(CacheError::Begin(_)) | Err(CacheError::Access(_)) => final(self)@ == old(
                        self,
                    )@ || final(self)@ == kept,
                    Err(_) => false,
                }
            }),
    {
        let unknown = match self.drop_stale(names) {
            Ok(unknown) => unknown,
            Err(e) => return Err(e),
        };
        let hashes = hash_all(&unknown, &read);
        assert(are_hashes(read, unknown@.to_set(), hashes@));
        self.add_hashes(&hashes)
    }
}

/// `entries` are the hashes of those messages of `unknown` that `read` could read, each once. Of
/// the others it could read none.
pub open spec fn are_hashes<F: Fn(u64) -> Option<Vec<u8>>>(
    read: F,
    unknown: Set<u64>,
    entries: Seq<(u64, MsgHash)>,
) -> bool {
    &&& forall|i: int, j: int|
        0 <= i < j < entries.len() ==> (#[trigger] entries[i]).0 != (#[trigger] entries[j]).0
    &&& forall|i: int|
        0 <= i < entries.len() ==> unknown.contains((#[trigger] entries[i]).0) && was_read(
            read,
            entries[i].0,
            entries[i].1@,
        )
    &&& forall|n: u64| #[trigger]
        unknown.contains(n) ==> read.ensures((n,), None) || exists|i: int|
            0 <= i < entries.len() && (#[trigger] entries[i]).0 == n
}

/// `read` read a file with the hash `hash` for message `n`.
pub open spec fn was_read<F: Fn(u64) -> Option<Vec<u8>>>(read: F, n: u64, hash: Seq<u8>) -> bool {
    exists|raw: Vec<u8>| #[trigger] read.ensures((n,), Some(raw)) && hash == sha3_224(raw@)
}

/// The hashes of those messages in `nums` that `read` can read.
fn hash_all<F: Fn(u64) -> Option<Vec<u8>>>(nums: &Vec<u64>, read: &F) -> (res: Vec<(u64, MsgHash)>)
    requires
        nums@.no_duplicates(),
        forall|n: u64| #[trigger] read.requires((n,)),
    ensures
        are_hashes(*read, nums@.to_set(), res@),
{
    let mut out: Vec<(u64, MsgHash)> = Vec::new();
    let mut i: usize = 0;
    while i < nums.len()
        invariant
            i <= nums.len(),
            nums@.no_duplicates(),
            forall|n: u64| #[trigger] read.requires((n,)),
            are_hashes(*read, nums@.take(i as int).to_set(), out@),
        decreases nums.len() - i,
    {
        let n: u64 = nums[i];
        let ghost before = out@;
        proof {
            lemma_take_to_set(nums@, i as int);
            if nums@.take(i as int).contains(n) {
                let k = choose|k: int| 0 <= k < i && nums@.take(i as int)[k] == n;
                assert(nums@[k] == n);
            }
        }
        if let Some(raw) = read(n) {
            out.push((n, compute_msg_hash(raw.as_slice())));
            assert(was_read(*read, n, out@[out@.len() - 1].1@));
        }
        assert forall|m: u64| #[trigger]
            nums@.take(i + 1).to_set().contains(m) implies read.ensures((m,), None) || exists|
            k: int,
        | 0 <= k < out.len() && (#[trigger] out@[k]).0 == m by {
            if m == n {
                assert(read.ensures((m,), None) || out@[out@.len() - 1].0 == m);
            } else {
                assert(nums@.take(i as int).to_set().contains(m));
                if !read.ensures((m,), None) {
                    let k = choose|k: int| 0 <= k < before.len() && (#[trigger] before[k]).0 == m;
                    assert(out@[k].0 == m);
                }
            }
        }
        i += 1;
    }
    assert(nums@.take(i as int) == nums@);
    out
}

/// A cache that records nothing.
pub open spec fn empty_cache() -> CacheView {
    CacheView { version: None, hashes: Map::empty(), ids: Set::empty() }
}

/// What came of listing a directory.
pub enum Listing {
    /// The names of all files in it.
    Names(Vec<String>),
    /// There is no such directory.
    Missing,
    /// The directory cannot be read.
    Failed,
}

/// The hashes of the messages that are in a directory, held in memory. It takes the place of the
/// hash cache where nothing may be written.
pub struct Survey {
    entries: Vec<(u64, MsgHash)>,
}

impl View for Survey {
    type V = CacheView;

    closed spec fn view(&self) -> CacheView {
        empty_cache().with_all(self.entries@)
    }
}

/// Whether two hashes are the same.
fn same_hash(a: &MsgHash, b: &MsgHash) -> (res: bool)
    ensures
        res == (a@ == b@),
{
    let mut i: usize = 0;
    while i < HASH_LEN
        invariant
            i <= HASH_LEN,
            forall|k: int| 0 <= k < i ==> a@[k] == b@[k],
        decreases HASH_LEN - i,
    {
        if a[i] != b[i] {
            return false;
        }
        i += 1;
    }
    assert(a@ =~= b@);
    true
}

impl Survey {
    /// Looks through the messages of a directory. `read` reads the file of a message, and gives
    /// `None` where it cannot be read: such a message is left out. A missing directory holds no
    /// messages. There is no survey of a directory that cannot be read.
    pub fn take<F: Fn(u64) -> Option<Vec<u8>>>(listing: Listing, read: F) -> (res: Option<Survey>)
        requires
            forall|n: u64| #[trigger] read.requires((n,)),
        ensures
            match listing {
                Listing::Names(names) => res matches Some(survey) && exists|
                    entries: Seq<(u64, MsgHash)>,
                | #[trigger]
                    are_hashes(read, listed(views(names@)), entries) && survey@
                        == empty_cache().with_all(entries),
                Listing::Missing => res matches Some(survey) && survey@ == empty_cache(),
                Listing::Failed => res is None,
            },
    {
        match listing {
            Listing::Names(names) => {
                let none: HashSet<u64> = HashSet::new();
                let nums = unrecorded(&names, &none);
                assert(nums@.to_set() =~= listed(views(names@)));
                let entries = hash_all(&nums, &read);
                assert(are_hashes(read, listed(views(names@)), entries@));
                Some(Survey { entries })
            },
            Listing::Missing => Some(Survey { entries: Vec::new() }),
            Listing::Failed => None,
        }
    }

    /// Check whether `hash` is present.
    pub fn contains_hash(&self, hash: &MsgHash) -> (res: bool)
        ensures
            res == self@.contains(hash@),
    {
        proof {
            only_recorded_hashes_are_found(self.entries@, hash@);
        }
        let mut i: usize = 0;
        while i < self.entries.len()
            invariant
                i <= self.entries.len(),
                forall|k: int| 0 <= k < i ==> (#[trigger] self.entries@[k]).1@ != hash@,
                self@.contains(hash@) <==> exists|k: int|
                    0 <= k < self.entries@.len() && (#[trigger] self.entries@[k]).1@ == hash@,
            decreases self.entries.len() - i,
        {
            if same_hash(&self.entries[i].1, hash) {
                assert(self.entries@[i as int].1@ == hash@);
                return true;
            }
            i += 1;
        }
        false
    }
}

/// A step of opening the cache of a mailbox.
#[derive(Debug, Clone, Copy, PartialEq, Eq, Structural)]
pub enum OpenStep {
    /// Load the database.
    Load,
    /// Bring the cache in line with the directory.
    Sync,
    /// Remove the database file, which cannot be used.
    Remove,
    /// Load the database that takes the place of the removed one.
    Reload,
    /// Bring the new cache in line with the directory.
    Resync,
    /// The cache can be used.
    Ready,
    /// The file could not be removed.
    RemoveFailed,
    /// The database could not be loaded even with the file removed.
    ReloadFailed,
    /// The new cache could not be brought in line with the directory.
    ResyncFailed,
}

impl OpenStep {
    /// Nothing is left to do.
    pub open spec fn is_last(self) -> bool {
        self is Ready || self is RemoveFailed || self is ReloadFailed || self is ResyncFailed
    }

    /// What follows a step that succeeded or failed.
    pub open spec fn successor(self, ok: bool) -> OpenStep {
        match self {
            OpenStep::Load => if ok { OpenStep::Sync } else { OpenStep::Remove },
            OpenStep::Sync => if ok { OpenStep::Ready } else { OpenStep::Remove },
            OpenStep::Remove => if ok { OpenStep::Reload } else { OpenStep::RemoveFailed },
            OpenStep::Reload => if ok { OpenStep::Resync } else { OpenStep::ReloadFailed },
            OpenStep::Resync => if ok { OpenStep::Ready } else { OpenStep::ResyncFailed },
            last => last,
        }
    }
}

/// The step that is reached from `step` by steps of the given outcomes.
pub open spec fn steps_from(step: OpenStep, outcomes: Seq<bool>) -> OpenStep
    decreases outcomes.len(),
{
    if outcomes.len() == 0 {
        step
    } else {
        steps_from(step, outcomes.drop_last()).successor(outcomes.last())
    }
}

/// How far a step is from the first one.
spec fn depth(step: OpenStep) -> int {
    match step {
        OpenStep::Load => 0,
        OpenStep::Sync => 1,
        OpenStep::Remove => 2,
        OpenStep::Reload => 3,
        OpenStep::Resync => 4,
        _ => 5,
    }
}

/// Opening a cache ends after five steps at most, whatever fails.
pub proof fn opening_ends(outcomes: Seq<bool>)
    requires
        outcomes.len() >= 5,
    ensures
        steps_from(OpenStep::Load, outcomes).is_last(),
{
    lemma_depth(outcomes);
}

proof fn lemma_depth(outcomes: Seq<bool>)
    ensures
        ({
            let step = steps_from(OpenStep::Load, outcomes);
            step.is_last() || depth(step) >= outcomes.len()
        }),
    decreases outcomes.len(),
{
    if outcomes.len() > 0 {
        lemma_depth(outcomes.drop_last());
    }
}

/// Opening a cache succeeds wherever the steps that follow a removal of the file succeed.
pub proof fn opening_recovers(first: bool, second: bool)
    ensures
        ({
            let after_removal = steps_from(OpenStep::Remove, seq![true, true, true]);
            let started = steps_from(OpenStep::Load, seq![first, second]);
            &&& after_removal == OpenStep::Ready
            &&& first && second ==> started == OpenStep::Ready
            &&& first && !second ==> started == OpenStep::Remove
            &&& !first ==> steps_from(OpenStep::Load, seq![first]) == OpenStep::Remove
        }),
{
    reveal_with_fuel(steps_from, 4);
    assert(seq![true, true, true].drop_last() == seq![true, true]);
    assert(seq![true, true].drop_last() == seq![true]);
    assert(seq![first, second].drop_last() == seq![first]);
}

/// A recorded hash is found, and so is every hash that was found before.
pub proof fn inserted_hash_is_found(cache: CacheView, n: u64, hash: Seq<u8>, other: Seq<u8>)
    ensures
        cache.with(n, hash).contains(hash),
        cache.contains(other) ==> cache.with(n, hash).contains(other),
        cache.with(n, hash).contains(other) ==> other == hash || cache.contains(other),
{
    assert(cache.with(n, hash).ids.contains((hash, n)));
    if cache.contains(other) {
        let m = choose|m: u64| cache.ids.contains((other, m));
        assert(cache.with(n, hash).ids.contains((other, m)));
    }
    if cache.with(n, hash).contains(other) && other != hash {
        let m = choose|m: u64| cache.with(n, hash).ids.contains((other, m));
        assert(cache.ids.contains((other, m)));
    }
}

/// Where the tables agree, the hash of every recorded message is found.
pub proof fn recorded_hash_is_found(cache: CacheView, n: u64)
    requires
        cache.consistent(),
        cache.hashes.contains_key(n),
    ensures
        cache.contains(cache.hashes[n]),
{
    assert(cache.ids.contains((cache.hashes[n], n)));
}

/// Recording a message keeps the two tables in agreement, unless it is recorded already with
/// another hash.
pub proof fn insert_keeps_consistency(cache: CacheView, n: u64, hash: Seq<u8>)
    requires
        cache.consistent(),
        cache.hashes.contains_key(n) ==> cache.hashes[n] == hash,
    ensures
        cache.with(n, hash).consistent(),
{
    let after = cache.with(n, hash);
    assert forall|h: Seq<u8>, m: u64| #[trigger]
        after.ids.contains((h, m)) <==> (after.hashes.contains_key(m) && after.hashes[m] == h) by {
        assert(cache.ids.contains((h, m)) <==> (cache.hashes.contains_key(m) && cache.hashes[m]
            == h));
    }
}

/// Dropping messages keeps the two tables in agreement.
pub proof fn dropping_keeps_consistency(cache: CacheView, present: Set<u64>)
    requires
        cache.consistent(),
    ensures
        cache.kept(present).consistent(),
{
    let after = cache.kept(present);
    assert forall|h: Seq<u8>, m: u64| #[trigger]
        after.ids.contains((h, m)) <==> (after.hashes.contains_key(m) && after.hashes[m] == h) by {
        assert(cache.ids.contains((h, m)) <==> (cache.hashes.contains_key(m) && cache.hashes[m]
            == h));
    }
}

/// Tables that agree have the same length, so that a cache which was left in agreement is never
/// refused for its lengths.
pub proof fn consistent_lengths_agree(cache: CacheView)
    requires
        cache.consistent(),
        cache.hashes.dom().finite(),
    ensures
        cache.ids.finite(),
        cache.ids.len() == cache.hashes.len(),
    decreases cache.hashes.len(),
{
    if cache.hashes.len() == 0 {
        cache.hashes.dom().lemma_len0_is_empty();
        assert forall|pair: (Seq<u8>, u64)| !cache.ids.contains(pair) by {
            assert(cache.ids.contains((pair.0, pair.1)) ==> cache.hashes.contains_key(pair.1));
        }
        assert(cache.ids =~= Set::empty());
    } else {
        let n = cache.hashes.dom().choose();
        assert(cache.hashes.contains_key(n));
        let smaller = cache.without(n);
        assert forall|h: Seq<u8>, m: u64| #[trigger]
            smaller.ids.contains((h, m)) <==> (smaller.hashes.contains_key(m) && smaller.hashes[m]
                == h) by {
            assert(cache.ids.contains((h, m)) <==> (cache.hashes.contains_key(m) && cache.hashes[m]
                == h));
        }
        consistent_lengths_agree(smaller);
        let pair = (cache.hashes[n], n);
        assert(cache.ids.contains(pair));
        assert(cache.ids =~= smaller.ids.insert(pair));
    }
}

/// What recording `entries` with different numbers adds to `cache`.
proof fn lemma_with_all(cache: CacheView, entries: Seq<(u64, MsgHash)>)
    requires
        cache.consistent(),
        forall|i: int, j: int|
            0 <= i < j < entries.len() ==> (#[trigger] entries[i]).0 != (#[trigger] entries[j]).0,
        forall|i: int|
            0 <= i < entries.len() ==> !cache.hashes.contains_key((#[trigger] entries[i]).0),
    ensures
        cache.with_all(entries).consistent(),
        forall|n: u64| #[trigger]
            cache.with_all(entries).hashes.contains_key(n) <==> cache.hashes.contains_key(n) || exists|
                i: int,
            | 0 <= i < entries.len() && (#[trigger] entries[i]).0 == n,
        forall|n: u64| #[trigger]
            cache.hashes.contains_key(n) ==> cache.with_all(entries).hashes[n] == cache.hashes[n],
        forall|i: int|
            0 <= i < entries.len() ==> cache.with_all(entries).hashes[(#[trigger] entries[i]).0]
                == entries[i].1@,
    decreases entries.len(),
{
    if entries.len() > 0 {
        let front = entries.drop_last();
        let (n, hash) = entries.last();
        assert forall|i: int| 0 <= i < front.len() implies front[i] == entries[i] by {}
        lemma_with_all(cache, front);
        let before = cache.with_all(front);
        let after = cache.with_all(entries);
        assert(!cache.hashes.contains_key(entries[entries.len() - 1].0));
        assert(!before.hashes.contains_key(n)) by {
            if before.hashes.contains_key(n) {
                let i = choose|i: int| 0 <= i < front.len() && (#[trigger] front[i]).0 == n;
                assert(entries[i].0 != entries[entries.len() - 1].0);
            }
        }
        insert_keeps_consistency(before, n, hash@);
        assert(after == before.with(n, hash@));
        assert forall|m: u64| #[trigger]
            after.hashes.contains_key(m) <==> cache.hashes.contains_key(m) || exists|i: int|
                0 <= i < entries.len() && (#[trigger] entries[i]).0 == m by {
            if after.hashes.contains_key(m) && !cache.hashes.contains_key(m) {
                if m == n {
                    assert(entries[entries.len() - 1].0 == m);
                } else {
                    assert(before.hashes.contains_key(m));
                    let i = choose|i: int| 0 <= i < front.len() && (#[trigger] front[i]).0 == m;
                    assert(entries[i].0 == m);
                }
            }
            if exists|i: int| 0 <= i < entries.len() && (#[trigger] entries[i]).0 == m {
                let i = choose|i: int| 0 <= i < entries.len() && (#[trigger] entries[i]).0 == m;
                if i < front.len() {
                    assert(front[i].0 == m);
                    assert(before.hashes.contains_key(m));
                }
            }
            if cache.hashes.contains_key(m) {
                assert(before.hashes.contains_key(m));
            }
        }
        assert forall|m: u64| #[trigger] cache.hashes.contains_key(m) implies after.hashes[m]
            == cache.hashes[m] by {
            assert(m != n);
        }
        assert forall|i: int| 0 <= i < entries.len() implies after.hashes[(
            #[trigger] entries[i]).0] == entries[i].1@ by {
            if i < front.len() {
                assert(front[i] == entries[i]);
                assert(entries[i].0 != entries[entries.len() - 1].0);
            }
        }
    }
}

/// Bringing a cache in line with its directory works. `present` are the messages that the
/// directory lists, and `entries` the hashes of those that were not recorded and could be read.
/// Afterwards exactly the messages that were recorded and are still there, and those that were
/// read, are recorded; the former keep their hashes, the latter have the hashes that were
/// computed; and the tables agree. Where every file could be read, the cache records exactly the
/// messages of the directory.
pub proof fn sync_follows_directory(
    cache: CacheView,
    present: Set<u64>,
    entries: Seq<(u64, MsgHash)>,
)
    requires
        cache.consistent(),
        forall|i: int, j: int|
            0 <= i < j < entries.len() ==> (#[trigger] entries[i]).0 != (#[trigger] entries[j]).0,
        forall|i: int|
            0 <= i < entries.len() ==> present.difference(cache.hashes.dom()).contains(
                (#[trigger] entries[i]).0,
            ),
    ensures
        ({
            let synced = cache.kept(present).with_all(entries);
            &&& synced.consistent()
            &&& synced.version == cache.version
            &&& forall|n: u64| #[trigger]
                synced.hashes.contains_key(n) <==> (present.contains(n)
                    && cache.hashes.contains_key(n)) || exists|i: int|
                    0 <= i < entries.len() && (#[trigger] entries[i]).0 == n
            &&& forall|n: u64| #[trigger]
                cache.hashes.contains_key(n) && present.contains(n) ==> synced.hashes[n]
                    == cache.hashes[n]
            &&& forall|i: int|
                0 <= i < entries.len() ==> synced.hashes[(#[trigger] entries[i]).0]
                    == entries[i].1@
            &&& (forall|n: u64| #[trigger]
                present.difference(cache.hashes.dom()).contains(n) ==> exists|i: int|
                    0 <= i < entries.len() && (#[trigger] entries[i]).0 == n) ==> synced.hashes.dom()
                == present
        }),
{
    let kept = cache.kept(present);
    let synced = kept.with_all(entries);
    dropping_keeps_consistency(cache, present);
    assert forall|i: int| 0 <= i < entries.len() implies !kept.hashes.contains_key(
        (#[trigger] entries[i]).0,
    ) by {
        assert(present.difference(cache.hashes.dom()).contains(entries[i].0));
    }
    lemma_with_all(kept, entries);
    lemma_with_all_keeps_version(kept, entries);
    assert forall|n: u64| #[trigger] cache.hashes.contains_key(n) && present.contains(
        n,
    ) implies synced.hashes[n] == cache.hashes[n] by {
        assert(kept.hashes.contains_key(n));
    }
    if forall|n: u64| #[trigger]
        present.difference(cache.hashes.dom()).contains(n) ==> exists|i: int|
            0 <= i < entries.len() && (#[trigger] entries[i]).0 == n {
        assert forall|n: u64| synced.hashes.dom().contains(n) <==> present.contains(n) by {
            if synced.hashes.contains_key(n) && !kept.hashes.contains_key(n) {
                let i = choose|i: int| 0 <= i < entries.len() && (#[trigger] entries[i]).0 == n;
                assert(present.difference(cache.hashes.dom()).contains(entries[i].0));
            }
            if present.contains(n) && !cache.hashes.contains_key(n) {
                assert(present.difference(cache.hashes.dom()).contains(n));
            }
        }
        assert(synced.hashes.dom() =~= present);
    }
}

proof fn lemma_with_all_keeps_version(cache: CacheView, entries: Seq<(u64, MsgHash)>)
    ensures
        cache.with_all(entries).version == cache.version,
    decreases entries.len(),
{
    if entries.len() > 0 {
        lemma_with_all_keeps_version(cache, entries.drop_last());
    }
}

/// Of the hashes that are recorded one after the other each is found, and so is every hash that
/// was found before, and no other.
pub proof fn recorded_hashes_are_found(
    cache: CacheView,
    entries: Seq<(u64, MsgHash)>,
    hash: Seq<u8>,
)
    ensures
        cache.with_all(entries).contains(hash) <==> cache.contains(hash) || exists|i: int|
            0 <= i < entries.len() && (#[trigger] entries[i]).1@ == hash,
    decreases entries.len(),
{
    if entries.len() > 0 {
        let front = entries.drop_last();
        let last = entries.last();
        recorded_hashes_are_found(cache, front, hash);
        inserted_hash_is_found(cache.with_all(front), last.0, last.1@, hash);
        assert(entries[entries.len() - 1] == last);
        assert(forall|i: int| 0 <= i < front.len() ==> front[i] == entries[i]);
        if exists|i: int| 0 <= i < front.len() && (#[trigger] front[i]).1@ == hash {
            let i = choose|i: int| 0 <= i < front.len() && (#[trigger] front[i]).1@ == hash;
            assert(entries[i].1@ == hash);
        }
        if exists|i: int| 0 <= i < entries.len() && (#[trigger] entries[i]).1@ == hash {
            let i = choose|i: int| 0 <= i < entries.len() && (#[trigger] entries[i]).1@ == hash;
            if i < front.len() {
                assert(front[i].1@ == hash);
            }
        }
    }
}

/// Of a cache that records nothing, exactly the hashes that were recorded since are found.
pub proof fn only_recorded_hashes_are_found(entries: Seq<(u64, MsgHash)>, hash: Seq<u8>)
    ensures
        empty_cache().with_all(entries).contains(hash) <==> exists|i: int|
            0 <= i < entries.len() && (#[trigger] entries[i]).1@ == hash,
{
    recorded_hashes_are_found(empty_cache(), entries, hash);
}

/// Recording messages keeps a cache finite.
proof fn lemma_with_all_finite(cache: CacheView, entries: Seq<(u64, MsgHash)>)
    requires
        cache.hashes.dom().finite(),
    ensures
        cache.with_all(entries).hashes.dom().finite(),
    decreases entries.len(),
{
    if entries.len() > 0 {
        lemma_with_all_finite(cache, entries.drop_last());
        let before = cache.with_all(entries.drop_last());
        let last = entries.last();
        assert(cache.with_all(entries).hashes.dom() =~= before.hashes.dom().insert(last.0));
    }
}

/// Records outlive closing the cache and loading it again, as long as the file holds what was left
/// in it. A cache that was loaded from an empty file, and in which messages with different numbers
/// were recorded, can be used again; it then records the same, and exactly the hashes of these
/// messages are found.
pub proof fn records_outlive_loading_again(entries: Seq<(u64, MsgHash)>, hash: Seq<u8>)
    requires
        forall|i: int, j: int|
            0 <= i < j < entries.len() ==> (#[trigger] entries[i]).0 != (#[trigger] entries[j]).0,
    ensures
        empty_cache().is_usable(),
        ({
            let left = empty_cache().loaded().with_all(entries);
            &&& left.is_usable()
            &&& left.loaded() == left
            &&& left.loaded().contains(hash) <==> exists|i: int|
                0 <= i < entries.len() && (#[trigger] entries[i]).1@ == hash
        }),
{
    let fresh = empty_cache().loaded();
    let left = fresh.with_all(entries);
    lemma_with_all(fresh, entries);
    lemma_with_all_keeps_version(fresh, entries);
    lemma_with_all_finite(fresh, entries);
    consistent_lengths_agree(left);
    recorded_hashes_are_found(fresh, entries, hash);
    assert(!fresh.contains(hash));
}

/// Which messages are recorded once `entries` have been.
proof fn lemma_with_all_numbers(cache: CacheView, entries: Seq<(u64, MsgHash)>)
    ensures
        forall|n: u64| #[trigger]
            cache.with_all(entries).hashes.contains_key(n) <==> cache.hashes.contains_key(n) || exists|
                i: int,
            | 0 <= i < entries.len() && (#[trigger] entries[i]).0 == n,
    decreases entries.len(),
{
    if entries.len() > 0 {
        let front = entries.drop_last();
        lemma_with_all_numbers(cache, front);
        let before = cache.with_all(front);
        let after = cache.with_all(entries);
        assert(entries[entries.len() - 1] == entries.last());
        assert forall|n: u64| #[trigger]
            after.hashes.contains_key(n) <==> cache.hashes.contains_key(n) || exists|i: int|
                0 <= i < entries.len() && (#[trigger] entries[i]).0 == n by {
            if before.hashes.contains_key(n) && !cache.hashes.contains_key(n) {
                let i = choose|i: int| 0 <= i < front.len() && (#[trigger] front[i]).0 == n;
                assert(entries[i].0 == n);
            }
            if exists|i: int| 0 <= i < entries.len() && (#[trigger] entries[i]).0 == n {
                let i = choose|i: int| 0 <= i < entries.len() && (#[trigger] entries[i]).0 == n;
                if i < front.len() {
                    assert(front[i].0 == n);
                    assert(before.hashes.contains_key(n));
                }
            }
            if cache.hashes.contains_key(n) {
                assert(before.hashes.contains_key(n));
            }
        }
    }
}

/// The files stay as they are: whoever reads one twice reads the same.
pub open spec fn is_steady<F: Fn(u64) -> Option<Vec<u8>>>(read: F) -> bool {
    forall|n: u64, a: Option<Vec<u8>>, b: Option<Vec<u8>>|
        #![trigger read.ensures((n,), a), read.ensures((n,), b)]
        read.ensures((n,), a) && read.ensures((n,), b) ==> match (a, b) {
            (Some(x), Some(y)) => x@ == y@,
            (None, None) => true,
            _ => false,
        }
}

/// Bringing a cache in line with its directory a second time changes nothing, as long as the files
/// stay as they are. That holds for files that cannot be read, and for tables that do not agree.
pub proof fn second_sync_changes_nothing<F: Fn(u64) -> Option<Vec<u8>>>(
    cache: CacheView,
    present: Set<u64>,
    read: F,
    entries: Seq<(u64, MsgHash)>,
    again: Seq<(u64, MsgHash)>,
)
    requires
        is_steady(read),
        are_hashes(read, present.difference(cache.hashes.dom()), entries),
        are_hashes(
            read,
            present.difference(cache.kept(present).with_all(entries).hashes.dom()),
            again,
        ),
    ensures
        again.len() == 0,
        ({
            let synced = cache.kept(present).with_all(entries);
            synced.kept(present).with_all(again) == synced
        }),
{
    let kept = cache.kept(present);
    let synced = kept.with_all(entries);
    let unknown = present.difference(cache.hashes.dom());
    lemma_with_all_numbers(kept, entries);
    if again.len() > 0 {
        let n = again[0].0;
        assert(present.difference(synced.hashes.dom()).contains(n));
        assert(!synced.hashes.contains_key(n));
        assert(!kept.hashes.contains_key(n));
        assert(unknown.contains(n));
        assert(was_read(read, n, again[0].1@));
        let raw = choose|raw: Vec<u8>| #[trigger] read.ensures((n,), Some(raw)) && again[0].1@
            == sha3_224(raw@);
        let none: Option<Vec<u8>> = None;
        assert(read.ensures((n,), none) && read.ensures((n,), Some(raw)));
        assert(false);
    }
    assert forall|n: u64| synced.hashes.contains_key(n) implies present.contains(n) by {
        if !kept.hashes.contains_key(n) {
            let i = choose|i: int| 0 <= i < entries.len() && (#[trigger] entries[i]).0 == n;
            assert(unknown.contains(entries[i].0));
        }
    }
    assert(synced.kept(present) =~= synced);
}

/// A cache is in line with its directory: its tables agree, what it records are messages that the
/// directory lists, with the hashes of their files, and the messages that it does not record
/// cannot be read.
pub open spec fn in_line<F: Fn(u64) -> Option<Vec<u8>>>(
    cache: CacheView,
    read: F,
    present: Set<u64>,
) -> bool {
    &&& cache.consistent()
    &&& forall|n: u64| #[trigger]
        cache.hashes.contains_key(n) ==> present.contains(n) && was_read(read, n, cache.hashes[n])
    &&& forall|n: u64| #[trigger]
        present.contains(n) ==> cache.hashes.contains_key(n) || read.ensures((n,), None)
}

/// A cache that has been brought in line with its directory is in line with it, as long as the
/// messages that it had recorded and that are still there have kept their contents.
pub proof fn synced_cache_is_in_line<F: Fn(u64) -> Option<Vec<u8>>>(
    cache: CacheView,
    present: Set<u64>,
    read: F,
    entries: Seq<(u64, MsgHash)>,
)
    requires
        cache.consistent(),
        forall|n: u64| #[trigger]
            cache.hashes.contains_key(n) && present.contains(n) ==> was_read(
                read,
                n,
                cache.hashes[n],
            ),
        are_hashes(read, present.difference(cache.hashes.dom()), entries),
    ensures
        in_line(cache.kept(present).with_all(entries), read, present),
{
    let kept = cache.kept(present);
    let synced = kept.with_all(entries);
    let unknown = present.difference(cache.hashes.dom());
    assert forall|i: int| 0 <= i < entries.len() implies unknown.contains(
        (#[trigger] entries[i]).0,
    ) by {}
    sync_follows_directory(cache, present, entries);
    assert forall|n: u64| #[trigger] synced.hashes.contains_key(n) implies present.contains(n)
        && was_read(read, n, synced.hashes[n]) by {
        if present.contains(n) && cache.hashes.contains_key(n) {
            assert(synced.hashes[n] == cache.hashes[n]);
        } else {
            let i = choose|i: int| 0 <= i < entries.len() && (#[trigger] entries[i]).0 == n;
            assert(unknown.contains(entries[i].0));
            assert(synced.hashes[entries[i].0] == entries[i].1@);
        }
    }
    assert forall|n: u64| #[trigger] present.contains(n) implies synced.hashes.contains_key(n)
        || read.ensures((n,), None) by {
        if !cache.hashes.contains_key(n) {
            assert(unknown.contains(n));
        }
    }
}

/// A survey is in line with the directory that it looked through.
pub proof fn survey_is_in_line<F: Fn(u64) -> Option<Vec<u8>>>(
    present: Set<u64>,
    read: F,
    entries: Seq<(u64, MsgHash)>,
)
    requires
        are_hashes(read, present, entries),
    ensures
        in_line(empty_cache().with_all(entries), read, present),
{
    assert(empty_cache().kept(present) =~= empty_cache());
    assert(present.difference(empty_cache().hashes.dom()) =~= present);
    synced_cache_is_in_line(empty_cache(), present, read, entries);
}

/// Two caches that are in line with the same directory find the same hashes.
pub proof fn caches_in_line_agree<F: Fn(u64) -> Option<Vec<u8>>>(
    a: CacheView,
    b: CacheView,
    read: F,
    present: Set<u64>,
    hash: Seq<u8>,
)
    requires
        is_steady(read),
        in_line(a, read, present),
        in_line(b, read, present),
    ensures
        a.contains(hash) == b.contains(hash),
{
    if a.contains(hash) {
        lemma_found_in_line(a, b, read, present, hash);
    }
    if b.contains(hash) {
        lemma_found_in_line(b, a, read, present, hash);
    }
}

proof fn lemma_found_in_line<F: Fn(u64) -> Option<Vec<u8>>>(
    a: CacheView,
    b: CacheView,
    read: F,
    present: Set<u64>,
    hash: Seq<u8>,
)
    requires
        is_steady(read),
        in_line(a, read, present),
        in_line(b, read, present),
        a.contains(hash),
    ensures
        b.contains(hash),
{
    let n = choose|n: u64| a.ids.contains((hash, n));
    assert(a.hashes.contains_key(n) && a.hashes[n] == hash);
    let raw = choose|raw: Vec<u8>| #[trigger] read.ensures((n,), Some(raw)) && hash == sha3_224(
        raw@,
    );
    assert(present.contains(n));
    let none: Option<Vec<u8>> = None;
    assert(!(read.ensures((n,), none) && read.ensures((n,), Some(raw))));
    assert(b.hashes.contains_key(n));
    let other = choose|other: Vec<u8>| #[trigger] read.ensures((n,), Some(other)) && b.hashes[n]
        == sha3_224(other@);
    assert(raw@ == other@);
    assert(b.ids.contains((hash, n)));
}

/// Opening goes in order: load, sync; and where one of these fails, remove, load again, sync again.
/// What fails behind the removal is told.
pub proof fn opening_goes_in_order(outcomes: Seq<bool>)
    ensures
        ({
            let step = steps_from(OpenStep::Load, outcomes);
            let n = outcomes.len();
            if n == 0 {
                step is Load
            } else if outcomes[0] && n == 1 {
                step is Sync
            } else if outcomes[0] && outcomes[1] {
                step is Ready
            } else {
                let k = if outcomes[0] {
                    2int
                } else {
                    1
                };
                if n == k {
                    step is Remove
                } else if !outcomes[k] {
                    step is RemoveFailed
                } else if n == k + 1 {
                    step is Reload
                } else if !outcomes[k + 1] {
                    step is ReloadFailed
                } else if n == k + 2 {
                    step is Resync
                } else if !outcomes[k + 2] {
                    step is ResyncFailed
                } else {
                    step is Ready
                }
            }
        }),
    decreases outcomes.len(),
{
    if outcomes.len() > 0 {
        opening_goes_in_order(outcomes.drop_last());
    }
}

/// The numbers that a directory lists are those that its file names name, and a file that is named
/// by the numeral of a number lists it.
pub proof fn listed_numbers_are_named(names: Seq<Seq<char>>, n: u64)
    ensures
        listed(names).contains(n) <==> exists|i: int|
            0 <= i < names.len() && #[trigger] number(names[i]) == Some(n),
        names.contains(decimal(n as nat)) ==> listed(names).contains(n),
{
    decimal_reads_back(n);
    if names.contains(decimal(n as nat)) {
        let i = choose|i: int| 0 <= i < names.len() && names[i] == decimal(n as nat);
        assert(number(names[i]) == Some(n));
    }
}

/// A change of a cache is made whole or not at all. One that succeeded is made.
pub proof fn change_is_all_or_nothing(
    before: CacheView,
    after: CacheView,
    found: CacheView,
    res: Result<(), CacheError>,
)
    requires
        changed(before, after, found, res),
    ensures
        found == before || found == after,
        res is Ok ==> found == after,
        res matches Err(e) && !(e is Commit) ==> found == before,
{
}

/// A cache whose tables agree can be used, unless another version is written down; one with another
/// version, or with tables of different lengths, cannot.
pub proof fn usable_caches(cache: CacheView)
    ensures
        cache.consistent() && cache.hashes.dom().finite() && (cache.version is None
            || cache.version == Some(VERSION@)) ==> cache.is_usable(),
        cache.version is Some && cache.version != Some(VERSION@) ==> !cache.is_usable(),
        cache.hashes.len() != cache.ids.len() ==> !cache.is_usable(),
        cache.loaded().hashes == cache.hashes && cache.loaded().ids == cache.ids,
{
    if cache.consistent() && cache.hashes.dom().finite() {
        consistent_lengths_agree(cache);
    }
}

/// Where the tables agree, a hash is found exactly where a recorded message has it.
pub proof fn found_hash_is_recorded(cache: CacheView, hash: Seq<u8>)
    requires
        cache.consistent(),
    ensures
        cache.contains(hash) <==> exists|n: u64| #[trigger]
            cache.hashes.contains_key(n) && cache.hashes[n] == hash,
{
    if cache.contains(hash) {
        let n = choose|n: u64| cache.ids.contains((hash, n));
        assert(cache.hashes.contains_key(n) && cache.hashes[n] == hash);
    }
    if exists|n: u64| #[trigger] cache.hashes.contains_key(n) && cache.hashes[n] == hash {
        let n = choose|n: u64| #[trigger] cache.hashes.contains_key(n) && cache.hashes[n] == hash;
        assert(cache.ids.contains((hash, n)));
    }
}

/// Recording a message records it with its hash, and leaves what is recorded of all others as it
/// was. Dropping messages drops those that are not present, and leaves the others as they were.
pub proof fn changes_touch_nothing_else(
    cache: CacheView,
    n: u64,
    hash: Seq<u8>,
    present: Set<u64>,
    m: u64,
)
    ensures
        cache.with(n, hash).hashes.contains_key(n) && cache.with(n, hash).hashes[n] == hash,
        m != n ==> cache.with(n, hash).hashes.contains_key(m) == cache.hashes.contains_key(m),
        m != n && cache.hashes.contains_key(m) ==> cache.with(n, hash).hashes[m]
            == cache.hashes[m],
        cache.kept(present).hashes.contains_key(m) <==> cache.hashes.contains_key(m)
            && present.contains(m),
        cache.kept(present).hashes.contains_key(m) ==> cache.kept(present).hashes[m]
            == cache.hashes[m],
        cache.with(n, hash).version == cache.version,
        cache.kept(present).version == cache.version,
{
}

/// A message with the contents of a file in the directory is found in a cache that is in line with
/// the directory, if the file can be read. And a hash that is found is that of such a file.
pub proof fn messages_in_directory_are_found<F: Fn(u64) -> Option<Vec<u8>>>(
    cache: CacheView,
    read: F,
    present: Set<u64>,
    n: u64,
    raw: Vec<u8>,
    hash: Seq<u8>,
)
    requires
        is_steady(read),
        in_line(cache, read, present),
    ensures
        present.contains(n) && read.ensures((n,), Some(raw)) ==> cache.contains(sha3_224(raw@)),
        cache.contains(hash) ==> exists|m: u64, other: Vec<u8>| #[trigger]
            read.ensures((m,), Some(other)) && present.contains(m) && hash == sha3_224(other@),
{
    if present.contains(n) && read.ensures((n,), Some(raw)) {
        let none: Option<Vec<u8>> = None;
        assert(!(read.ensures((n,), none) && read.ensures((n,), Some(raw))));
        assert(cache.hashes.contains_key(n));
        assert(was_read(read, n, cache.hashes[n]));
        let other = choose|other: Vec<u8>| #[trigger]
            read.ensures((n,), Some(other)) && cache.hashes[n] == sha3_224(other@);
        assert(raw@ == other@);
        assert(cache.ids.contains((sha3_224(raw@), n)));
    }
    if cache.contains(hash) {
        let m = choose|m: u64| cache.ids.contains((hash, m));
        assert(cache.hashes.contains_key(m) && cache.hashes[m] == hash);
        assert(was_read(read, m, hash));
        let other = choose|other: Vec<u8>| #[trigger]
            read.ensures((m,), Some(other)) && hash == sha3_224(other@);
        assert(read.ensures((m,), Some(other)) && present.contains(m));
    }
}

} // verus!
