//! The embedded database, as the hash cache uses it.
//!
//! A database holds named tables of three kinds: texts by text, byte strings by number, and pairs
//! of a byte string and a number. A table that is not there holds nothing, and no table has an
//! empty name: making a table definition with one panics. Everything is read and written in
//! transactions. What is claimed of a database here holds as long as nobody else writes to it, and
//! the hash cache hands its database to nobody.
use redb::{
    Database, MultimapTableDefinition, ReadTransaction, ReadableDatabase, ReadableTable,
    ReadableTableMetadata, TableDefinition, TableError, WriteTransaction,
};
use vstd::prelude::*;

verus! {

#[verifier::external_type_specification]
#[verifier::external_body]
pub struct ExDatabase(Database);

#[verifier::external_type_specification]
#[verifier::external_body]
pub struct ExWriteTransaction(WriteTransaction);

#[verifier::external_type_specification]
#[verifier::external_body]
pub struct ExReadTransaction(ReadTransaction);

#[verifier::external_type_specification]
#[verifier::external_body]
pub struct ExError(redb::Error);

/// What a database holds, by the names of its tables.
pub struct Tables {
    pub texts: Map<Seq<char>, Map<Seq<char>, Seq<char>>>,
    pub numbers: Map<Seq<char>, Map<u64, Seq<u8>>>,
    pub pairs: Map<Seq<char>, Set<(Seq<u8>, u64)>>,
}

/// The tables that the last commit left in a database.
pub uninterp spec fn db_tables(db: Database) -> Tables;

/// The tables that a database held when it was opened.
pub uninterp spec fn db_opened(db: Database) -> Tables;

/// The path at which a database was opened.
pub uninterp spec fn db_path(db: Database) -> Seq<char>;

/// Which database it is.
pub uninterp spec fn db_identity(db: Database) -> int;

/// A write transaction of the database is open.
pub uninterp spec fn db_writing(db: Database) -> bool;

/// The tables as a write transaction sees them.
pub uninterp spec fn txn_tables(txn: WriteTransaction) -> Tables;

/// The database that a write transaction writes to.
pub uninterp spec fn txn_database(txn: WriteTransaction) -> int;

/// The tables as a read transaction sees them.
pub uninterp spec fn read_tables(txn: ReadTransaction) -> Tables;

impl Tables {
    /// The entries of the table of texts `name`.
    pub open spec fn text(self, name: Seq<char>) -> Map<Seq<char>, Seq<char>> {
        if self.texts.contains_key(name) {
            self.texts[name]
        } else {
            Map::empty()
        }
    }

    /// The entries of the table of byte strings `name`.
    pub open spec fn number(self, name: Seq<char>) -> Map<u64, Seq<u8>> {
        if self.numbers.contains_key(name) {
            self.numbers[name]
        } else {
            Map::empty()
        }
    }

    /// The pairs of the table of pairs `name`.
    pub open spec fn pair(self, name: Seq<char>) -> Set<(Seq<u8>, u64)> {
        if self.pairs.contains_key(name) {
            self.pairs[name]
        } else {
            Set::empty()
        }
    }

    pub open spec fn with_text(self, name: Seq<char>, entries: Map<Seq<char>, Seq<char>>) -> Tables {
        Tables { texts: self.texts.insert(name, entries), ..self }
    }

    pub open spec fn with_number(self, name: Seq<char>, entries: Map<u64, Seq<u8>>) -> Tables {
        Tables { numbers: self.numbers.insert(name, entries), ..self }
    }

    pub open spec fn with_pair(self, name: Seq<char>, entries: Set<(Seq<u8>, u64)>) -> Tables {
        Tables { pairs: self.pairs.insert(name, entries), ..self }
    }
}

/// Why a read found nothing to read from.
pub enum ReadFault {
    /// There is no such table.
    MissingTable,
    Failed(redb::Error),
}

/// `Database::create` opens the database file at `path`, or makes an empty one. What the file
/// holds, and whether it can be opened, is up to the disk. No transaction of a database that has
/// just been opened is open, and it holds what it held when it was opened.
#[verifier::external_body]
pub(crate) fn create(path: &str) -> (res: Result<Database, redb::Error>)
    ensures
        res matches Ok(db) ==> !db_writing(db) && db_path(db) == path@ && db_opened(db) == db_tables(
            db,
        ),
{
    Database::create(path).map_err(redb::Error::from)
}

/// `Database::begin_write` opens a write transaction, which sees what was committed last. With
/// one open already it would wait forever.
#[verifier::external_body]
pub(crate) fn begin_write(db: &mut Database) -> (res: Result<WriteTransaction, redb::Error>)
    requires
        !db_writing(*old(db)),
    ensures
        db_tables(*final(db)) == db_tables(*old(db)),
        db_identity(*final(db)) == db_identity(*old(db)),
        db_path(*final(db)) == db_path(*old(db)),
        db_opened(*final(db)) == db_opened(*old(db)),
        db_writing(*final(db)) == (res is Ok),
        res matches Ok(txn) ==> txn_tables(txn) == db_tables(*old(db)) && txn_database(txn)
            == db_identity(*old(db)),
{
    db.begin_write().map_err(redb::Error::from)
}

/// `WriteTransaction::commit` makes what the transaction wrote the contents of its database.
/// Where it fails, all of it or nothing may have been written.
#[verifier::external_body]
pub(crate) fn commit(db: &mut Database, txn: WriteTransaction) -> (res: Result<(), redb::Error>)
    requires
        txn_database(txn) == db_identity(*old(db)),
    ensures
        db_identity(*final(db)) == db_identity(*old(db)),
        db_path(*final(db)) == db_path(*old(db)),
        db_opened(*final(db)) == db_opened(*old(db)),
        !db_writing(*final(db)),
        res is Ok ==> db_tables(*final(db)) == txn_tables(txn),
        res is Err ==> db_tables(*final(db)) == txn_tables(txn) || db_tables(*final(db))
            == db_tables(*old(db)),
{
    let _written_to = db;
    txn.commit().map_err(redb::Error::from)
}

/// `WriteTransaction::abort` ends the transaction and leaves its database as it was. An error on
/// the way does not change that, and is dropped.
#[verifier::external_body]
pub(crate) fn abort(db: &mut Database, txn: WriteTransaction)
    requires
        txn_database(txn) == db_identity(*old(db)),
    ensures
        db_identity(*final(db)) == db_identity(*old(db)),
        db_path(*final(db)) == db_path(*old(db)),
        db_opened(*final(db)) == db_opened(*old(db)),
        !db_writing(*final(db)),
        db_tables(*final(db)) == db_tables(*old(db)),
{
    let _kept_as_it_was = db;
    let _ = txn.abort();
}

/// `ReadableDatabase::begin_read` opens a read transaction, which sees what was committed last.
#[verifier::external_body]
pub(crate) fn begin_read(db: &Database) -> (res: Result<ReadTransaction, redb::Error>)
    ensures
        res matches Ok(txn) ==> read_tables(txn) == db_tables(*db),
{
    db.begin_read().map_err(redb::Error::from)
}

/// `ReadableTable::get` on a table of texts, which `WriteTransaction::open_table` opens and makes
/// where it is missing.
#[verifier::external_body]
pub(crate) fn text_get(txn: &mut WriteTransaction, table: &str, key: &str) -> (res: Result<
    Option<String>,
    redb::Error,
>)
    requires
        table@.len() > 0,
    ensures
        txn_database(*final(txn)) == txn_database(*old(txn)),
        res matches Ok(value) ==> {
            let entries = txn_tables(*old(txn)).text(table@);
            &&& txn_tables(*final(txn)) == txn_tables(*old(txn)).with_text(table@, entries)
            &&& value is Some <==> entries.contains_key(key@)
            &&& value matches Some(text) ==> text@ == entries[key@]
        },
{
    let open = txn.open_table(TableDefinition::<&str, &str>::new(table))?;
    let value = open.get(key)?.map(|guard| guard.value().to_owned());
    Ok(value)
}

/// `Table::insert` on a table of texts, which `WriteTransaction::open_table` opens and makes where
/// it is missing. A text under the same key is replaced.
#[verifier::external_body]
pub(crate) fn text_insert(
    txn: &mut WriteTransaction,
    table: &str,
    key: &str,
    value: &str,
) -> (res: Result<(), redb::Error>)
    requires
        table@.len() > 0,
    ensures
        txn_database(*final(txn)) == txn_database(*old(txn)),
        res is Ok ==> txn_tables(*final(txn)) == txn_tables(*old(txn)).with_text(
            table@,
            txn_tables(*old(txn)).text(table@).insert(key@, value@),
        ),
{
    txn.open_table(TableDefinition::<&str, &str>::new(table))?.insert(key, value)?;
    Ok(())
}

/// `ReadableTable::get` on a table of byte strings, which `WriteTransaction::open_table` opens and
/// makes where it is missing.
#[verifier::external_body]
pub(crate) fn number_get(txn: &mut WriteTransaction, table: &str, key: u64) -> (res: Result<
    Option<Vec<u8>>,
    redb::Error,
>)
    requires
        table@.len() > 0,
    ensures
        txn_database(*final(txn)) == txn_database(*old(txn)),
        res matches Ok(value) ==> {
            let entries = txn_tables(*old(txn)).number(table@);
            &&& txn_tables(*final(txn)) == txn_tables(*old(txn)).with_number(table@, entries)
            &&& value is Some <==> entries.contains_key(key)
            &&& value matches Some(bytes) ==> bytes@ == entries[key]
        },
{
    let open = txn.open_table(TableDefinition::<u64, &[u8]>::new(table))?;
    let value = open.get(key)?.map(|guard| guard.value().to_owned());
    Ok(value)
}

/// `Table::insert` on a table of byte strings, which `WriteTransaction::open_table` opens and
/// makes where it is missing. Bytes under the same number are replaced.
#[verifier::external_body]
pub(crate) fn number_insert(
    txn: &mut WriteTransaction,
    table: &str,
    key: u64,
    value: &[u8],
) -> (res: Result<(), redb::Error>)
    requires
        table@.len() > 0,
    ensures
        txn_database(*final(txn)) == txn_database(*old(txn)),
        res is Ok ==> txn_tables(*final(txn)) == txn_tables(*old(txn)).with_number(
            table@,
            txn_tables(*old(txn)).number(table@).insert(key, value@),
        ),
{
    txn.open_table(TableDefinition::<u64, &[u8]>::new(table))?.insert(key, value)?;
    Ok(())
}

/// `Table::remove` on a table of byte strings, which `WriteTransaction::open_table` opens and
/// makes where it is missing. A number that is not there is no error.
#[verifier::external_body]
pub(crate) fn number_remove(txn: &mut WriteTransaction, table: &str, key: u64) -> (res: Result<
    (),
    redb::Error,
>)
    requires
        table@.len() > 0,
    ensures
        txn_database(*final(txn)) == txn_database(*old(txn)),
        res is Ok ==> txn_tables(*final(txn)) == txn_tables(*old(txn)).with_number(
            table@,
            txn_tables(*old(txn)).number(table@).remove(key),
        ),
{
    txn.open_table(TableDefinition::<u64, &[u8]>::new(table))?.remove(key)?;
    Ok(())
}

/// `ReadableTableMetadata::len` on a table of byte strings, which `WriteTransaction::open_table`
/// opens and makes where it is missing: the number of its entries.
#[verifier::external_body]
pub(crate) fn number_len(txn: &mut WriteTransaction, table: &str) -> (res: Result<u64, redb::Error>)
    requires
        table@.len() > 0,
    ensures
        txn_database(*final(txn)) == txn_database(*old(txn)),
        res matches Ok(len) ==> {
            let entries = txn_tables(*old(txn)).number(table@);
            &&& txn_tables(*final(txn)) == txn_tables(*old(txn)).with_number(table@, entries)
            &&& entries.dom().finite()
            &&& len == entries.len()
        },
{
    Ok(txn.open_table(TableDefinition::<u64, &[u8]>::new(table))?.len()?)
}

/// `MultimapTable::insert` on a table of pairs, which `WriteTransaction::open_multimap_table`
/// opens and makes where it is missing.
#[verifier::external_body]
pub(crate) fn pair_insert(
    txn: &mut WriteTransaction,
    table: &str,
    key: &[u8],
    value: u64,
) -> (res: Result<(), redb::Error>)
    requires
        table@.len() > 0,
    ensures
        txn_database(*final(txn)) == txn_database(*old(txn)),
        res is Ok ==> txn_tables(*final(txn)) == txn_tables(*old(txn)).with_pair(
            table@,
            txn_tables(*old(txn)).pair(table@).insert((key@, value)),
        ),
{
    txn.open_multimap_table(MultimapTableDefinition::<&[u8], u64>::new(table))?.insert(key, value)?;
    Ok(())
}

/// `MultimapTable::remove` on a table of pairs, which `WriteTransaction::open_multimap_table`
/// opens and makes where it is missing. A pair that is not there is no error.
#[verifier::external_body]
pub(crate) fn pair_remove(
    txn: &mut WriteTransaction,
    table: &str,
    key: &[u8],
    value: u64,
) -> (res: Result<(), redb::Error>)
    requires
        table@.len() > 0,
    ensures
        txn_database(*final(txn)) == txn_database(*old(txn)),
        res is Ok ==> txn_tables(*final(txn)) == txn_tables(*old(txn)).with_pair(
            table@,
            txn_tables(*old(txn)).pair(table@).remove((key@, value)),
        ),
{
    txn.open_multimap_table(MultimapTableDefinition::<&[u8], u64>::new(table))?.remove(key, value)?;
    Ok(())
}

/// `ReadableTableMetadata::len` on a table of pairs, which `WriteTransaction::open_multimap_table`
/// opens and makes where it is missing: the number of its pairs.
#[verifier::external_body]
pub(crate) fn pair_len(txn: &mut WriteTransaction, table: &str) -> (res: Result<u64, redb::Error>)
    requires
        table@.len() > 0,
    ensures
        txn_database(*final(txn)) == txn_database(*old(txn)),
        res matches Ok(len) ==> {
            let entries = txn_tables(*old(txn)).pair(table@);
            &&& txn_tables(*final(txn)) == txn_tables(*old(txn)).with_pair(table@, entries)
            &&& entries.finite()
            &&& len == entries.len()
        },
{
    Ok(txn.open_multimap_table(MultimapTableDefinition::<&[u8], u64>::new(table))?.len()?)
}

/// `ReadableTable::iter` on a table of byte strings, which `ReadTransaction::open_table` opens:
/// each number once. A missing table is told from other failures.
#[verifier::external_body]
pub(crate) fn read_number_keys(txn: &ReadTransaction, table: &str) -> (res: Result<
    Vec<u64>,
    ReadFault,
>)
    requires
        table@.len() > 0,
    ensures
        res matches Ok(keys) ==> read_tables(*txn).numbers.contains_key(table@) && keys@.no_duplicates()
            && keys@.to_set() == read_tables(*txn).numbers[table@].dom(),
        res matches Err(ReadFault::MissingTable) ==> !read_tables(*txn).numbers.contains_key(table@),
{
    let open = match txn.open_table(TableDefinition::<u64, &[u8]>::new(table)) {
        Ok(open) => open,
        Err(TableError::TableDoesNotExist(_)) => return Err(ReadFault::MissingTable),
        Err(e) => return Err(ReadFault::Failed(e.into())),
    };
    let entries = open.iter().map_err(|e| ReadFault::Failed(e.into()))?;
    let keys: Result<Vec<u64>, redb::StorageError> = entries.map(|e| Ok(e?.0.value())).collect();
    keys.map_err(|e| ReadFault::Failed(e.into()))
}

/// `ReadableTableMetadata::len` on a table of byte strings, which `ReadTransaction::open_table`
/// opens: the number of its entries. A missing table is told from other failures.
#[verifier::external_body]
pub(crate) fn read_number_len(txn: &ReadTransaction, table: &str) -> (res: Result<u64, ReadFault>)
    requires
        table@.len() > 0,
    ensures
        res matches Ok(len) ==> read_tables(*txn).numbers.contains_key(table@)
            && read_tables(*txn).numbers[table@].dom().finite() && len == read_tables(*txn).numbers[table@].len(),
        res matches Err(ReadFault::MissingTable) ==> !read_tables(*txn).numbers.contains_key(table@),
{
    let open = match txn.open_table(TableDefinition::<u64, &[u8]>::new(table)) {
        Ok(open) => open,
        Err(TableError::TableDoesNotExist(_)) => return Err(ReadFault::MissingTable),
        Err(e) => return Err(ReadFault::Failed(e.into())),
    };
    open.len().map_err(|e| ReadFault::Failed(e.into()))
}

/// `ReadOnlyMultimapTable::get` on a table of pairs, which `ReadTransaction::open_multimap_table`
/// opens: the first number that is paired with the bytes, if there is one. A missing table is told
/// from other failures.
#[verifier::external_body]
pub(crate) fn read_pair_first(txn: &ReadTransaction, table: &str, key: &[u8]) -> (res: Result<
    Option<u64>,
    ReadFault,
>)
    requires
        table@.len() > 0,
    ensures
        res matches Ok(Some(n)) ==> read_tables(*txn).pairs.contains_key(table@)
            && read_tables(*txn).pairs[table@].contains((key@, n)),
        res matches Ok(None) ==> read_tables(*txn).pairs.contains_key(table@) && forall|n: u64|
            !read_tables(*txn).pairs[table@].contains((key@, n)),
        res matches Err(ReadFault::MissingTable) ==> !read_tables(*txn).pairs.contains_key(table@),
{
    let open = match txn.open_multimap_table(MultimapTableDefinition::<&[u8], u64>::new(table)) {
        Ok(open) => open,
        Err(TableError::TableDoesNotExist(_)) => return Err(ReadFault::MissingTable),
        Err(e) => return Err(ReadFault::Failed(e.into())),
    };
    let mut values = open.get(key).map_err(|e| ReadFault::Failed(e.into()))?;
    let first = values.next().transpose().map_err(|e| ReadFault::Failed(e.into()))?;
    Ok(first.map(|guard| guard.value()))
}

} // verus!
