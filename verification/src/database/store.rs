//! The redb database behind the store, reached through trusted wrappers.
//!
//! Tables: `main` (key text to value bytes), two TTL indexes (entry bytes,
//! no value) named by the caller, and `metadata` (name to JSON text). The
//! contents of each table, in a database, a write transaction or a read
//! transaction, are named by the functions below.
use crate::types::bytes::lex_lt;
use redb::{ReadableDatabase, ReadableTable, TableDefinition};
use vstd::prelude::*;

verus! {

/// A redb database file.
#[verifier::external_type_specification]
#[verifier::external_body]
pub struct ExRedbDatabase(redb::Database);

/// A redb write transaction.
#[verifier::external_type_specification]
#[verifier::external_body]
pub struct ExRedbWriteTransaction(redb::WriteTransaction);

/// A redb read transaction.
#[verifier::external_type_specification]
#[verifier::external_body]
pub struct ExRedbReadTransaction(redb::ReadTransaction);

/// Any failure that redb reports.
#[verifier::external_type_specification]
#[verifier::external_body]
pub struct ExRedbError(redb::Error);

/// Name of the main table.
pub const MAIN_TABLE: &'static str = "main";

/// Name of the metadata table.
pub const METADATA_TABLE: &'static str = "metadata";

/// Contents of the main table of a database.
pub uninterp spec fn db_main(d: redb::Database) -> Map<Seq<char>, Seq<u8>>;

/// Contents of the TTL table `name` of a database.
pub uninterp spec fn db_ttl(d: redb::Database, name: Seq<char>) -> Set<Seq<u8>>;

/// Contents of the metadata table of a database.
pub uninterp spec fn db_meta(d: redb::Database) -> Map<Seq<char>, Seq<char>>;

/// The database a write transaction was begun on (its handle as it was
/// then); its commit writes to that database.
pub uninterp spec fn wt_origin(t: redb::WriteTransaction) -> redb::Database;

/// Contents of the main table as a write transaction sees it.
pub uninterp spec fn wt_main(t: redb::WriteTransaction) -> Map<Seq<char>, Seq<u8>>;

/// Contents of the TTL table `name` as a write transaction sees it.
pub uninterp spec fn wt_ttl(t: redb::WriteTransaction, name: Seq<char>) -> Set<Seq<u8>>;

/// Contents of the metadata table as a write transaction sees it.
pub uninterp spec fn wt_meta(t: redb::WriteTransaction) -> Map<Seq<char>, Seq<char>>;

/// Contents of the main table as a read transaction sees it.
pub uninterp spec fn rt_main(t: redb::ReadTransaction) -> Map<Seq<char>, Seq<u8>>;

/// Contents of the TTL table `name` as a read transaction sees it.
pub uninterp spec fn rt_ttl(t: redb::ReadTransaction, name: Seq<char>) -> Set<Seq<u8>>;

/// Contents of the metadata table as a read transaction sees it.
pub uninterp spec fn rt_meta(t: redb::ReadTransaction) -> Map<Seq<char>, Seq<char>>;

/// A write transaction sees exactly what the database holds.
pub open spec fn wt_sees(t: redb::WriteTransaction, d: redb::Database) -> bool {
    &&& wt_main(t) == db_main(d)
    &&& wt_meta(t) == db_meta(d)
    &&& forall|n: Seq<char>| #[trigger] wt_ttl(t, n) == db_ttl(d, n)
}

/// A read transaction sees exactly what the database holds.
pub open spec fn rt_sees(t: redb::ReadTransaction, d: redb::Database) -> bool {
    &&& rt_main(t) == db_main(d)
    &&& rt_meta(t) == db_meta(d)
    &&& forall|n: Seq<char>| #[trigger] rt_ttl(t, n) == db_ttl(d, n)
}

/// Two databases hold the same contents.
pub open spec fn db_same(a: redb::Database, b: redb::Database) -> bool {
    &&& db_main(a) == db_main(b)
    &&& db_meta(a) == db_meta(b)
    &&& forall|n: Seq<char>| #[trigger] db_ttl(a, n) == db_ttl(b, n)
}

/// Byte strings in strictly increasing lexicographic order.
pub open spec fn sorted_strict(s: Seq<Seq<u8>>) -> bool {
    forall|i: int, j: int| 0 <= i < j < s.len() ==> lex_lt(#[trigger] s[i], #[trigger] s[j])
}

/// Whether no write transaction of the database is alive. redb lets one
/// write transaction live at a time; this library begins one only through
/// `begin_write` below and ends it through `commit` or `abort`.
pub uninterp spec fn db_write_free(d: redb::Database) -> bool;

/// `redb::Database::create`: opens the database file at `path`, creating it
/// if missing. What it holds depends on the file, so nothing is stated of it
/// but that no write transaction of it is alive yet.
#[verifier::external_body]
pub(crate) fn redb_create(path: &str) -> (r: Result<redb::Database, redb::Error>)
    ensures
        r matches Ok(d) ==> db_write_free(d),
{
    redb::Database::create(path).map_err(redb::Error::from)
}

/// `redb::Database::begin_write`: a write transaction, begun on `d`, that
/// sees what the database holds. redb blocks here while another write
/// transaction of the database is alive, so none may be. The handle `d` is
/// taken mutably so that the transaction's being alive can be stated; the
/// contents stay as they were.
#[verifier::external_body]
pub(crate) fn begin_write(d: &mut redb::Database) -> (r: Result<redb::WriteTransaction, redb::Error>)
    requires
        db_write_free(*old(d)),
    ensures
        db_same(*final(d), *old(d)),
        r matches Ok(t) ==> wt_sees(t, *old(d)) && wt_origin(t) == *final(d) && !db_write_free(
            *final(d),
        ),
        r is Err ==> db_write_free(*final(d)),
{
    d.begin_write().map_err(redb::Error::from)
}

/// `redb::WriteTransaction::abort`: ends the transaction, begun on `d`,
/// without writing; the database keeps its contents (also when redb reports
/// an error, as the transaction is consumed and its writes discarded).
#[verifier::external_body]
pub(crate) fn abort(t: redb::WriteTransaction, d: &mut redb::Database) -> (r: Result<(), redb::Error>)
    requires
        wt_origin(t) == *old(d),
    ensures
        db_same(*final(d), *old(d)),
        db_write_free(*final(d)),
{
    t.abort().map_err(redb::Error::from)
}

/// `redb::ReadableDatabase::begin_read`: a read transaction that sees what
/// the database holds.
#[verifier::external_body]
pub(crate) fn begin_read(d: &redb::Database) -> (r: Result<redb::ReadTransaction, redb::Error>)
    ensures
        r matches Ok(t) ==> rt_sees(t, *d),
{
    d.begin_read().map_err(redb::Error::from)
}

/// `redb::WriteTransaction::commit`: makes the transaction's writes the
/// contents of the database it was begun on. That database's handle `d` is
/// passed so that its contents can be stated. As the crate documents, a
/// failed commit applies the writes fully or not at all.
#[verifier::external_body]
pub(crate) fn commit(t: redb::WriteTransaction, d: &mut redb::Database) -> (r: Result<(), redb::Error>)
    requires
        wt_origin(t) == *old(d),
    ensures
        db_write_free(*final(d)),
        r is Ok ==> db_main(*final(d)) == wt_main(t) && db_meta(*final(d)) == wt_meta(t) && (
        forall|n: Seq<char>| #[trigger] db_ttl(*final(d), n) == wt_ttl(t, n)),
        r is Err ==> db_same(*final(d), *old(d)) || (db_main(*final(d)) == wt_main(t) && db_meta(
            *final(d),
        ) == wt_meta(t) && (forall|n: Seq<char>| #[trigger] db_ttl(*final(d), n) == wt_ttl(t, n))),
{
    t.commit().map_err(redb::Error::from)
}

/// `WriteTransaction::open_table` for a TTL table: creates it if missing.
/// The contents stay as they were.
#[verifier::external_body]
pub(crate) fn ttl_open(t: &mut redb::WriteTransaction, name: &str) -> (r: Result<(), redb::Error>)
    requires
        name@.len() > 0,
    ensures
        wt_origin(*final(t)) == wt_origin(*old(t)),
        wt_main(*final(t)) == wt_main(*old(t)),
        wt_meta(*final(t)) == wt_meta(*old(t)),
        forall|n: Seq<char>| #[trigger] wt_ttl(*final(t), n) == wt_ttl(*old(t), n),
{
    t.open_table(TableDefinition::<&[u8], ()>::new(name)).map(|_| ()).map_err(redb::Error::from)
}

/// `WriteTransaction::open_table` for the main and metadata tables: creates
/// them if missing. The contents stay as they were.
#[verifier::external_body]
pub(crate) fn main_open(t: &mut redb::WriteTransaction) -> (r: Result<(), redb::Error>)
    ensures
        wt_origin(*final(t)) == wt_origin(*old(t)),
        wt_main(*final(t)) == wt_main(*old(t)),
        wt_meta(*final(t)) == wt_meta(*old(t)),
        forall|n: Seq<char>| #[trigger] wt_ttl(*final(t), n) == wt_ttl(*old(t), n),
{
    t.open_table(TableDefinition::<&str, &[u8]>::new(MAIN_TABLE)).map_err(redb::Error::from)?;
    t.open_table(TableDefinition::<&str, &str>::new(METADATA_TABLE)).map(|_| ()).map_err(
        redb::Error::from,
    )
}

/// `Table::insert` on a TTL table: adds `entry`; the other tables stay as
/// they were. What a failed insert leaves is not stated.
#[verifier::external_body]
pub(crate) fn ttl_insert(t: &mut redb::WriteTransaction, name: &str, entry: &[u8]) -> (r: Result<
    (),
    redb::Error,
>)
    requires
        name@.len() > 0,
    ensures
        wt_origin(*final(t)) == wt_origin(*old(t)),
        r is Ok ==> wt_ttl(*final(t), name@) == wt_ttl(*old(t), name@).insert(entry@),
        r is Ok ==> forall|n: Seq<char>|
            n != name@ ==> #[trigger] wt_ttl(*final(t), n) == wt_ttl(*old(t), n),
        r is Ok ==> wt_main(*final(t)) == wt_main(*old(t)),
        r is Ok ==> wt_meta(*final(t)) == wt_meta(*old(t)),
{
    let mut table = t.open_table(TableDefinition::<&[u8], ()>::new(name))?;
    table.insert(entry, ())?;
    Ok(())
}

/// `Table::remove` on a TTL table: removes `entry`, telling whether it was
/// there.
#[verifier::external_body]
pub(crate) fn ttl_remove(t: &mut redb::WriteTransaction, name: &str, entry: &[u8]) -> (r: Result<
    bool,
    redb::Error,
>)
    requires
        name@.len() > 0,
    ensures
        wt_origin(*final(t)) == wt_origin(*old(t)),
        r matches Ok(b) ==> b == wt_ttl(*old(t), name@).contains(entry@),
        r is Ok ==> wt_ttl(*final(t), name@) == wt_ttl(*old(t), name@).remove(entry@),
        r is Ok ==> forall|n: Seq<char>|
            n != name@ ==> #[trigger] wt_ttl(*final(t), n) == wt_ttl(*old(t), n),
        r is Ok ==> wt_main(*final(t)) == wt_main(*old(t)),
        r is Ok ==> wt_meta(*final(t)) == wt_meta(*old(t)),
{
    let mut table = t.open_table(TableDefinition::<&[u8], ()>::new(name))?;
    let old = table.remove(entry)?;
    Ok(old.is_some())
}

/// `Table::get` on the main table within a write transaction.
#[verifier::external_body]
pub(crate) fn main_get(t: &redb::WriteTransaction, key: &str) -> (r: Result<Option<Vec<u8>>, redb::Error>)
    ensures
        r matches Ok(o) ==> match o {
            Some(v) => wt_main(*t).contains_key(key@) && wt_main(*t)[key@] == v@,
            None => !wt_main(*t).contains_key(key@),
        },
{
    let table = t.open_table(TableDefinition::<&str, &[u8]>::new(MAIN_TABLE))?;
    let v = table.get(key)?.map(|g| g.value().to_vec());
    Ok(v)
}

/// `Table::insert` on the main table: maps `key` to `value`.
#[verifier::external_body]
pub(crate) fn main_insert(t: &mut redb::WriteTransaction, key: &str, value: &[u8]) -> (r: Result<
    (),
    redb::Error,
>)
    ensures
        wt_origin(*final(t)) == wt_origin(*old(t)),
        r is Ok ==> wt_main(*final(t)) == wt_main(*old(t)).insert(key@, value@),
        r is Ok ==> forall|n: Seq<char>| #[trigger] wt_ttl(*final(t), n) == wt_ttl(*old(t), n),
        r is Ok ==> wt_meta(*final(t)) == wt_meta(*old(t)),
{
    let mut table = t.open_table(TableDefinition::<&str, &[u8]>::new(MAIN_TABLE))?;
    table.insert(key, value)?;
    Ok(())
}

/// `Table::remove` on the main table: removes `key`, returning what it
/// held.
#[verifier::external_body]
pub(crate) fn main_remove(t: &mut redb::WriteTransaction, key: &str) -> (r: Result<
    Option<Vec<u8>>,
    redb::Error,
>)
    ensures
        wt_origin(*final(t)) == wt_origin(*old(t)),
        r matches Ok(o) ==> match o {
            Some(v) => wt_main(*old(t)).contains_key(key@) && wt_main(*old(t))[key@] == v@,
            None => !wt_main(*old(t)).contains_key(key@),
        },
        r is Ok ==> wt_main(*final(t)) == wt_main(*old(t)).remove(key@),
        r is Ok ==> forall|n: Seq<char>| #[trigger] wt_ttl(*final(t), n) == wt_ttl(*old(t), n),
        r is Ok ==> wt_meta(*final(t)) == wt_meta(*old(t)),
{
    let mut table = t.open_table(TableDefinition::<&str, &[u8]>::new(MAIN_TABLE))?;
    let v = table.remove(key)?.map(|g| g.value().to_vec());
    Ok(v)
}

/// `Table::insert` on the metadata table: maps `key` to `value`.
#[verifier::external_body]
pub(crate) fn meta_insert(t: &mut redb::WriteTransaction, key: &str, value: &str) -> (r: Result<
    (),
    redb::Error,
>)
    ensures
        wt_origin(*final(t)) == wt_origin(*old(t)),
        r is Ok ==> wt_meta(*final(t)) == wt_meta(*old(t)).insert(key@, value@),
        r is Ok ==> forall|n: Seq<char>| #[trigger] wt_ttl(*final(t), n) == wt_ttl(*old(t), n),
        r is Ok ==> wt_main(*final(t)) == wt_main(*old(t)),
{
    let mut table = t.open_table(TableDefinition::<&str, &str>::new(METADATA_TABLE))?;
    table.insert(key, value)?;
    Ok(())
}

/// `ReadOnlyTable::get` on the main table.
#[verifier::external_body]
pub(crate) fn read_main_get(t: &redb::ReadTransaction, key: &str) -> (r: Result<
    Option<Vec<u8>>,
    redb::Error,
>)
    ensures
        r matches Ok(o) ==> match o {
            Some(v) => rt_main(*t).contains_key(key@) && rt_main(*t)[key@] == v@,
            None => !rt_main(*t).contains_key(key@),
        },
{
    let table = t.open_table(TableDefinition::<&str, &[u8]>::new(MAIN_TABLE))?;
    let v = table.get(key)?.map(|g| g.value().to_vec());
    Ok(v)
}

/// `ReadOnlyTable::get` on the metadata table.
#[verifier::external_body]
pub(crate) fn read_meta_get(t: &redb::ReadTransaction, key: &str) -> (r: Result<
    Option<String>,
    redb::Error,
>)
    ensures
        r matches Ok(o) ==> match o {
            Some(v) => rt_meta(*t).contains_key(key@) && rt_meta(*t)[key@] == v@,
            None => !rt_meta(*t).contains_key(key@),
        },
{
    let table = t.open_table(TableDefinition::<&str, &str>::new(METADATA_TABLE))?;
    let v = table.get(key)?.map(|g| g.value().to_string());
    Ok(v)
}

/// `ReadOnlyTable::get` on a TTL table: whether `entry` is there.
#[verifier::external_body]
pub(crate) fn read_ttl_contains(t: &redb::ReadTransaction, name: &str, entry: &[u8]) -> (r: Result<
    bool,
    redb::Error,
>)
    requires
        name@.len() > 0,
    ensures
        r matches Ok(b) ==> b == rt_ttl(*t, name@).contains(entry@),
{
    let table = t.open_table(TableDefinition::<&[u8], ()>::new(name))?;
    Ok(table.get(entry)?.is_some())
}

/// `ReadableTable::iter` on the main table: every key with its value.
#[verifier::external_body]
pub(crate) fn read_main_all(t: &redb::ReadTransaction) -> (r: Result<Vec<(String, Vec<u8>)>, redb::Error>)
    ensures
        r matches Ok(v) ==> (forall|i: int|
            0 <= i < v@.len() ==> rt_main(*t).contains_key(#[trigger] v@[i].0@) && rt_main(
                *t,
            )[v@[i].0@] == v@[i].1@) && (forall|k: Seq<char>|
            rt_main(*t).contains_key(k) ==> exists|i: int| 0 <= i < v@.len() && #[trigger] v@[i].0@ == k),
{
    let table = t.open_table(TableDefinition::<&str, &[u8]>::new(MAIN_TABLE))?;
    let mut out = Vec::new();
    for e in table.iter()? {
        let (k, v) = e?;
        out.push((k.value().to_string(), v.value().to_vec()));
    }
    Ok(out)
}

/// `ReadableTable::iter` on a TTL table: all entries, in ascending byte
/// order (the order of `<[u8]>::cmp`, which redb uses for byte keys).
#[verifier::external_body]
pub(crate) fn read_ttl_all(t: &redb::ReadTransaction, name: &str) -> (r: Result<Vec<Vec<u8>>, redb::Error>)
    requires
        name@.len() > 0,
    ensures
        r matches Ok(v) ==> sorted_strict(v.deep_view()) && v.deep_view().to_set() == rt_ttl(
            *t,
            name@,
        ),
{
    let table = t.open_table(TableDefinition::<&[u8], ()>::new(name))?;
    let mut out = Vec::new();
    for e in table.iter()? {
        let (k, _) = e?;
        out.push(k.value().to_vec());
    }
    Ok(out)
}

/// `ReadableTable::range(..bound)` on a TTL table: the entries below
/// `bound`, in ascending byte order.
#[verifier::external_body]
pub(crate) fn read_ttl_below(t: &redb::ReadTransaction, name: &str, bound: &[u8]) -> (r: Result<
    Vec<Vec<u8>>,
    redb::Error,
>)
    requires
        name@.len() > 0,
    ensures
        r matches Ok(v) ==> sorted_strict(v.deep_view()) && v.deep_view().to_set() == rt_ttl(
            *t,
            name@,
        ).filter(|e: Seq<u8>| lex_lt(e, bound@)),
{
    let table = t.open_table(TableDefinition::<&[u8], ()>::new(name))?;
    let mut out = Vec::new();
    for e in table.range::<&[u8]>(..bound)? {
        let (k, _) = e?;
        out.push(k.value().to_vec());
    }
    Ok(out)
}

} // verus!
