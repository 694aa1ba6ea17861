//! The key-value stores that hold the index: `sled` databases, each seen as a
//! map from keys to values, both strings of bytes.

use vstd::prelude::*;

verus! {

/// `sled::Db`, a database. Of what is in it, no more is seen than the names
/// `db_contents` and `db_next_id` say.
#[verifier::external_type_specification]
#[verifier::external_body]
pub struct ExDb(sled::Db);

/// `sled::Batch`, writes that are applied together. Of what is in it, no
/// more is seen than the name `batch_writes` says.
#[verifier::external_type_specification]
#[verifier::external_body]
pub struct ExBatch(sled::Batch);

/// `sled::Error`, which is carried along and never looked into.
#[verifier::external_type_specification]
#[verifier::external_body]
pub struct ExSledError(sled::Error);

/// What a database holds: its keys, each with its value.
pub uninterp spec fn db_contents(db: sled::Db) -> Map<Seq<u8>, Seq<u8>>;

/// The identifier that a database hands out next.
pub uninterp spec fn db_next_id(db: sled::Db) -> u64;

/// Where a database was opened: the directory that it lies under and its
/// name there, as `sled::open` was handed them to make it.
pub uninterp spec fn db_home(db: sled::Db) -> (Seq<char>, Seq<char>);

/// The writes that a batch holds: the keys that it writes, each with the
/// value that it sets the key to, or with nothing where it removes the key.
pub uninterp spec fn batch_writes(batch: sled::Batch) -> Map<Seq<u8>, Option<Seq<u8>>>;

/// The writes of a batch that holds none.
pub open spec fn no_writes() -> Map<Seq<u8>, Option<Seq<u8>>> {
    Map::empty()
}

/// What a database holds after writes were applied to it: a key that is
/// written is set to its value or removed, any other key is as it was.
pub open spec fn applied(
    contents: Map<Seq<u8>, Seq<u8>>,
    writes: Map<Seq<u8>, Option<Seq<u8>>>,
) -> Map<Seq<u8>, Seq<u8>> {
    Map::new(
        |key: Seq<u8>|
            if writes.contains_key(key) {
                writes[key] is Some
            } else {
                contents.contains_key(key)
            },
        |key: Seq<u8>|
            if writes.contains_key(key) {
                writes[key]->0
            } else {
                contents[key]
            },
    )
}

/// The identifier after `id`, which is zero after the last.
pub open spec fn id_after(id: u64) -> u64 {
    if id == u64::MAX {
        0
    } else {
        (id + 1) as u64
    }
}

/// Whether `entries` are the entries of `contents` whose key begins with
/// `prefix`, each of them once.
pub open spec fn is_prefix_scan(
    entries: Seq<(Seq<u8>, Seq<u8>)>,
    contents: Map<Seq<u8>, Seq<u8>>,
    prefix: Seq<u8>,
) -> bool {
    &&& forall|i: int|
        0 <= i < entries.len() ==> {
            &&& prefix.is_prefix_of((#[trigger] entries[i]).0)
            &&& contents.contains_key(entries[i].0)
            &&& contents[entries[i].0] == entries[i].1
        }
    &&& forall|i: int, j: int|
        0 <= i < j < entries.len() ==> (#[trigger] entries[i]).0 != (#[trigger] entries[j]).0
    &&& forall|key: Seq<u8>|
        #[trigger] contents.contains_key(key) && prefix.is_prefix_of(key) ==> holds_key(
            entries,
            key,
        )
}

/// Whether one of `entries` has the key `key`.
pub open spec fn holds_key(entries: Seq<(Seq<u8>, Seq<u8>)>, key: Seq<u8>) -> bool {
    exists|i: int| 0 <= i < entries.len() && (#[trigger] entries[i]).0 == key
}

/// Calls `sled::open` on the directory `name` under `root`, which opens the
/// database there and makes it where there is none. The database that comes
/// back is the one of that directory; what it holds is what was written
/// there before, of which nothing is said.
#[verifier::external_body]
pub(crate) fn open_db(root: &str, name: &str) -> (r: Result<sled::Db, sled::Error>)
    ensures
        r matches Ok(db) ==> db_home(db) == (root@, name@),
{
    sled::open(std::path::Path::new(root).join(name))
}

/// Calls `sled::Tree::get`, which gives the value of a key where the
/// database has it.
#[verifier::external_body]
pub(crate) fn db_get(db: &sled::Db, key: &[u8]) -> (r: Result<Option<Vec<u8>>, sled::Error>)
    ensures
        r matches Ok(found) ==> match found {
            Some(value) => db_contents(*db).contains_key(key@) && db_contents(*db)[key@]
                == value@,
            None => !db_contents(*db).contains_key(key@),
        },
{
    Ok(db.get(key)?.map(|value| value.to_vec()))
}

/// Calls `sled::Tree::insert`, which sets a key to a value. Where it fails
/// nothing is said of what the database then holds. It never touches the
/// counter of identifiers.
#[verifier::external_body]
pub(crate) fn db_insert(db: &mut sled::Db, key: &[u8], value: &[u8]) -> (r: Result<
    (),
    sled::Error,
>)
    ensures
        r is Ok ==> db_contents(*final(db)) == db_contents(*old(db)).insert(key@, value@),
        db_next_id(*final(db)) == db_next_id(*old(db)),
{
    db.insert(key, value)?;
    Ok(())
}

/// Calls `sled::Tree::remove`, which takes a key out of the database, with
/// its value. Where it fails nothing is said of what the database then
/// holds. It never touches the counter of identifiers.
#[verifier::external_body]
pub(crate) fn db_remove(db: &mut sled::Db, key: &[u8]) -> (r: Result<(), sled::Error>)
    ensures
        r is Ok ==> db_contents(*final(db)) == db_contents(*old(db)).remove(key@),
        db_next_id(*final(db)) == db_next_id(*old(db)),
{
    db.remove(key)?;
    Ok(())
}

/// Calls `sled::Tree::scan_prefix` and collects what it iterates over: the
/// keys that begin with the prefix, each with its value.
#[verifier::external_body]
pub(crate) fn db_scan_prefix(db: &sled::Db, prefix: &[u8]) -> (r: Result<
    Vec<(Vec<u8>, Vec<u8>)>,
    sled::Error,
>)
    ensures
        r matches Ok(entries) ==> is_prefix_scan(entries.deep_view(), db_contents(*db), prefix@),
{
    db.scan_prefix(prefix).map(|entry| entry.map(|(key, value)| (key.to_vec(), value.to_vec()))).collect()
}

/// Calls `sled::Db::generate_id`, which first adds one to the database's
/// counter and then, where nothing fails, hands out what the counter was.
/// What the database holds is never touched.
#[verifier::external_body]
pub(crate) fn db_generate_id(db: &mut sled::Db) -> (r: Result<u64, sled::Error>)
    ensures
        r matches Ok(id) ==> id == db_next_id(*old(db)),
        db_next_id(*final(db)) == id_after(db_next_id(*old(db))),
        db_contents(*final(db)) == db_contents(*old(db)),
{
    db.generate_id()
}

/// Calls `sled::Batch::default`, which makes a batch without writes.
#[verifier::external_body]
pub(crate) fn batch_new() -> (batch: sled::Batch)
    ensures
        batch_writes(batch) == no_writes(),
{
    sled::Batch::default()
}

/// Calls `sled::Batch::insert`, which adds to the batch that a key is set to
/// a value, in place of what the batch held for that key.
#[verifier::external_body]
pub(crate) fn batch_insert(batch: &mut sled::Batch, key: &[u8], value: &[u8])
    ensures
        batch_writes(*final(batch)) == batch_writes(*old(batch)).insert(key@, Some(value@)),
{
    batch.insert(key, value)
}

/// Calls `sled::Batch::remove`, which adds to the batch that a key is
/// removed, in place of what the batch held for that key.
#[verifier::external_body]
pub(crate) fn batch_remove(batch: &mut sled::Batch, key: &[u8])
    ensures
        batch_writes(*final(batch)) == batch_writes(*old(batch)).insert(key@, None),
{
    batch.remove(key)
}

/// Calls `sled::Tree::apply_batch`, which sets or removes every key of the
/// batch as the batch says. Where it fails nothing is said of what the
/// database then holds. It never touches the counter of identifiers.
#[verifier::external_body]
pub(crate) fn db_apply_batch(db: &mut sled::Db, batch: sled::Batch) -> (r: Result<(), sled::Error>)
    ensures
        r is Ok ==> db_contents(*final(db)) == applied(db_contents(*old(db)), batch_writes(batch)),
        db_next_id(*final(db)) == db_next_id(*old(db)),
{
    db.apply_batch(batch)
}

} // verus!
