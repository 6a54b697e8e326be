//! The tables of the key-value engine, and what is taken on trust about them.

use crate::lex::lex_lt;
use redb::ReadableTable;
use vstd::prelude::*;

verus! {

/// `redb::Database`, an open database of the key-value engine. Nothing of
/// its inside is known here.
#[verifier::external_type_specification]
#[verifier::external_body]
pub struct ExDatabase(redb::Database);

/// `redb::WriteTransaction`, a write transaction in progress. Nothing of
/// its inside is known here.
#[verifier::external_type_specification]
#[verifier::external_body]
pub struct ExWriteTransaction(redb::WriteTransaction);

/// `redb::ReadTransaction`, a read transaction in progress. Nothing of
/// its inside is known here.
#[verifier::external_type_specification]
#[verifier::external_body]
pub struct ExReadTransaction(redb::ReadTransaction);

/// `redb::Error`, any error of the key-value engine. Nothing of its
/// inside is known here.
#[verifier::external_type_specification]
#[verifier::external_body]
pub struct ExError(redb::Error);

/// What the eight tables of a database hold, as plain maps.
pub struct StoreState {
    pub path_to_id: Map<Seq<char>, u64>,
    pub id_to_path: Map<u64, Seq<char>>,
    pub counters: Map<Seq<char>, u64>,
    pub path_current: Map<u64, u64>,
    pub file_meta: Map<u64, Seq<u8>>,
    pub file_to_path: Map<u64, u64>,
    pub file_state: Map<u64, u8>,
    pub hash_index: Map<Seq<u8>, Seq<u8>>,
}

/// The value under a key, if the key is present.
pub open spec fn lookup<K, V>(m: Map<K, V>, k: K) -> Option<V> {
    if m.contains_key(k) {
        Some(m[k])
    } else {
        None
    }
}

/// The characters of an optional string.
pub open spec fn chars_of(v: Option<String>) -> Option<Seq<char>> {
    match v {
        Some(s) => Some(s@),
        None => None,
    }
}

/// The bytes of an optional byte vector.
pub open spec fn bytes_of(v: Option<Vec<u8>>) -> Option<Seq<u8>> {
    match v {
        Some(b) => Some(b@),
        None => None,
    }
}

/// Whether `es` lists a table keyed by integers: every listed pair is in the
/// table, every key of the table is listed, and keys ascend strictly.
pub open spec fn lists_by_id<V>(es: Seq<(u64, V)>, m: Map<u64, V>) -> bool {
    &&& forall|i: int|
        0 <= i < es.len() ==> m.contains_key(#[trigger] es[i].0) && m[es[i].0] == es[i].1
    &&& forall|k: u64| #[trigger]
        m.contains_key(k) ==> exists|i: int| 0 <= i < es.len() && #[trigger] es[i].0 == k
    &&& forall|i: int, j: int| 0 <= i < j < es.len() ==> #[trigger] es[i].0 < #[trigger] es[j].0
}

/// Whether `es` lists a table keyed by byte strings, in ascending
/// lexicographic order of the keys.
pub open spec fn lists_by_bytes<V>(es: Seq<(Seq<u8>, V)>, m: Map<Seq<u8>, V>) -> bool {
    &&& forall|i: int|
        0 <= i < es.len() ==> m.contains_key(#[trigger] es[i].0) && m[es[i].0] == es[i].1
    &&& forall|k: Seq<u8>| #[trigger]
        m.contains_key(k) ==> exists|i: int| 0 <= i < es.len() && #[trigger] es[i].0 == k
    &&& forall|i: int, j: int|
        0 <= i < j < es.len() ==> lex_lt(#[trigger] es[i].0, #[trigger] es[j].0)
}

/// The listing of a file-metadata table as plain values.
pub open spec fn meta_rows(es: Seq<(u64, Vec<u8>)>) -> Seq<(u64, Seq<u8>)> {
    es.map_values(|e: (u64, Vec<u8>)| (e.0, e.1@))
}

/// The listing of a hash index as plain values.
pub open spec fn index_rows(es: Seq<([u8; 32], Vec<u8>)>) -> Seq<(Seq<u8>, Seq<u8>)> {
    es.map_values(|e: ([u8; 32], Vec<u8>)| (e.0@, e.1@))
}

/// The eight tables of a database, open for reading and writing inside one
/// write transaction. They are `redb::Table` values; nothing is known of
/// them here but what the functions below say.
#[verifier::external_body]
pub struct WriteTables<'txn> {
    path_to_id: redb::Table<'txn, &'static str, u64>,
    id_to_path: redb::Table<'txn, u64, &'static str>,
    kv_u64: redb::Table<'txn, &'static str, u64>,
    path_current: redb::Table<'txn, u64, u64>,
    file_meta: redb::Table<'txn, u64, &'static [u8]>,
    file_to_path: redb::Table<'txn, u64, u64>,
    file_state: redb::Table<'txn, u64, u8>,
    hash_index: redb::Table<'txn, [u8; 32], &'static [u8]>,
}

/// What the `path_to_id` table of an open write transaction holds.
pub uninterp spec fn held_path_ids(t: WriteTables<'_>) -> Map<Seq<char>, u64>;

/// What the `id_to_path` table of an open write transaction holds.
pub uninterp spec fn held_paths(t: WriteTables<'_>) -> Map<u64, Seq<char>>;

/// What the `kv_u64` table of an open write transaction holds.
pub uninterp spec fn held_counters(t: WriteTables<'_>) -> Map<Seq<char>, u64>;

/// What the `path_current` table of an open write transaction holds.
pub uninterp spec fn held_current(t: WriteTables<'_>) -> Map<u64, u64>;

/// What the `file_meta` table of an open write transaction holds.
pub uninterp spec fn held_meta(t: WriteTables<'_>) -> Map<u64, Seq<u8>>;

/// What the `file_to_path` table of an open write transaction holds.
pub uninterp spec fn held_file_paths(t: WriteTables<'_>) -> Map<u64, u64>;

/// What the `file_state` table of an open write transaction holds.
pub uninterp spec fn held_states(t: WriteTables<'_>) -> Map<u64, u8>;

/// What the `hash256_to_files` table of an open write transaction holds.
pub uninterp spec fn held_index(t: WriteTables<'_>) -> Map<Seq<u8>, Seq<u8>>;

/// The names under which the eight tables of an open write transaction
/// were opened, in the order of the fields above.
pub uninterp spec fn held_under(t: WriteTables<'_>) -> Seq<Seq<char>>;

impl<'txn> View for WriteTables<'txn> {
    type V = StoreState;

    open spec fn view(&self) -> StoreState {
        StoreState {
            path_to_id: held_path_ids(*self),
            id_to_path: held_paths(*self),
            counters: held_counters(*self),
            path_current: held_current(*self),
            file_meta: held_meta(*self),
            file_to_path: held_file_paths(*self),
            file_state: held_states(*self),
            hash_index: held_index(*self),
        }
    }
}

/// Calls `redb::Database::begin_write`. Nothing is claimed of the result.
/// The call waits while another write transaction of the same database is
/// open, so the library opens at most one at a time.
#[verifier::external_body]
pub(crate) fn begin_write(db: &redb::Database) -> (r: Result<redb::WriteTransaction, redb::Error>)
{
    Ok(db.begin_write()?)
}

/// Calls `redb::WriteTransaction::open_table` once for each of the eight
/// tables, under the names given, which creates those that do not exist
/// yet. The tables that come back are those of these names; nothing is
/// claimed of what they hold. The engine takes no empty name.
#[verifier::external_body]
pub(crate) fn open_write_tables<'txn>(
    tx: &'txn redb::WriteTransaction,
    path_to_id: &str,
    id_to_path: &str,
    kv_u64: &str,
    path_current: &str,
    file_meta: &str,
    file_to_path: &str,
    file_state: &str,
    hash_index: &str,
) -> (r: Result<WriteTables<'txn>, redb::Error>)
    requires
        path_to_id@.len() > 0,
        id_to_path@.len() > 0,
        kv_u64@.len() > 0,
        path_current@.len() > 0,
        file_meta@.len() > 0,
        file_to_path@.len() > 0,
        file_state@.len() > 0,
        hash_index@.len() > 0,
    ensures
        r matches Ok(t) ==> held_under(t) == seq![
            path_to_id@,
            id_to_path@,
            kv_u64@,
            path_current@,
            file_meta@,
            file_to_path@,
            file_state@,
            hash_index@,
        ],
{
    Ok(WriteTables {
        path_to_id: tx.open_table(redb::TableDefinition::new(path_to_id))?,
        id_to_path: tx.open_table(redb::TableDefinition::new(id_to_path))?,
        kv_u64: tx.open_table(redb::TableDefinition::new(kv_u64))?,
        path_current: tx.open_table(redb::TableDefinition::new(path_current))?,
        file_meta: tx.open_table(redb::TableDefinition::new(file_meta))?,
        file_to_path: tx.open_table(redb::TableDefinition::new(file_to_path))?,
        file_state: tx.open_table(redb::TableDefinition::new(file_state))?,
        hash_index: tx.open_table(redb::TableDefinition::new(hash_index))?,
    })
}

/// Calls `redb::WriteTransaction::commit`. Nothing is claimed of the result.
#[verifier::external_body]
pub(crate) fn commit(tx: redb::WriteTransaction) -> (r: Result<(), redb::Error>)
{
    Ok(tx.commit()?)
}

/// Calls `get` of `redb::Table` on the `path_to_id` table: the identifier
/// stored under the path, if any.
#[verifier::external_body]
pub(crate) fn held_path_id(t: &WriteTables<'_>, path: &str) -> (r: Result<Option<u64>, redb::Error>)
    ensures
        r matches Ok(v) ==> v == lookup(held_path_ids(*t), path@),
{
    Ok(t.path_to_id.get(path)?.map(|g| g.value()))
}

/// Calls `get` of `redb::Table` on the `id_to_path` table: the path stored
/// under the identifier, if any.
#[verifier::external_body]
pub(crate) fn held_path(t: &WriteTables<'_>, pid: u64) -> (r: Result<Option<String>, redb::Error>)
    ensures
        r matches Ok(v) ==> chars_of(v) == lookup(held_paths(*t), pid),
{
    Ok(t.id_to_path.get(pid)?.map(|g| g.value().to_string()))
}

/// Calls `get` of `redb::Table` on the `kv_u64` table: the value of the named
/// counter, if it was ever set.
#[verifier::external_body]
pub(crate) fn held_counter(t: &WriteTables<'_>, name: &str) -> (r: Result<Option<u64>, redb::Error>)
    ensures
        r matches Ok(v) ==> v == lookup(held_counters(*t), name@),
{
    Ok(t.kv_u64.get(name)?.map(|g| g.value()))
}

/// Calls `get` of `redb::Table` on the `path_current` table: the value stored
/// under the key, if any.
#[verifier::external_body]
pub(crate) fn held_current_id(t: &WriteTables<'_>, pid: u64) -> (r: Result<Option<u64>, redb::Error>)
    ensures
        r matches Ok(v) ==> v == lookup(held_current(*t), pid),
{
    Ok(t.path_current.get(pid)?.map(|g| g.value()))
}

/// Calls `get` of `redb::Table` on the `file_state` table: the value stored
/// under the key, if any.
#[verifier::external_body]
pub(crate) fn held_state(t: &WriteTables<'_>, fid: u64) -> (r: Result<Option<u8>, redb::Error>)
    ensures
        r matches Ok(v) ==> v == lookup(held_states(*t), fid),
{
    Ok(t.file_state.get(fid)?.map(|g| g.value()))
}

/// Calls `get` of `redb::Table` on the `hash256_to_files` table: the value
/// stored under the key, if any.
#[verifier::external_body]
pub(crate) fn held_index_entry(t: &WriteTables<'_>, hash: &[u8; 32]) -> (r: Result<
    Option<Vec<u8>>,
    redb::Error,
>)
    ensures
        r matches Ok(v) ==> bytes_of(v) == lookup(held_index(*t), hash@),
{
    Ok(t.hash_index.get(hash)?.map(|g| g.value().to_vec()))
}

/// Calls `iter` of `redb::Table` on the `path_current` table and collects what
/// it yields: every pair of the table, in ascending order of the path
/// identifier.
#[verifier::external_body]
pub(crate) fn held_current_rows(t: &WriteTables<'_>) -> (r: Result<Vec<(u64, u64)>, redb::Error>)
    ensures
        r matches Ok(es) ==> lists_by_id(es@, held_current(*t)),
{
    let rows = t.path_current.iter()?.map(|e| e.map(|(k, v)| (k.value(), v.value())));
    Ok(rows.collect::<Result<Vec<(u64, u64)>, redb::StorageError>>()?)
}

/// Calls `insert` of `redb::Table` on the `path_to_id` table: the path maps to
/// the identifier afterwards, and the other tables hold what they held.
#[verifier::external_body]
pub(crate) fn put_path_id(t: &mut WriteTables<'_>, path: &str, pid: u64) -> (r: Result<
    (),
    redb::Error,
>)
    ensures
        r is Ok ==> held_path_ids(*final(t)) == held_path_ids(*old(t)).insert(path@, pid),
        r is Ok ==> final(t)@ == (StoreState { path_to_id: held_path_ids(*final(t)), ..old(t)@ }),
{
    t.path_to_id.insert(path, pid)?;
    Ok(())
}

/// Calls `insert` of `redb::Table` on the `id_to_path` table: the key maps to
/// the value afterwards, and the other tables hold what they held.
#[verifier::external_body]
pub(crate) fn put_path(t: &mut WriteTables<'_>, pid: u64, path: &str) -> (r: Result<
    (),
    redb::Error,
>)
    ensures
        r is Ok ==> held_paths(*final(t)) == held_paths(*old(t)).insert(pid, path@),
        r is Ok ==> final(t)@ == (StoreState { id_to_path: held_paths(*final(t)), ..old(t)@ }),
{
    t.id_to_path.insert(pid, path)?;
    Ok(())
}

/// Calls `insert` of `redb::Table` on the `kv_u64` table: the key maps to the
/// value afterwards, and the other tables hold what they held.
#[verifier::external_body]
pub(crate) fn put_counter(t: &mut WriteTables<'_>, name: &str, value: u64) -> (r: Result<
    (),
    redb::Error,
>)
    ensures
        r is Ok ==> held_counters(*final(t)) == held_counters(*old(t)).insert(name@, value),
        r is Ok ==> final(t)@ == (StoreState { counters: held_counters(*final(t)), ..old(t)@ }),
{
    t.kv_u64.insert(name, value)?;
    Ok(())
}

/// Calls `insert` of `redb::Table` on the `path_current` table: the key maps
/// to the value afterwards, and the other tables hold what they held.
#[verifier::external_body]
pub(crate) fn put_current(t: &mut WriteTables<'_>, pid: u64, fid: u64) -> (r: Result<
    (),
    redb::Error,
>)
    ensures
        r is Ok ==> held_current(*final(t)) == held_current(*old(t)).insert(pid, fid),
        r is Ok ==> final(t)@ == (StoreState { path_current: held_current(*final(t)), ..old(t)@ }),
{
    t.path_current.insert(pid, fid)?;
    Ok(())
}

/// Calls `insert` of `redb::Table` on the `file_meta` table: the key maps to
/// the value afterwards, and the other tables hold what they held.
#[verifier::external_body]
pub(crate) fn put_meta(t: &mut WriteTables<'_>, fid: u64, blob: &[u8]) -> (r: Result<
    (),
    redb::Error,
>)
    ensures
        r is Ok ==> held_meta(*final(t)) == held_meta(*old(t)).insert(fid, blob@),
        r is Ok ==> final(t)@ == (StoreState { file_meta: held_meta(*final(t)), ..old(t)@ }),
{
    t.file_meta.insert(fid, blob)?;
    Ok(())
}

/// Calls `insert` of `redb::Table` on the `file_to_path` table: the key maps
/// to the value afterwards, and the other tables hold what they held.
#[verifier::external_body]
pub(crate) fn put_file_path(t: &mut WriteTables<'_>, fid: u64, pid: u64) -> (r: Result<
    (),
    redb::Error,
>)
    ensures
        r is Ok ==> held_file_paths(*final(t)) == held_file_paths(*old(t)).insert(fid, pid),
        r is Ok ==> final(t)@ == (StoreState { file_to_path: held_file_paths(*final(t)), ..old(t)@ }),
{
    t.file_to_path.insert(fid, pid)?;
    Ok(())
}

/// Calls `insert` of `redb::Table` on the `file_state` table: the key maps to
/// the value afterwards, and the other tables hold what they held.
#[verifier::external_body]
pub(crate) fn put_state(t: &mut WriteTables<'_>, fid: u64, code: u8) -> (r: Result<
    (),
    redb::Error,
>)
    ensures
        r is Ok ==> held_states(*final(t)) == held_states(*old(t)).insert(fid, code),
        r is Ok ==> final(t)@ == (StoreState { file_state: held_states(*final(t)), ..old(t)@ }),
{
    t.file_state.insert(fid, code)?;
    Ok(())
}

/// Calls `insert` of `redb::Table` on the `hash256_to_files` table: the key
/// maps to the value afterwards, and the other tables hold what they held.
#[verifier::external_body]
pub(crate) fn put_index_entry(t: &mut WriteTables<'_>, hash: &[u8; 32], packed: &[u8]) -> (r:
    Result<(), redb::Error>)
    ensures
        r is Ok ==> held_index(*final(t)) == held_index(*old(t)).insert(hash@, packed@),
        r is Ok ==> final(t)@ == (StoreState { hash_index: held_index(*final(t)), ..old(t)@ }),
{
    t.hash_index.insert(hash, packed)?;
    Ok(())
}

/// The tables that queries read, as one read transaction sees them: what was
/// committed before the transaction began. They are `redb::ReadOnlyTable`
/// values; nothing is known of them here but what the functions below say.
#[verifier::external_body]
pub struct Snapshot {
    path_to_id: redb::ReadOnlyTable<&'static str, u64>,
    id_to_path: redb::ReadOnlyTable<u64, &'static str>,
    path_current: redb::ReadOnlyTable<u64, u64>,
    file_meta: redb::ReadOnlyTable<u64, &'static [u8]>,
    file_to_path: redb::ReadOnlyTable<u64, u64>,
    file_state: redb::ReadOnlyTable<u64, u8>,
    hash_index: redb::ReadOnlyTable<[u8; 32], &'static [u8]>,
}

/// What the `path_to_id` table of a snapshot holds.
pub uninterp spec fn seen_path_ids(t: Snapshot) -> Map<Seq<char>, u64>;

/// What the `id_to_path` table of a snapshot holds.
pub uninterp spec fn seen_paths(t: Snapshot) -> Map<u64, Seq<char>>;

/// What the `path_current` table of a snapshot holds.
pub uninterp spec fn seen_current(t: Snapshot) -> Map<u64, u64>;

/// What the `file_meta` table of a snapshot holds.
pub uninterp spec fn seen_meta(t: Snapshot) -> Map<u64, Seq<u8>>;

/// What the `file_to_path` table of a snapshot holds.
pub uninterp spec fn seen_file_paths(t: Snapshot) -> Map<u64, u64>;

/// What the `file_state` table of a snapshot holds.
pub uninterp spec fn seen_states(t: Snapshot) -> Map<u64, u8>;

/// What the `hash256_to_files` table of a snapshot holds.
pub uninterp spec fn seen_index(t: Snapshot) -> Map<Seq<u8>, Seq<u8>>;

/// The names under which the seven tables of a snapshot were opened, in
/// the order of the fields above.
pub uninterp spec fn seen_under(t: Snapshot) -> Seq<Seq<char>>;

impl View for Snapshot {
    type V = StoreState;

    /// The snapshot as a store state. A snapshot does not read the counters,
    /// so that table is shown empty; what holds of the other seven is
    /// `invariants::consistent_for_reads`.
    open spec fn view(&self) -> StoreState {
        StoreState {
            path_to_id: seen_path_ids(*self),
            id_to_path: seen_paths(*self),
            counters: Map::empty(),
            path_current: seen_current(*self),
            file_meta: seen_meta(*self),
            file_to_path: seen_file_paths(*self),
            file_state: seen_states(*self),
            hash_index: seen_index(*self),
        }
    }
}

/// Calls `redb::Database::begin_read`. Nothing is claimed of the result.
#[verifier::external_body]
pub(crate) fn begin_read(db: &redb::Database) -> (r: Result<redb::ReadTransaction, redb::Error>)
{
    Ok(db.begin_read()?)
}

/// Calls `redb::ReadTransaction::open_table` once for each of the seven
/// tables that queries read, under the names given. It fails where one of
/// them was never created. The tables that come back are those of these
/// names; nothing is claimed of what they hold. The engine takes no empty
/// name.
#[verifier::external_body]
pub(crate) fn open_snapshot(
    tx: &redb::ReadTransaction,
    path_to_id: &str,
    id_to_path: &str,
    path_current: &str,
    file_meta: &str,
    file_to_path: &str,
    file_state: &str,
    hash_index: &str,
) -> (r: Result<Snapshot, redb::Error>)
    requires
        path_to_id@.len() > 0,
        id_to_path@.len() > 0,
        path_current@.len() > 0,
        file_meta@.len() > 0,
        file_to_path@.len() > 0,
        file_state@.len() > 0,
        hash_index@.len() > 0,
    ensures
        r matches Ok(t) ==> seen_under(t) == seq![
            path_to_id@,
            id_to_path@,
            path_current@,
            file_meta@,
            file_to_path@,
            file_state@,
            hash_index@,
        ],
{
    Ok(Snapshot {
        path_to_id: tx.open_table(redb::TableDefinition::new(path_to_id))?,
        id_to_path: tx.open_table(redb::TableDefinition::new(id_to_path))?,
        path_current: tx.open_table(redb::TableDefinition::new(path_current))?,
        file_meta: tx.open_table(redb::TableDefinition::new(file_meta))?,
        file_to_path: tx.open_table(redb::TableDefinition::new(file_to_path))?,
        file_state: tx.open_table(redb::TableDefinition::new(file_state))?,
        hash_index: tx.open_table(redb::TableDefinition::new(hash_index))?,
    })
}

/// Calls `get` of `redb::ReadOnlyTable` on the `path_to_id` table of a
/// snapshot: the value stored under the key, if any.
#[verifier::external_body]
pub(crate) fn seen_path_id(t: &Snapshot, path: &str) -> (r: Result<Option<u64>, redb::Error>)
    ensures
        r matches Ok(v) ==> v == lookup(seen_path_ids(*t), path@),
{
    Ok(t.path_to_id.get(path)?.map(|g| g.value()))
}

/// Calls `get` of `redb::ReadOnlyTable` on the `id_to_path` table of a
/// snapshot: the value stored under the key, if any.
#[verifier::external_body]
pub(crate) fn seen_path(t: &Snapshot, pid: u64) -> (r: Result<Option<String>, redb::Error>)
    ensures
        r matches Ok(v) ==> chars_of(v) == lookup(seen_paths(*t), pid),
{
    Ok(t.id_to_path.get(pid)?.map(|g| g.value().to_string()))
}

/// Calls `get` of `redb::ReadOnlyTable` on the `path_current` table of a
/// snapshot: the value stored under the key, if any.
#[verifier::external_body]
pub(crate) fn seen_current_id(t: &Snapshot, pid: u64) -> (r: Result<Option<u64>, redb::Error>)
    ensures
        r matches Ok(v) ==> v == lookup(seen_current(*t), pid),
{
    Ok(t.path_current.get(pid)?.map(|g| g.value()))
}

/// Calls `get` of `redb::ReadOnlyTable` on the `file_meta` table of a
/// snapshot: the value stored under the key, if any.
#[verifier::external_body]
pub(crate) fn seen_meta_blob(t: &Snapshot, fid: u64) -> (r: Result<Option<Vec<u8>>, redb::Error>)
    ensures
        r matches Ok(v) ==> bytes_of(v) == lookup(seen_meta(*t), fid),
{
    Ok(t.file_meta.get(fid)?.map(|g| g.value().to_vec()))
}

/// Calls `get` of `redb::ReadOnlyTable` on the `file_to_path` table of a
/// snapshot: the value stored under the key, if any.
#[verifier::external_body]
pub(crate) fn seen_file_path(t: &Snapshot, fid: u64) -> (r: Result<Option<u64>, redb::Error>)
    ensures
        r matches Ok(v) ==> v == lookup(seen_file_paths(*t), fid),
{
    Ok(t.file_to_path.get(fid)?.map(|g| g.value()))
}

/// Calls `get` of `redb::ReadOnlyTable` on the `file_state` table of a
/// snapshot: the value stored under the key, if any.
#[verifier::external_body]
pub(crate) fn seen_state(t: &Snapshot, fid: u64) -> (r: Result<Option<u8>, redb::Error>)
    ensures
        r matches Ok(v) ==> v == lookup(seen_states(*t), fid),
{
    Ok(t.file_state.get(fid)?.map(|g| g.value()))
}

/// Calls `get` of `redb::ReadOnlyTable` on the `hash256_to_files` table of a
/// snapshot: the value stored under the key, if any.
#[verifier::external_body]
pub(crate) fn seen_index_entry(t: &Snapshot, hash: &[u8; 32]) -> (r: Result<
    Option<Vec<u8>>,
    redb::Error,
>)
    ensures
        r matches Ok(v) ==> bytes_of(v) == lookup(seen_index(*t), hash@),
{
    Ok(t.hash_index.get(hash)?.map(|g| g.value().to_vec()))
}

/// Calls `iter` of `redb::ReadOnlyTable` on the `file_state` table of a
/// snapshot and collects what it yields: every pair, in ascending order of the
/// file identifier.
#[verifier::external_body]
pub(crate) fn seen_state_rows(t: &Snapshot) -> (r: Result<Vec<(u64, u8)>, redb::Error>)
    ensures
        r matches Ok(es) ==> lists_by_id(es@, seen_states(*t)),
{
    let rows = t.file_state.iter()?.map(|e| e.map(|(k, v)| (k.value(), v.value())));
    Ok(rows.collect::<Result<Vec<(u64, u8)>, redb::StorageError>>()?)
}

/// Calls `iter` of `redb::ReadOnlyTable` on the `file_meta` table of a
/// snapshot and collects what it yields: every pair, in ascending order of the
/// file identifier.
#[verifier::external_body]
pub(crate) fn seen_meta_rows(t: &Snapshot) -> (r: Result<Vec<(u64, Vec<u8>)>, redb::Error>)
    ensures
        r matches Ok(es) ==> lists_by_id(meta_rows(es@), seen_meta(*t)),
{
    let rows = t.file_meta.iter()?.map(|e| e.map(|(k, v)| (k.value(), v.value().to_vec())));
    Ok(rows.collect::<Result<Vec<(u64, Vec<u8>)>, redb::StorageError>>()?)
}

/// Calls `iter` of `redb::ReadOnlyTable` on the `hash256_to_files` table of a
/// snapshot and collects what it yields: every pair, in ascending
/// lexicographic order of the hash.
#[verifier::external_body]
pub(crate) fn seen_index_rows(t: &Snapshot) -> (r: Result<Vec<([u8; 32], Vec<u8>)>, redb::Error>)
    ensures
        r matches Ok(es) ==> lists_by_bytes(index_rows(es@), seen_index(*t)),
{
    let rows = t.hash_index.iter()?.map(|e| e.map(|(k, v)| (k.value(), v.value().to_vec())));
    Ok(rows.collect::<Result<Vec<([u8; 32], Vec<u8>)>, redb::StorageError>>()?)
}

} // verus!
