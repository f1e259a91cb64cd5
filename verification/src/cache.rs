//! The table of known fingerprints, keyed by path.
//!
//! An entry is valid for one size and one modification time only: a file
//! that was edited in place is looked up with another time, and misses.

use vstd::hash_map::StringHashMap;
use vstd::prelude::*;

verus! {

/// One row of the table as it is persisted: the primary key is the path.
#[derive(Debug)]
pub struct CacheEntry {
    pub path: String,
    pub size: u64,
    pub modified: u64,
    pub hash: String,
}

/// What the table holds under one path.
pub struct Stamp {
    pub size: u64,
    pub modified: u64,
    pub hash: Seq<char>,
}

/// The table as a mathematical map from path to stamp.
pub type Table = Map<Seq<char>, Stamp>;

/// The fingerprint that the table answers with: the one stored under the
/// path, if size and modification time are those it was stored with.
pub open spec fn lookup(table: Table, path: Seq<char>, size: u64, modified: u64) -> Option<
    Seq<char>,
> {
    if table.contains_key(path) && table[path].size == size && table[path].modified == modified {
        Some(table[path].hash)
    } else {
        None
    }
}

/// The table after a fingerprint was stored: the entry of the path is
/// replaced, every other entry stays.
pub open spec fn store(
    table: Table,
    path: Seq<char>,
    size: u64,
    modified: u64,
    hash: Seq<char>,
) -> Table {
    table.insert(path, Stamp { size, modified, hash })
}

/// A lookup with the path, size and modification time of the latest store
/// returns the fingerprint that was stored.
pub proof fn lemma_lookup_after_store(
    table: Table,
    path: Seq<char>,
    size: u64,
    modified: u64,
    hash: Seq<char>,
)
    ensures
        lookup(store(table, path, size, modified, hash), path, size, modified) == Some(hash),
{
}

/// A lookup of the stored path with another size or another modification
/// time finds nothing, whatever the table held before.
pub proof fn lemma_lookup_stale(
    table: Table,
    path: Seq<char>,
    size: u64,
    modified: u64,
    hash: Seq<char>,
    other_size: u64,
    other_modified: u64,
)
    requires
        other_size != size || other_modified != modified,
    ensures
        lookup(store(table, path, size, modified, hash), path, other_size, other_modified) is None,
{
}

/// A store under one path changes no lookup of another path.
pub proof fn lemma_lookup_other_path(
    table: Table,
    path: Seq<char>,
    size: u64,
    modified: u64,
    hash: Seq<char>,
    other_path: Seq<char>,
    other_size: u64,
    other_modified: u64,
)
    requires
        other_path != path,
    ensures
        lookup(store(table, path, size, modified, hash), other_path, other_size, other_modified)
            == lookup(table, other_path, other_size, other_modified),
{
}

/// In a table that holds one store and nothing else, a lookup finds the
/// stored fingerprint if path, size and modification time are all those of
/// the store, and nothing if any of them differs.
pub proof fn lemma_lookup_single_store(
    path: Seq<char>,
    size: u64,
    modified: u64,
    hash: Seq<char>,
    other_path: Seq<char>,
    other_size: u64,
    other_modified: u64,
)
    ensures
        lookup(
            store(Map::empty(), path, size, modified, hash),
            other_path,
            other_size,
            other_modified,
        ) == if other_path == path && other_size == size && other_modified == modified {
            Some(hash)
        } else {
            None
        },
{
}

/// A later store under the same path replaces the earlier one.
pub proof fn lemma_store_overwrites(
    table: Table,
    path: Seq<char>,
    size: u64,
    modified: u64,
    hash: Seq<char>,
    later_size: u64,
    later_modified: u64,
    later_hash: Seq<char>,
)
    ensures
        store(
            store(table, path, size, modified, hash),
            path,
            later_size,
            later_modified,
            later_hash,
        ) == store(table, path, later_size, later_modified, later_hash),
{
    assert(store(
        store(table, path, size, modified, hash),
        path,
        later_size,
        later_modified,
        later_hash,
    ) =~= store(table, path, later_size, later_modified, later_hash));
}

/// What the table keeps in memory under one path.
struct Record {
    size: u64,
    modified: u64,
    hash: String,
}

impl View for Record {
    type V = Stamp;

    closed spec fn view(&self) -> Stamp {
        Stamp { size: self.size, modified: self.modified, hash: self.hash@ }
    }
}

/// The table of known fingerprints. It holds at most one entry for a path.
pub struct Cache {
    records: StringHashMap<Record>,
}

impl View for Cache {
    type V = Table;

    closed spec fn view(&self) -> Table {
        self.records@.map_values(|r: Record| r@)
    }
}

impl Cache {
    /// A table without entries.
    pub fn new() -> (cache: Self)
        ensures
            cache@ == Map::<Seq<char>, Stamp>::empty(),
    {
        let cache = Cache { records: StringHashMap::new() };
        assert(cache@ =~= Map::<Seq<char>, Stamp>::empty());
        cache
    }

    /// The fingerprint stored for `path`, if it was stored with this size
    /// and this modification time; `None` on any mismatch and for a path
    /// that was never stored.
    pub fn get_hash(&self, path: &str, size: u64, modified: u64) -> (found: Option<String>)
        ensures
            match found {
                Some(hash) => lookup(self@, path@, size, modified) == Some(hash@),
                None => lookup(self@, path@, size, modified) is None,
            },
    {
        match self.records.get(path) {
            Some(record) => {
                if record.size == size && record.modified == modified {
                    Some(record.hash.clone())
                } else {
                    None
                }
            },
            None => None,
        }
    }

    /// Stores the fingerprint of `path`, in place of the entry that the path
    /// had, if any.
    pub fn insert_hash(&mut self, path: &str, size: u64, modified: u64, hash: &str)
        ensures
            final(self)@ == store(old(self)@, path@, size, modified, hash@),
    {
        let record = Record { size, modified, hash: hash.to_owned() };
        self.records.insert(path.to_owned(), record);
        assert(self@ =~= store(old(self)@, path@, size, modified, hash@));
    }

    /// Stores a persisted row, in place of the entry that its path had.
    pub fn insert_entry(&mut self, entry: &CacheEntry)
        ensures
            final(self)@ == store(
                old(self)@,
                entry.path@,
                entry.size,
                entry.modified,
                entry.hash@,
            ),
    {
        self.insert_hash(entry.path.as_str(), entry.size, entry.modified, entry.hash.as_str());
    }

    /// Evicts nothing: no eviction policy is defined, so every entry stays.
    pub fn clean_old_entries(&mut self)
        ensures
            final(self)@ == old(self)@,
    {
    }
}

} // verus!
