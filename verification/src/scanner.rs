//! The scan: from a directory listing to the groups of duplicates.
//!
//! A scan has two phases. The first keeps the entries that pass the filter
//! and looks at their sizes: a file whose size no other candidate has cannot
//! have a duplicate, and is never fingerprinted. The second gives each
//! remaining candidate a fingerprint, from the cache where it has one for the
//! file's size and modification time, else from the digest that the caller
//! computed, and groups the candidates by size and fingerprint.

use crate::cache::{lookup, store, Cache, Stamp, Table};
use crate::duplicates::{duplicate_groups, group_duplicates, well_grouped, DuplicateSet, GroupView};
use crate::file_info::{views, FileInfo, FileView};
use crate::interactive::InteractiveConfig;
use crate::utils::{hidden_name, is_hidden};
use std::collections::HashMap;
use vstd::prelude::*;

verus! {

broadcast use vstd::std_specs::hash::group_hash_axioms;

/// Why a scan was refused.
#[derive(Clone, Copy, Debug, PartialEq, Eq, Structural)]
pub enum ScanError {
    /// The root of the scan does not exist.
    RootNotFound,
    /// The root of the scan exists and cannot be read.
    RootUnreadable,
    /// The smallest size asked for is above the largest.
    InvalidSizeBounds,
}

/// What the caller found at the root of the scan.
#[derive(Clone, Copy, Debug, PartialEq, Eq, Structural)]
pub enum RootStatus {
    Present,
    Missing,
    Unreadable,
}

/// The convention by which a platform hides files.
#[derive(Clone, Copy, Debug, PartialEq, Eq, Structural)]
pub enum HiddenRule {
    /// Unix-like systems: the file name begins with a dot.
    DotPrefix,
    /// Windows: the file system's hidden attribute is set.
    AttributeBit,
    /// Any other platform: nothing is hidden.
    Nothing,
}

/// What the file system reports of one file.
#[derive(Clone, Copy, Debug, PartialEq, Eq, Structural)]
pub struct Metadata {
    /// The size in bytes.
    pub size: u64,
    /// The time of the last modification, in seconds since the epoch.
    pub modified: u64,
}

/// One entry of a directory listing, as the traversal reports it.
#[derive(Debug)]
pub struct DirEntry {
    pub path: String,
    /// Whether the entry is a regular file.
    pub is_file: bool,
    /// Whether the file system marks the entry as hidden.
    pub hidden_attribute: bool,
    /// The entry's metadata; `None` where it could not be read.
    pub metadata: Option<Metadata>,
}

/// What a [`DirEntry`] stands for.
pub struct EntryView {
    pub path: Seq<char>,
    pub is_file: bool,
    pub hidden_attribute: bool,
    pub metadata: Option<Metadata>,
}

impl View for DirEntry {
    type V = EntryView;

    open spec fn view(&self) -> EntryView {
        EntryView {
            path: self.path@,
            is_file: self.is_file,
            hidden_attribute: self.hidden_attribute,
            metadata: self.metadata,
        }
    }
}

/// The views of a listing, in the same order.
pub open spec fn entry_views(entries: Seq<DirEntry>) -> Seq<EntryView> {
    entries.map_values(|e: DirEntry| e@)
}

/// The views of the digests that a caller hands in.
pub open spec fn digest_views(digests: Seq<Option<String>>) -> Seq<Option<Seq<char>>> {
    digests.map_values(
        |d: Option<String>|
            match d {
                Some(s) => Some(s@),
                None => None,
            },
    )
}

/// Which entries of a listing are candidates.
#[derive(Clone, Copy, Debug, PartialEq, Eq, Structural)]
pub struct Filter {
    /// The smallest size that is kept, if there is a bound.
    pub min_size: Option<u64>,
    /// The largest size that is kept, if there is a bound.
    pub max_size: Option<u64>,
    pub hidden_rule: HiddenRule,
}

impl Filter {
    /// Whether a size lies within the bounds, which are inclusive.
    pub open spec fn in_bounds(self, size: u64) -> bool {
        &&& self.min_size is Some ==> size >= self.min_size.unwrap()
        &&& self.max_size is Some ==> size <= self.max_size.unwrap()
    }

    /// Whether an entry is hidden by the rule of the platform.
    pub open spec fn hides(self, entry: EntryView) -> bool {
        match self.hidden_rule {
            HiddenRule::DotPrefix => hidden_name(entry.path),
            HiddenRule::AttributeBit => entry.hidden_attribute,
            HiddenRule::Nothing => false,
        }
    }

    /// Whether an entry is a candidate: a regular file that is not hidden,
    /// whose metadata could be read and whose size lies within the bounds.
    pub open spec fn accepts(self, entry: EntryView) -> bool {
        &&& entry.is_file
        &&& !self.hides(entry)
        &&& entry.metadata is Some
        &&& self.in_bounds(entry.metadata.unwrap().size)
    }
}

/// The size of an entry whose metadata could be read.
pub open spec fn size_of(entry: EntryView) -> u64 {
    entry.metadata.unwrap().size
}

/// Whether bounds are in order: the smallest size is not above the largest.
pub open spec fn bounds_in_order(min_size: Option<u64>, max_size: Option<u64>) -> bool {
    min_size is Some && max_size is Some ==> min_size.unwrap() <= max_size.unwrap()
}

/// The candidates of one size, in the order of the listing.
pub open spec fn bucket(filter: Filter, entries: Seq<EntryView>, size: u64) -> Seq<EntryView> {
    entries.filter(|e: EntryView| filter.accepts(e) && size_of(e) == size)
}

/// Whether the entry at `i` has to be fingerprinted: it is a candidate, and
/// at least two candidates have its size.
pub open spec fn contends(filter: Filter, entries: Seq<EntryView>, i: int) -> bool {
    &&& 0 <= i < entries.len()
    &&& filter.accepts(entries[i])
    &&& bucket(filter, entries, size_of(entries[i])).len() >= 2
}

/// The digest that the caller computed for the entry at `i`, if any.
pub open spec fn digest_at(digests: Seq<Option<Seq<char>>>, i: int) -> Option<Seq<char>> {
    if 0 <= i < digests.len() {
        digests[i]
    } else {
        None
    }
}

/// The modification time of an entry whose metadata could be read.
pub open spec fn modified_of(entry: EntryView) -> u64 {
    entry.metadata.unwrap().modified
}

/// What the cache, if there is one, knows of a file.
pub open spec fn cached(table: Option<Table>, path: Seq<char>, size: u64, modified: u64) -> Option<
    Seq<char>,
> {
    match table {
        Some(t) => lookup(t, path, size, modified),
        None => None,
    }
}

/// The fingerprint that a candidate gets: the cached one where there is one,
/// else the computed digest. `None` means that the file is left out.
pub open spec fn resolved(
    table: Option<Table>,
    path: Seq<char>,
    size: u64,
    modified: u64,
    digest: Option<Seq<char>>,
) -> Option<Seq<char>> {
    match cached(table, path, size, modified) {
        Some(hash) => Some(hash),
        None => digest,
    }
}

/// The cache after a candidate got its fingerprint: a computed digest is
/// stored, a cached fingerprint changes nothing.
pub open spec fn remembered(
    table: Option<Table>,
    path: Seq<char>,
    size: u64,
    modified: u64,
    digest: Option<Seq<char>>,
) -> Option<Table> {
    match table {
        Some(t) => if cached(table, path, size, modified) is None && digest is Some {
            Some(store(t, path, size, modified, digest.unwrap()))
        } else {
            table
        },
        None => None,
    }
}

/// The cache after the first `n` entries were dealt with, in order.
pub open spec fn table_after(
    filter: Filter,
    table: Option<Table>,
    entries: Seq<EntryView>,
    digests: Seq<Option<Seq<char>>>,
    n: int,
) -> Option<Table>
    decreases n,
{
    if n <= 0 {
        table
    } else {
        let before = table_after(filter, table, entries, digests, n - 1);
        if contends(filter, entries, n - 1) {
            remembered(
                before,
                entries[n - 1].path,
                size_of(entries[n - 1]),
                modified_of(entries[n - 1]),
                digest_at(digests, n - 1),
            )
        } else {
            before
        }
    }
}

/// The record that the scan makes of the entry at `i`: none unless the
/// entry has to be fingerprinted and gets a fingerprint, from the cache as
/// the entries before `i` left it or from its digest.
pub open spec fn record_of(
    filter: Filter,
    table: Option<Table>,
    entries: Seq<EntryView>,
    digests: Seq<Option<Seq<char>>>,
    i: int,
) -> Option<FileView> {
    let entry = entries[i];
    if contends(filter, entries, i) {
        match resolved(
            table_after(filter, table, entries, digests, i),
            entry.path,
            size_of(entry),
            modified_of(entry),
            digest_at(digests, i),
        ) {
            Some(hash) => Some(
                FileView { path: entry.path, size: size_of(entry), hash: Some(hash) },
            ),
            None => None,
        }
    } else {
        None
    }
}

/// The records of the first `n` entries that got a fingerprint, in order.
pub open spec fn fingerprinted(
    filter: Filter,
    table: Option<Table>,
    entries: Seq<EntryView>,
    digests: Seq<Option<Seq<char>>>,
    n: int,
) -> Seq<FileView>
    decreases n,
{
    if n <= 0 {
        Seq::empty()
    } else {
        let before = fingerprinted(filter, table, entries, digests, n - 1);
        match record_of(filter, table, entries, digests, n - 1) {
            Some(record) => before.push(record),
            None => before,
        }
    }
}

/// What a scan of a listing returns: the groups of duplicates among the
/// candidates that got a fingerprint.
pub open spec fn scan_groups(
    filter: Filter,
    table: Option<Table>,
    entries: Seq<EntryView>,
    digests: Seq<Option<Seq<char>>>,
) -> Seq<GroupView> {
    duplicate_groups(fingerprinted(filter, table, entries, digests, entries.len() as int))
}

/// Whether no path occurs twice in a listing, as in the listing of a tree.
pub open spec fn distinct_paths(entries: Seq<EntryView>) -> bool {
    forall|i: int, j: int|
        0 <= i < j < entries.len() ==> (#[trigger] entries[i]).path != (#[trigger] entries[j]).path
}

/// How often a size was counted.
spec fn count_of(counts: Map<u64, usize>, size: u64) -> nat {
    if counts.contains_key(size) {
        counts[size] as nat
    } else {
        0
    }
}

/// Finds duplicates among the entries of a directory listing.
pub struct Scanner {
    /// The table of known fingerprints, if caching is on.
    pub cache: Option<Cache>,
    pub filter: Filter,
}

impl Scanner {
    /// The cache as a table, if caching is on.
    pub open spec fn table(&self) -> Option<Table> {
        table_of(self.cache)
    }

    /// A scanner for files within the size bounds, with an empty cache if
    /// caching is asked for. Hidden files are told by the dot-prefix rule.
    /// A smallest size above the largest is refused.
    pub fn new(use_cache: bool, min_size: Option<u64>, max_size: Option<u64>) -> (result: Result<
        Self,
        ScanError,
    >)
        ensures
            made_for(result, use_cache, min_size, max_size),
    {
        match (min_size, max_size) {
            (Some(low), Some(high)) => {
                if low > high {
                    return Err(ScanError::InvalidSizeBounds);
                }
            },
            _ => {},
        }
        let cache = if use_cache {
            Some(Cache::new())
        } else {
            None
        };
        Ok(Scanner { cache, filter: Filter { min_size, max_size, hidden_rule: HiddenRule::DotPrefix } })
    }

    /// A scanner for the scan that a configuration asks for.
    pub fn from_config(config: &InteractiveConfig) -> (result: Result<Self, ScanError>)
        ensures
            made_for(result, config.use_cache, config.min_size, config.max_size),
    {
        Scanner::new(config.use_cache, config.min_size, config.max_size)
    }

    /// Whether an entry of the listing is a candidate.
    pub fn should_process_file(&self, entry: &DirEntry) -> (keep: bool)
        ensures
            keep == self.filter.accepts(entry@),
    {
        if !entry.is_file {
            return false;
        }
        let hidden = match self.filter.hidden_rule {
            HiddenRule::DotPrefix => is_hidden(entry.path.as_str()),
            HiddenRule::AttributeBit => entry.hidden_attribute,
            HiddenRule::Nothing => false,
        };
        if hidden {
            return false;
        }
        match entry.metadata {
            Some(metadata) => {
                match self.filter.min_size {
                    Some(min_size) => {
                        if metadata.size < min_size {
                            return false;
                        }
                    },
                    None => {},
                }
                match self.filter.max_size {
                    Some(max_size) => {
                        if metadata.size > max_size {
                            return false;
                        }
                    },
                    None => {},
                }
                true
            },
            None => false,
        }
    }

    /// Counts the candidates of each size.
    fn count_sizes(&self, entries: &Vec<DirEntry>) -> (counts: HashMap<u64, usize>)
        ensures
            forall|size: u64|
                #[trigger] count_of(counts@, size) == bucket(
                    self.filter,
                    entry_views(entries@),
                    size,
                ).len(),
    {
        let ghost all = entry_views(entries@);
        let ghost filter = self.filter;
        let mut counts: HashMap<u64, usize> = HashMap::new();
        let mut i: usize = 0;
        assert forall|size: u64| #[trigger]
            count_of(counts@, size) == bucket(filter, all.take(0), size).len() by {
            reveal(Seq::filter);
        }
        while i < entries.len()
            invariant
                i <= entries.len(),
                all == entry_views(entries@),
                filter == self.filter,
                forall|size: u64|
                    #[trigger] count_of(counts@, size) == bucket(filter, all.take(i as int), size).len(),
            decreases entries.len() - i,
        {
            let entry = &entries[i];
            let ghost seen = all.take(i as int);
            let ghost before = counts@;
            proof {
                all.lemma_take_succ_push(i as int);
                assert(all[i as int] == entry@);
                assert forall|size: u64| #[trigger]
                    bucket(filter, all.take(i + 1), size).len() == bucket(filter, seen, size).len() + (
                    if filter.accepts(entry@) && size_of(entry@) == size {
                        1int
                    } else {
                        0int
                    }) by {
                    seen.lemma_filter_len_push(
                        |e: EntryView| filter.accepts(e) && size_of(e) == size,
                        entry@,
                    );
                }
            }
            if self.should_process_file(entry) {
                match entry.metadata {
                    Some(metadata) => {
                        let size = metadata.size;
                        proof {
                            seen.lemma_filter_len(
                                |e: EntryView| filter.accepts(e) && size_of(e) == size,
                            );
                            assert(count_of(before, size) == bucket(filter, seen, size).len());
                        }
                        let so_far: usize = match counts.get(&size) {
                            Some(n) => *n,
                            None => 0,
                        };
                        counts.insert(size, so_far + 1);
                        assert forall|other: u64| #[trigger]
                            count_of(counts@, other) == bucket(filter, all.take(i + 1), other).len() by {
                            assert(count_of(before, other) == bucket(filter, seen, other).len());
                        }
                    },
                    None => {},
                }
            } else {
                assert forall|other: u64| #[trigger]
                    count_of(counts@, other) == bucket(filter, all.take(i + 1), other).len() by {
                    assert(count_of(before, other) == bucket(filter, seen, other).len());
                }
            }
            i += 1;
        }
        assert(all.take(all.len() as int) =~= all);
        counts
    }

    /// Whether at least two candidates have this size.
    fn is_shared(counts: &HashMap<u64, usize>, size: u64) -> (shared: bool)
        ensures
            shared == (count_of(counts@, size) >= 2),
    {
        match counts.get(&size) {
            Some(n) => *n >= 2,
            None => false,
        }
    }

    /// Gives one candidate its fingerprint. A fingerprint that the cache
    /// holds for this path, size and modification time is returned as it is.
    /// Else the computed digest is returned, and stored in the cache if there
    /// is one. Without either the file has no fingerprint.
    pub fn calculate_hash_cached(
        cache: &mut Option<Cache>,
        path: &str,
        size: u64,
        modified: u64,
        computed: &Option<String>,
    ) -> (hash: Option<String>)
        ensures
            text(hash) == resolved(table_of(*old(cache)), path@, size, modified, text(*computed)),
            table_of(*final(cache)) == remembered(
                table_of(*old(cache)),
                path@,
                size,
                modified,
                text(*computed),
            ),
    {
        let known = match cache {
            Some(table) => table.get_hash(path, size, modified),
            None => None,
        };
        match known {
            Some(hash) => Some(hash),
            None => {
                match computed {
                    Some(digest) => {
                        match cache {
                            Some(table) => {
                                table.insert_hash(path, size, modified, digest.as_str());
                            },
                            None => {},
                        }
                        Some(digest.clone())
                    },
                    None => None,
                }
            },
        }
    }

    /// The positions of the entries whose content has to be read: the
    /// candidates that share their size with another candidate and of which
    /// the cache, as it is now, knows nothing. They come in rising order.
    pub fn hash_requests(&self, entries: &Vec<DirEntry>) -> (requests: Vec<usize>)
        ensures
            forall|k: int|
                0 <= k < requests.len() ==> is_requested(
                    self.filter,
                    self.table(),
                    entry_views(entries@),
                    #[trigger] requests[k] as int,
                ),
            forall|k: int, l: int|
                0 <= k < l < requests.len() ==> #[trigger] requests[k] < #[trigger] requests[l],
            forall|i: int|
                is_requested(self.filter, self.table(), entry_views(entries@), i) ==> exists|k: int|
                    0 <= k < requests.len() && #[trigger] requests[k] == i,
    {
        let counts = self.count_sizes(entries);
        let ghost all = entry_views(entries@);
        let mut requests: Vec<usize> = Vec::new();
        let mut i: usize = 0;
        while i < entries.len()
            invariant
                i <= entries.len(),
                all == entry_views(entries@),
                forall|size: u64|
                    #[trigger] count_of(counts@, size) == bucket(self.filter, all, size).len(),
                forall|k: int|
                    0 <= k < requests.len() ==> #[trigger] requests[k] < i && is_requested(
                        self.filter,
                        self.table(),
                        all,
                        requests[k] as int,
                    ),
                forall|k: int, l: int|
                    0 <= k < l < requests.len() ==> #[trigger] requests[k] < #[trigger] requests[l],
                forall|j: int|
                    0 <= j < i && is_requested(self.filter, self.table(), all, j) ==> exists|k: int|
                        0 <= k < requests.len() && #[trigger] requests[k] == j,
            decreases entries.len() - i,
        {
            let entry = &entries[i];
            assert(all[i as int] == entry@);
            let ghost before = requests@;
            let mut wanted = false;
            if self.should_process_file(entry) {
                match entry.metadata {
                    Some(metadata) => {
                        if Self::is_shared(&counts, metadata.size) {
                            wanted = match &self.cache {
                                Some(table) => table.get_hash(
                                    entry.path.as_str(),
                                    metadata.size,
                                    metadata.modified,
                                ).is_none(),
                                None => true,
                            };
                        }
                    },
                    None => {},
                }
            }
            assert(wanted == is_requested(self.filter, self.table(), all, i as int));
            if wanted {
                requests.push(i);
            }
            assert forall|j: int|
                0 <= j < i + 1 && is_requested(self.filter, self.table(), all, j) implies exists|
                k: int,
            |
                0 <= k < requests.len() && #[trigger] requests[k] == j by {
                if j < i {
                    let k = choose|k: int| 0 <= k < before.len() && #[trigger] before[k] == j;
                    assert(requests[k] == j);
                } else {
                    assert(requests[requests.len() - 1] == j);
                }
            }
            i += 1;
        }
        requests
    }

    /// Finds the groups of duplicates in a directory listing.
    ///
    /// `root` says what the caller found at the root of the scan: a scan of a
    /// root that is missing or unreadable is refused, and nothing changes.
    /// `digests[i]` is the fingerprint that the caller computed of the
    /// content of `entries[i]`; it is `None`, or missing, where the content
    /// was not read or could not be read. Such a file is left out unless the
    /// cache knows its fingerprint.
    pub fn find_duplicates(
        &mut self,
        root: RootStatus,
        entries: &Vec<DirEntry>,
        digests: &Vec<Option<String>>,
    ) -> (result: Result<DuplicateSet, ScanError>)
        ensures
            final(self).filter == old(self).filter,
            match result {
                Ok(set) => {
                    &&& root == RootStatus::Present
                    &&& well_grouped(set@)
                    &&& set@ == scan_groups(
                        old(self).filter,
                        old(self).table(),
                        entry_views(entries@),
                        digest_views(digests@),
                    )
                    &&& final(self).table() == table_after(
                        old(self).filter,
                        old(self).table(),
                        entry_views(entries@),
                        digest_views(digests@),
                        entries.len() as int,
                    )
                },
                Err(e) => {
                    &&& *final(self) == *old(self)
                    &&& root == RootStatus::Missing ==> e == ScanError::RootNotFound
                    &&& root == RootStatus::Unreadable ==> e == ScanError::RootUnreadable
                    &&& root != RootStatus::Present
                },
            },
    {
        match root {
            RootStatus::Missing => {
                return Err(ScanError::RootNotFound);
            },
            RootStatus::Unreadable => {
                return Err(ScanError::RootUnreadable);
            },
            RootStatus::Present => {},
        }
        let counts = self.count_sizes(entries);
        let ghost all = entry_views(entries@);
        let ghost given = digest_views(digests@);
        let ghost filter = self.filter;
        let ghost start = self.table();
        let nothing: Option<String> = None;
        let mut files: Vec<FileInfo> = Vec::new();
        let mut i: usize = 0;
        while i < entries.len()
            invariant
                i <= entries.len(),
                all == entry_views(entries@),
                given == digest_views(digests@),
                filter == old(self).filter,
                start == old(self).table(),
                self.filter == filter,
                nothing is None,
                forall|size: u64|
                    #[trigger] count_of(counts@, size) == bucket(filter, all, size).len(),
                self.table() == table_after(filter, start, all, given, i as int),
                views(files@) == fingerprinted(filter, start, all, given, i as int),
            decreases entries.len() - i,
        {
            let entry = &entries[i];
            assert(all[i as int] == entry@);
            let ghost before = views(files@);
            if self.should_process_file(entry) {
                match entry.metadata {
                    Some(metadata) => {
                        if Self::is_shared(&counts, metadata.size) {
                            assert(contends(filter, all, i as int));
                            let computed = if i < digests.len() {
                                &digests[i]
                            } else {
                                &nothing
                            };
                            assert(text(*computed) == digest_at(given, i as int));
                            match Self::calculate_hash_cached(
                                &mut self.cache,
                                entry.path.as_str(),
                                metadata.size,
                                metadata.modified,
                                computed,
                            ) {
                                Some(hash) => {
                                    let file = FileInfo::with_hash(
                                        entry.path.clone(),
                                        metadata.size,
                                        hash,
                                    );
                                    files.push(file);
                                    assert(views(files@) =~= before.push(file@));
                                },
                                None => {},
                            }
                        }
                    },
                    None => {},
                }
            }
            i += 1;
        }
        Ok(group_duplicates(&files))
    }
}

/// What the making of a scanner gives: for bounds in order a scanner with
/// these bounds, the dot-prefix rule and, if asked for, an empty cache; for
/// bounds out of order a refusal.
pub open spec fn made_for(
    result: Result<Scanner, ScanError>,
    use_cache: bool,
    min_size: Option<u64>,
    max_size: Option<u64>,
) -> bool {
    match result {
        Ok(scanner) => {
            &&& bounds_in_order(min_size, max_size)
            &&& scanner.filter == (Filter { min_size, max_size, hidden_rule: HiddenRule::DotPrefix })
            &&& scanner.table() == if use_cache {
                Some(Map::<Seq<char>, Stamp>::empty())
            } else {
                None
            }
        },
        Err(e) => e == ScanError::InvalidSizeBounds && !bounds_in_order(min_size, max_size),
    }
}

/// The text of a string that may be missing.
pub open spec fn text(s: Option<String>) -> Option<Seq<char>> {
    match s {
        Some(t) => Some(t@),
        None => None,
    }
}

/// The table of a cache that may be missing.
pub open spec fn table_of(cache: Option<Cache>) -> Option<Table> {
    match cache {
        Some(c) => Some(c@),
        None => None,
    }
}

/// Whether the content of the entry at `i` has to be read: the entry has to
/// be fingerprinted, and the cache knows nothing of it.
pub open spec fn is_requested(
    filter: Filter,
    table: Option<Table>,
    entries: Seq<EntryView>,
    i: int,
) -> bool {
    &&& contends(filter, entries, i)
    &&& cached(table, entries[i].path, size_of(entries[i]), modified_of(entries[i])) is None
}

} // verus!
