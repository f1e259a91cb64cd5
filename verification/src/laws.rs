//! What holds of every scan.
//!
//! The functions of this module prove nothing about one run: they state what
//! follows from the definition of a scan for every listing, every cache and
//! every choice of digests.

use crate::cache::Table;
use crate::duplicates::{
    belongs_to, class_of, lemma_duplicates_complete, lemma_duplicates_well_grouped,
    lemma_group_is_class, same_content,
};
use crate::file_info::FileView;
use crate::scanner::{
    bounds_in_order, cached, contends, digest_at, distinct_paths, fingerprinted, is_requested,
    modified_of, record_of, resolved, scan_groups, size_of, table_after, EntryView, Filter,
};
use vstd::prelude::*;

verus! {

/// The lower bound is inclusive: of the visible regular files, one of
/// exactly the smallest size is a candidate, one a byte smaller is not, and
/// no candidate is smaller.
pub proof fn lemma_min_size_is_inclusive(filter: Filter, entry: EntryView)
    requires
        bounds_in_order(filter.min_size, filter.max_size),
        filter.min_size is Some,
        entry.is_file,
        !filter.hides(entry),
        entry.metadata is Some,
    ensures
        size_of(entry) == filter.min_size.unwrap() ==> filter.accepts(entry),
        size_of(entry) == filter.min_size.unwrap() - 1 ==> !filter.accepts(entry),
        filter.accepts(entry) ==> size_of(entry) >= filter.min_size.unwrap(),
{
}

/// The upper bound is inclusive: of the visible regular files, one of
/// exactly the largest size is a candidate, one a byte larger is not, and no
/// candidate is larger.
pub proof fn lemma_max_size_is_inclusive(filter: Filter, entry: EntryView)
    requires
        bounds_in_order(filter.min_size, filter.max_size),
        filter.max_size is Some,
        entry.is_file,
        !filter.hides(entry),
        entry.metadata is Some,
    ensures
        size_of(entry) == filter.max_size.unwrap() ==> filter.accepts(entry),
        size_of(entry) == filter.max_size.unwrap() + 1 ==> !filter.accepts(entry),
        filter.accepts(entry) ==> size_of(entry) <= filter.max_size.unwrap(),
{
}

/// A scan without a cache ends without a cache.
proof fn lemma_no_table(
    filter: Filter,
    entries: Seq<EntryView>,
    digests: Seq<Option<Seq<char>>>,
    n: int,
)
    ensures
        table_after(filter, None, entries, digests, n) is None,
    decreases n,
{
    if n > 0 {
        lemma_no_table(filter, entries, digests, n - 1);
    }
}

/// A scan with a cache ends with a cache.
proof fn lemma_some_table(
    filter: Filter,
    table: Option<Table>,
    entries: Seq<EntryView>,
    digests: Seq<Option<Seq<char>>>,
    n: int,
)
    requires
        table is Some,
    ensures
        table_after(filter, table, entries, digests, n) is Some,
    decreases n,
{
    if n > 0 {
        lemma_some_table(filter, table, entries, digests, n - 1);
    }
}

/// Once an entry has its fingerprint, the cache answers for it with that
/// fingerprint for the rest of the scan; where the entry got none, the cache
/// goes on knowing nothing of it.
proof fn lemma_cache_keeps_answer(
    filter: Filter,
    table: Option<Table>,
    entries: Seq<EntryView>,
    digests: Seq<Option<Seq<char>>>,
    i: int,
    n: int,
)
    requires
        table is Some,
        distinct_paths(entries),
        0 <= i < n <= entries.len(),
        contends(filter, entries, i),
    ensures
        cached(
            table_after(filter, table, entries, digests, n),
            entries[i].path,
            size_of(entries[i]),
            modified_of(entries[i]),
        ) == resolved(
            table_after(filter, table, entries, digests, i),
            entries[i].path,
            size_of(entries[i]),
            modified_of(entries[i]),
            digest_at(digests, i),
        ),
    decreases n,
{
    lemma_some_table(filter, table, entries, digests, n - 1);
    if n > i + 1 {
        lemma_cache_keeps_answer(filter, table, entries, digests, i, n - 1);
        assert(entries[i].path != entries[n - 1].path);
    }
}

/// A second scan of the same listing with the same digests, begun with the
/// cache that the first scan left, sees the same fingerprints as the first
/// and leaves the cache as it found it.
proof fn lemma_rescan_prefix(
    filter: Filter,
    table: Option<Table>,
    entries: Seq<EntryView>,
    digests: Seq<Option<Seq<char>>>,
    k: int,
)
    requires
        distinct_paths(entries),
        0 <= k <= entries.len(),
    ensures
        table_after(
            filter,
            table_after(filter, table, entries, digests, entries.len() as int),
            entries,
            digests,
            k,
        ) == table_after(filter, table, entries, digests, entries.len() as int),
        fingerprinted(
            filter,
            table_after(filter, table, entries, digests, entries.len() as int),
            entries,
            digests,
            k,
        ) == fingerprinted(filter, table, entries, digests, k),
    decreases k,
{
    let end = table_after(filter, table, entries, digests, entries.len() as int);
    if k > 0 {
        lemma_rescan_prefix(filter, table, entries, digests, k - 1);
        if contends(filter, entries, k - 1) {
            if table is Some {
                lemma_cache_keeps_answer(
                    filter,
                    table,
                    entries,
                    digests,
                    k - 1,
                    entries.len() as int,
                );
                lemma_some_table(filter, table, entries, digests, entries.len() as int);
            } else {
                lemma_no_table(filter, entries, digests, entries.len() as int);
                lemma_no_table(filter, entries, digests, k - 1);
            }
        }
    }
}

/// Every record that a scan groups is the record of an entry of the listing.
pub proof fn lemma_fingerprinted_from_entries(
    filter: Filter,
    table: Option<Table>,
    entries: Seq<EntryView>,
    digests: Seq<Option<Seq<char>>>,
    n: int,
    k: int,
)
    requires
        0 <= n <= entries.len(),
        0 <= k < fingerprinted(filter, table, entries, digests, n).len(),
    ensures
        exists|i: int|
            0 <= i < n && #[trigger] record_of(filter, table, entries, digests, i) == Some(
                fingerprinted(filter, table, entries, digests, n)[k],
            ),
    decreases n,
{
    let before = fingerprinted(filter, table, entries, digests, n - 1);
    if k < before.len() {
        lemma_fingerprinted_from_entries(filter, table, entries, digests, n - 1, k);
        let i = choose|i: int|
            0 <= i < n - 1 && #[trigger] record_of(filter, table, entries, digests, i) == Some(
                before[k],
            );
        assert(record_of(filter, table, entries, digests, i) == Some(
            fingerprinted(filter, table, entries, digests, n)[k],
        ));
    } else {
        assert(record_of(filter, table, entries, digests, n - 1) == Some(
            fingerprinted(filter, table, entries, digests, n)[k],
        ));
    }
}

/// The key of a group is the fingerprint of each of its members: every
/// member of every group that a scan returns is the record of an entry that
/// had to be fingerprinted, has the path and the size of that entry, and got
/// the group's fingerprint from the cache or from the entry's digest.
/// Without a cache the group's fingerprint is the entry's digest.
pub proof fn lemma_members_have_the_group_fingerprint(
    filter: Filter,
    table: Option<Table>,
    entries: Seq<EntryView>,
    digests: Seq<Option<Seq<char>>>,
    g: int,
    m: int,
)
    requires
        0 <= g < scan_groups(filter, table, entries, digests).len(),
        0 <= m < scan_groups(filter, table, entries, digests)[g].files.len(),
    ensures
        exists|i: int|
            0 <= i < entries.len() && contends(filter, entries, i) && #[trigger] record_of(
                filter,
                table,
                entries,
                digests,
                i,
            ) == Some(scan_groups(filter, table, entries, digests)[g].files[m]) && resolved(
                table_after(filter, table, entries, digests, i),
                entries[i].path,
                size_of(entries[i]),
                modified_of(entries[i]),
                digest_at(digests, i),
            ) == Some(scan_groups(filter, table, entries, digests)[g].hash) && size_of(entries[i])
                == scan_groups(filter, table, entries, digests)[g].size && (table is None
                ==> digest_at(digests, i) == Some(
                scan_groups(filter, table, entries, digests)[g].hash,
            )),
{
    let n = entries.len() as int;
    let files = fingerprinted(filter, table, entries, digests, n);
    let group = scan_groups(filter, table, entries, digests)[g];
    let member = group.files[m];
    lemma_duplicates_well_grouped(files);
    lemma_group_is_class(files, g);
    let head = group.files[0];
    assert(group.files.contains(member));
    files.lemma_filter_contains_rev(|f: FileView| same_content(head, f), member);
    let k = choose|k: int| 0 <= k < files.len() && files[k] == member;
    lemma_fingerprinted_from_entries(filter, table, entries, digests, n, k);
    let i = choose|i: int|
        0 <= i < n && #[trigger] record_of(filter, table, entries, digests, i) == Some(files[k]);
    assert(belongs_to(group, member));
    if table is None {
        lemma_no_table(filter, entries, digests, i);
    }
}

/// Where no path occurs twice, the cache knows of an entry that is still to
/// come what it knew when the scan began.
proof fn lemma_cache_waits(
    filter: Filter,
    table: Option<Table>,
    entries: Seq<EntryView>,
    digests: Seq<Option<Seq<char>>>,
    k: int,
    i: int,
)
    requires
        distinct_paths(entries),
        0 <= k <= i < entries.len(),
    ensures
        cached(
            table_after(filter, table, entries, digests, k),
            entries[i].path,
            size_of(entries[i]),
            modified_of(entries[i]),
        ) == cached(table, entries[i].path, size_of(entries[i]), modified_of(entries[i])),
    decreases k,
{
    if k > 0 {
        lemma_cache_waits(filter, table, entries, digests, k - 1, i);
        assert(entries[k - 1].path != entries[i].path);
    }
}

/// Two scans of one listing whose digests agree wherever the content had to
/// be read go the same way.
proof fn lemma_same_requests_prefix(
    filter: Filter,
    table: Option<Table>,
    entries: Seq<EntryView>,
    digests: Seq<Option<Seq<char>>>,
    others: Seq<Option<Seq<char>>>,
    k: int,
)
    requires
        distinct_paths(entries),
        0 <= k <= entries.len(),
        forall|i: int|
            is_requested(filter, table, entries, i) ==> digest_at(digests, i) == digest_at(
                others,
                i,
            ),
    ensures
        table_after(filter, table, entries, digests, k) == table_after(
            filter,
            table,
            entries,
            others,
            k,
        ),
        fingerprinted(filter, table, entries, digests, k) == fingerprinted(
            filter,
            table,
            entries,
            others,
            k,
        ),
    decreases k,
{
    if k > 0 {
        lemma_same_requests_prefix(filter, table, entries, digests, others, k - 1);
        lemma_cache_waits(filter, table, entries, digests, k - 1, k - 1);
        if contends(filter, entries, k - 1) && !is_requested(filter, table, entries, k - 1) {
            assert(cached(
                table,
                entries[k - 1].path,
                size_of(entries[k - 1]),
                modified_of(entries[k - 1]),
            ) is Some);
        }
    }
}

/// Only the digests that were asked for count: where no path occurs twice,
/// a scan returns the same groups and leaves the same cache whatever the
/// digests of the entries whose content did not have to be read.
pub proof fn lemma_only_requested_digests_count(
    filter: Filter,
    table: Option<Table>,
    entries: Seq<EntryView>,
    digests: Seq<Option<Seq<char>>>,
    others: Seq<Option<Seq<char>>>,
)
    requires
        distinct_paths(entries),
        forall|i: int|
            is_requested(filter, table, entries, i) ==> digest_at(digests, i) == digest_at(
                others,
                i,
            ),
    ensures
        scan_groups(filter, table, entries, digests) == scan_groups(filter, table, entries, others),
        table_after(filter, table, entries, digests, entries.len() as int) == table_after(
            filter,
            table,
            entries,
            others,
            entries.len() as int,
        ),
{
    lemma_same_requests_prefix(filter, table, entries, digests, others, entries.len() as int);
}

/// Scanning twice gives the same groups: a second scan of an unchanged
/// tree, begun with the cache that the first scan left, returns the groups
/// that the first returned, with the same members, and changes the cache no
/// further.
pub proof fn lemma_rescan_finds_the_same(
    filter: Filter,
    table: Option<Table>,
    entries: Seq<EntryView>,
    digests: Seq<Option<Seq<char>>>,
)
    requires
        distinct_paths(entries),
    ensures
        scan_groups(
            filter,
            table_after(filter, table, entries, digests, entries.len() as int),
            entries,
            digests,
        ) == scan_groups(filter, table, entries, digests),
        table_after(
            filter,
            table_after(filter, table, entries, digests, entries.len() as int),
            entries,
            digests,
            entries.len() as int,
        ) == table_after(filter, table, entries, digests, entries.len() as int),
{
    lemma_rescan_prefix(filter, table, entries, digests, entries.len() as int);
}

/// A test that two items of a sequence pass keeps at least two items.
proof fn lemma_two_pass<A>(items: Seq<A>, test: spec_fn(A) -> bool, i: int, j: int)
    requires
        0 <= i < j < items.len(),
        test(items[i]),
        test(items[j]),
    ensures
        items.filter(test).len() >= 2,
{
    let upto_i = items.take(i + 1);
    let upto_j = items.take(j + 1);
    assert(upto_i =~= items.take(i).push(items[i]));
    assert(upto_j =~= items.take(j).push(items[j]));
    items.take(i).lemma_filter_len_push(test, items[i]);
    items.take(j).lemma_filter_len_push(test, items[j]);
    assert(items.take(j).take(i + 1) =~= upto_i);
    items.take(j).lemma_filter_take_len(test, i + 1);
    items.lemma_filter_take_len(test, j + 1);
}

/// The records of the entries come in the order of the entries: the record
/// of the entry at `i` stands where the records of the entries before it end.
proof fn lemma_record_position(
    filter: Filter,
    table: Option<Table>,
    entries: Seq<EntryView>,
    digests: Seq<Option<Seq<char>>>,
    i: int,
    n: int,
)
    requires
        0 <= i < n <= entries.len(),
        record_of(filter, table, entries, digests, i) is Some,
    ensures
        fingerprinted(filter, table, entries, digests, i).len() < fingerprinted(
            filter,
            table,
            entries,
            digests,
            n,
        ).len(),
        fingerprinted(filter, table, entries, digests, n)[fingerprinted(
            filter,
            table,
            entries,
            digests,
            i,
        ).len() as int] == record_of(filter, table, entries, digests, i).unwrap(),
    decreases n,
{
    if n > i + 1 {
        lemma_record_position(filter, table, entries, digests, i, n - 1);
    }
}

/// No duplicate is missed, and looking at sizes first loses nothing: two
/// candidates of one size that get one fingerprint are both fingerprinted,
/// and their records are members of one group.
pub proof fn lemma_duplicates_are_grouped(
    filter: Filter,
    table: Option<Table>,
    entries: Seq<EntryView>,
    digests: Seq<Option<Seq<char>>>,
    i: int,
    j: int,
)
    requires
        0 <= i < j < entries.len(),
        filter.accepts(entries[i]),
        filter.accepts(entries[j]),
        size_of(entries[i]) == size_of(entries[j]),
        resolved(
            table_after(filter, table, entries, digests, i),
            entries[i].path,
            size_of(entries[i]),
            modified_of(entries[i]),
            digest_at(digests, i),
        ) is Some,
        resolved(
            table_after(filter, table, entries, digests, i),
            entries[i].path,
            size_of(entries[i]),
            modified_of(entries[i]),
            digest_at(digests, i),
        ) == resolved(
            table_after(filter, table, entries, digests, j),
            entries[j].path,
            size_of(entries[j]),
            modified_of(entries[j]),
            digest_at(digests, j),
        ),
    ensures
        contends(filter, entries, i),
        contends(filter, entries, j),
        exists|g: int|
            0 <= g < scan_groups(filter, table, entries, digests).len() && (#[trigger] scan_groups(
                filter,
                table,
                entries,
                digests,
            )[g]).files.contains(record_of(filter, table, entries, digests, i).unwrap())
                && scan_groups(filter, table, entries, digests)[g].files.contains(
                record_of(filter, table, entries, digests, j).unwrap(),
            ),
{
    let n = entries.len() as int;
    let size = size_of(entries[i]);
    lemma_two_pass(entries, |e: EntryView| filter.accepts(e) && size_of(e) == size, i, j);
    assert(contends(filter, entries, i));
    assert(contends(filter, entries, j));
    let first = record_of(filter, table, entries, digests, i).unwrap();
    let second = record_of(filter, table, entries, digests, j).unwrap();
    let files = fingerprinted(filter, table, entries, digests, n);
    lemma_record_position(filter, table, entries, digests, i, j);
    lemma_record_position(filter, table, entries, digests, i, n);
    lemma_record_position(filter, table, entries, digests, j, n);
    let at_i = fingerprinted(filter, table, entries, digests, i).len() as int;
    let at_j = fingerprinted(filter, table, entries, digests, j).len() as int;
    assert(files[at_i] == first && files[at_j] == second && at_i < at_j);
    let alike = |f: FileView| same_content(first, f);
    lemma_two_pass(files, alike, at_i, at_j);
    lemma_duplicates_complete(files, at_i);
    let groups = scan_groups(filter, table, entries, digests);
    let g = choose|g: int|
        0 <= g < groups.len() && belongs_to(#[trigger] groups[g], files[at_i]) && groups[g].files
            == class_of(files, files[at_i]);
    files.lemma_filter_contains(alike, at_i);
    files.lemma_filter_contains(alike, at_j);
    assert(groups[g].files.contains(first) && groups[g].files.contains(second));
}

} // verus!
