//! Grouping of fingerprinted files into sets of duplicates.
//!
//! Two files have the same content when they have the same size and the same
//! fingerprint. The files of one content form a class; a class with at least
//! two members is a group of duplicates.

use crate::file_info::{views, FileInfo, FileView};
use std::collections::HashMap;
use vstd::prelude::*;

verus! {

broadcast use vstd::std_specs::hash::group_hash_axioms;

/// What a [`DuplicateGroup`] stands for.
pub struct GroupView {
    pub hash: Seq<char>,
    pub size: u64,
    pub files: Seq<FileView>,
}

/// Whether two records have the same content, as far as is known: the same
/// size and the same fingerprint. A record without a fingerprint has the
/// content of no record.
pub open spec fn same_content(a: FileView, b: FileView) -> bool {
    a.hash is Some && a.hash == b.hash && a.size == b.size
}

/// The records of `files` with the content of `rep`, in their order.
pub open spec fn class_of(files: Seq<FileView>, rep: FileView) -> Seq<FileView> {
    files.filter(|f: FileView| same_content(rep, f))
}

/// Whether the record at `i` is the first of its content.
pub open spec fn leads(files: Seq<FileView>, i: int) -> bool {
    &&& 0 <= i < files.len()
    &&& files[i].hash is Some
    &&& forall|j: int| 0 <= j < i ==> !same_content(#[trigger] files[j], files[i])
}

/// The positions below `n` at which a content occurs first, in rising order.
pub open spec fn leaders(files: Seq<FileView>, n: int) -> Seq<int>
    decreases n,
{
    if n <= 0 {
        Seq::empty()
    } else if leads(files, n - 1) {
        leaders(files, n - 1).push(n - 1)
    } else {
        leaders(files, n - 1)
    }
}

/// The class of the record at `i` among the first `n` records.
pub open spec fn group_at(files: Seq<FileView>, n: int, i: int) -> GroupView {
    GroupView {
        hash: files[i].hash.unwrap(),
        size: files[i].size,
        files: class_of(files.take(n), files[i]),
    }
}

/// The classes of the first `n` records, in the order of their first members.
pub open spec fn classes_upto(files: Seq<FileView>, n: int) -> Seq<GroupView> {
    let first = leaders(files, n);
    Seq::new(first.len(), |g: int| group_at(files, n, first[g]))
}

/// Whether a class is a group of duplicates: it has at least two members.
pub open spec fn is_duplicated(group: GroupView) -> bool {
    group.files.len() >= 2
}

/// The groups of duplicates among `files`: every class with at least two
/// members, each with its members in the order of `files`, the groups in the
/// order of their first members.
pub open spec fn duplicate_groups(files: Seq<FileView>) -> Seq<GroupView> {
    classes_upto(files, files.len() as int).filter(|g: GroupView| is_duplicated(g))
}

/// Whether a record belongs to a class, by its size and its fingerprint.
pub open spec fn belongs_to(group: GroupView, file: FileView) -> bool {
    file.hash == Some(group.hash) && file.size == group.size
}

/// The classes after one more record: the record joins the class it belongs
/// to, or founds a class; one without a fingerprint changes nothing.
pub open spec fn with_file(classes: Seq<GroupView>, file: FileView) -> Seq<GroupView> {
    if file.hash is None {
        classes
    } else if exists|g: int| 0 <= g < classes.len() && belongs_to(#[trigger] classes[g], file) {
        let g = choose|g: int| 0 <= g < classes.len() && belongs_to(#[trigger] classes[g], file);
        classes.update(
            g,
            GroupView { hash: classes[g].hash, size: classes[g].size, files: classes[g].files.push(file) },
        )
    } else {
        classes.push(GroupView { hash: file.hash.unwrap(), size: file.size, files: seq![file] })
    }
}

/// What is known of the positions at which contents occur first: they lie
/// below `n`, each is first of its content, they rise, and none is missing.
pub proof fn lemma_leaders(files: Seq<FileView>, n: int)
    requires
        0 <= n <= files.len(),
    ensures
        forall|g: int|
            0 <= g < leaders(files, n).len() ==> 0 <= #[trigger] leaders(files, n)[g] < n && leads(
                files,
                leaders(files, n)[g],
            ),
        forall|g: int, h: int|
            0 <= g < h < leaders(files, n).len() ==> #[trigger] leaders(files, n)[g]
                < #[trigger] leaders(files, n)[h],
        forall|i: int| 0 <= i < n && leads(files, i) ==> #[trigger] leaders(files, n).contains(i),
    decreases n,
{
    if n > 0 {
        lemma_leaders(files, n - 1);
        let prev = leaders(files, n - 1);
        let now = leaders(files, n);
        assert forall|i: int| 0 <= i < n && leads(files, i) implies #[trigger] now.contains(i) by {
            if i == n - 1 {
                assert(now[prev.len() as int] == i);
            } else {
                assert(prev.contains(i));
                let g = choose|g: int| 0 <= g < prev.len() && prev[g] == i;
                assert(now[g] == i);
            }
        }
    }
}

/// Every record with a fingerprint has the content of one that occurs first.
pub proof fn lemma_covered(files: Seq<FileView>, n: int, j: int)
    requires
        0 <= j < n <= files.len(),
        files[j].hash is Some,
    ensures
        exists|g: int|
            0 <= g < leaders(files, n).len() && same_content(
                files[#[trigger] leaders(files, n)[g]],
                files[j],
            ),
    decreases j,
{
    lemma_leaders(files, n);
    let first = leaders(files, n);
    if leads(files, j) {
        assert(first.contains(j));
        let g = choose|g: int| 0 <= g < first.len() && first[g] == j;
        assert(same_content(files[first[g]], files[j]));
    } else {
        let earlier = choose|e: int| 0 <= e < j && same_content(#[trigger] files[e], files[j]);
        lemma_covered(files, n, earlier);
        let g = choose|g: int|
            0 <= g < first.len() && same_content(files[#[trigger] first[g]], files[earlier]);
        assert(same_content(files[first[g]], files[j]));
    }
}

/// One more record changes the classes as [`with_file`] says, and belongs to
/// at most one of the classes before it.
pub proof fn lemma_classes_step(files: Seq<FileView>, k: int)
    requires
        0 <= k < files.len(),
    ensures
        classes_upto(files, k + 1) == with_file(classes_upto(files, k), files[k]),
        forall|g: int, h: int|
            0 <= g < classes_upto(files, k).len() && 0 <= h < classes_upto(files, k).len()
                && belongs_to(#[trigger] classes_upto(files, k)[g], files[k]) && belongs_to(
                #[trigger] classes_upto(files, k)[h],
                files[k],
            ) ==> g == h,
{
    let file = files[k];
    let first = leaders(files, k);
    let before = classes_upto(files, k);
    let after = classes_upto(files, k + 1);
    lemma_leaders(files, k);
    lemma_leaders(files, k + 1);
    assert(files.take(k + 1) =~= files.take(k).push(file));
    // What each class before gains.
    assert forall|g: int| 0 <= g < first.len() implies #[trigger] group_at(files, k + 1, first[g])
        == (if belongs_to(before[g], file) {
        GroupView {
            hash: before[g].hash,
            size: before[g].size,
            files: before[g].files.push(file),
        }
    } else {
        before[g]
    }) by {
        let rep = files[first[g]];
        assert(leads(files, first[g]));
        files.take(k).lemma_filter_push(file, |f: FileView| same_content(rep, f));
        assert(belongs_to(before[g], file) <==> same_content(rep, file));
    }
    // A record belongs to one class at most.
    assert forall|g: int, h: int|
        0 <= g < before.len() && 0 <= h < before.len() && belongs_to(
            #[trigger] before[g],
            file,
        ) && belongs_to(#[trigger] before[h], file) implies g == h by {
        assert(leads(files, first[g]) && leads(files, first[h]));
        if g < h {
            assert(first[g] < first[h]);
            assert(same_content(files[first[g]], files[first[h]]));
        } else if h < g {
            assert(first[h] < first[g]);
            assert(same_content(files[first[h]], files[first[g]]));
        }
    }
    if file.hash is None {
        assert(!leads(files, k));
        assert(after =~= before);
    } else if exists|g: int| 0 <= g < before.len() && belongs_to(#[trigger] before[g], file) {
        let g = choose|g: int| 0 <= g < before.len() && belongs_to(#[trigger] before[g], file);
        assert(leads(files, first[g]));
        assert(same_content(files[first[g]], files[k]));
        assert(!leads(files, k));
        assert(after =~= with_file(before, file));
    } else {
        assert forall|j: int| 0 <= j < k implies !same_content(#[trigger] files[j], file) by {
            if same_content(files[j], file) {
                lemma_covered(files, k, j);
                let g = choose|g: int|
                    0 <= g < first.len() && same_content(files[#[trigger] first[g]], files[j]);
                assert(leads(files, first[g]));
                assert(belongs_to(before[g], file));
            }
        }
        assert(leads(files, k));
        assert(leaders(files, k + 1) == first.push(k));
        let alone = |f: FileView| same_content(file, f);
        files.take(k).lemma_filter_push(file, alone);
        assert(files.take(k).filter(alone).len() == 0) by {
            files.take(k).lemma_all_neg_filter_empty(alone);
        }
        assert(class_of(files.take(k + 1), file) =~= seq![file]);
        assert(after =~= with_file(before, file));
    }
}

/// Whether two classes are of one size and one fingerprint.
pub open spec fn same_key(a: GroupView, b: GroupView) -> bool {
    a.hash == b.hash && a.size == b.size
}

/// Whether no two classes of a sequence are of one size and one fingerprint.
pub open spec fn distinct_keys(groups: Seq<GroupView>) -> bool {
    forall|g: int, h: int|
        0 <= g < h < groups.len() ==> !same_key(#[trigger] groups[g], #[trigger] groups[h])
}

/// What holds of the groups that a scan returns: every group has at least
/// two members, every member has the size and the fingerprint of its group,
/// and no two groups have both the same size and the same fingerprint.
pub open spec fn well_grouped(groups: Seq<GroupView>) -> bool {
    &&& forall|g: int| 0 <= g < groups.len() ==> (#[trigger] groups[g]).files.len() >= 2
    &&& forall|g: int, m: int|
        0 <= g < groups.len() && 0 <= m < groups[g].files.len() ==> belongs_to(
            groups[g],
            #[trigger] groups[g].files[m],
        )
    &&& distinct_keys(groups)
}

/// Every class holds records of its own size and fingerprint only, and no
/// two classes are of one size and one fingerprint.
pub proof fn lemma_classes_sound(files: Seq<FileView>, n: int)
    requires
        0 <= n <= files.len(),
    ensures
        forall|g: int, m: int|
            0 <= g < classes_upto(files, n).len() && 0 <= m < classes_upto(files, n)[g].files.len()
                ==> belongs_to(
                classes_upto(files, n)[g],
                #[trigger] classes_upto(files, n)[g].files[m],
            ),
        distinct_keys(classes_upto(files, n)),
{
    let first = leaders(files, n);
    let classes = classes_upto(files, n);
    lemma_leaders(files, n);
    assert forall|g: int, m: int|
        0 <= g < classes.len() && 0 <= m < classes[g].files.len() implies belongs_to(
        classes[g],
        #[trigger] classes[g].files[m],
    ) by {
        let rep = files[first[g]];
        assert(leads(files, first[g]));
        files.take(n).lemma_filter_pred(|f: FileView| same_content(rep, f), m);
    }
    assert forall|g: int, h: int| 0 <= g < h < classes.len() implies !same_key(
        #[trigger] classes[g],
        #[trigger] classes[h],
    ) by {
        assert(leads(files, first[g]) && leads(files, first[h]));
        assert(first[g] < first[h]);
        if same_key(classes[g], classes[h]) {
            assert(same_content(files[first[g]], files[first[h]]));
        }
    }
}

/// Leaving classes out keeps the rest apart.
proof fn lemma_filter_keeps_distinct(groups: Seq<GroupView>, keep: spec_fn(GroupView) -> bool)
    requires
        distinct_keys(groups),
    ensures
        distinct_keys(groups.filter(keep)),
    decreases groups.len(),
{
    reveal(Seq::filter);
    if groups.len() > 0 {
        let init = groups.drop_last();
        let last = groups.last();
        assert forall|g: int, h: int| 0 <= g < h < init.len() implies !same_key(
            #[trigger] init[g],
            #[trigger] init[h],
        ) by {
            assert(init[g] == groups[g] && init[h] == groups[h]);
        }
        lemma_filter_keeps_distinct(init, keep);
        let kept = init.filter(keep);
        if keep(last) {
            assert forall|g: int| 0 <= g < kept.len() implies !same_key(#[trigger] kept[g], last) by {
                assert(kept.contains(kept[g]));
                init.lemma_filter_contains_rev(keep, kept[g]);
                let a = choose|a: int| 0 <= a < init.len() && init[a] == kept[g];
                assert(groups[a] == kept[g]);
                assert(groups[groups.len() - 1] == last);
            }
        }
    }
}

/// The groups of duplicates are well grouped, whatever the records: no group
/// has fewer than two members, the members of a group all have the group's
/// size and the group's fingerprint, and two groups differ in size or in
/// fingerprint.
pub proof fn lemma_duplicates_well_grouped(files: Seq<FileView>)
    ensures
        well_grouped(duplicate_groups(files)),
{
    let classes = classes_upto(files, files.len() as int);
    let keep = |g: GroupView| is_duplicated(g);
    let groups = duplicate_groups(files);
    lemma_classes_sound(files, files.len() as int);
    lemma_filter_keeps_distinct(classes, keep);
    assert forall|g: int| 0 <= g < groups.len() implies (#[trigger] groups[g]).files.len() >= 2 by {
        classes.lemma_filter_pred(keep, g);
    }
    assert forall|g: int, m: int|
        0 <= g < groups.len() && 0 <= m < groups[g].files.len() implies belongs_to(
        groups[g],
        #[trigger] groups[g].files[m],
    ) by {
        assert(groups.contains(groups[g]));
        classes.lemma_filter_contains_rev(keep, groups[g]);
        let c = choose|c: int| 0 <= c < classes.len() && classes[c] == groups[g];
        assert(belongs_to(classes[c], classes[c].files[m]));
    }
}

/// Every group is a whole class: it holds all the records that have the
/// content of its first member, in the order of the listing, and that first
/// member is the first record of that content.
pub proof fn lemma_group_is_class(files: Seq<FileView>, g: int)
    requires
        0 <= g < duplicate_groups(files).len(),
    ensures
        exists|i: int|
            leads(files, i) && #[trigger] group_at(files, files.len() as int, i)
                == duplicate_groups(files)[g],
        duplicate_groups(files)[g].files == class_of(files, duplicate_groups(files)[g].files[0]),
{
    let n = files.len() as int;
    let classes = classes_upto(files, n);
    let keep = |c: GroupView| is_duplicated(c);
    let groups = duplicate_groups(files);
    let first = leaders(files, n);
    lemma_leaders(files, n);
    assert(groups.contains(groups[g]));
    classes.lemma_filter_contains_rev(keep, groups[g]);
    classes.lemma_filter_pred(keep, g);
    let c = choose|c: int| 0 <= c < classes.len() && classes[c] == groups[g];
    let i = first[c];
    assert(leads(files, i));
    assert(group_at(files, n, i) == groups[g]);
    assert(files.take(n) =~= files);
    let rep = files[i];
    let head = groups[g].files[0];
    files.lemma_filter_pred(|f: FileView| same_content(rep, f), 0);
    assert(same_content(rep, head));
    lemma_filter_agrees(
        files,
        |f: FileView| same_content(rep, f),
        |f: FileView| same_content(head, f),
    );
}

/// Two tests that agree on every record keep the same records.
proof fn lemma_filter_agrees(
    files: Seq<FileView>,
    p: spec_fn(FileView) -> bool,
    q: spec_fn(FileView) -> bool,
)
    requires
        forall|f: FileView| #[trigger] p(f) == q(f),
    ensures
        files.filter(p) == files.filter(q),
    decreases files.len(),
{
    reveal(Seq::filter);
    if files.len() > 0 {
        lemma_filter_agrees(files.drop_last(), p, q);
    }
}

/// No duplicate is missed: a record with a fingerprint, of whose content
/// there are at least two records, is a member of a group, and that group is
/// the class of the record.
pub proof fn lemma_duplicates_complete(files: Seq<FileView>, i: int)
    requires
        0 <= i < files.len(),
        files[i].hash is Some,
        class_of(files, files[i]).len() >= 2,
    ensures
        exists|g: int|
            0 <= g < duplicate_groups(files).len() && belongs_to(
                #[trigger] duplicate_groups(files)[g],
                files[i],
            ) && duplicate_groups(files)[g].files == class_of(files, files[i]),
{
    let n = files.len() as int;
    let classes = classes_upto(files, n);
    let keep = |c: GroupView| is_duplicated(c);
    let groups = duplicate_groups(files);
    let first = leaders(files, n);
    lemma_leaders(files, n);
    lemma_covered(files, n, i);
    let c = choose|c: int|
        0 <= c < first.len() && same_content(files[#[trigger] first[c]], files[i]);
    let rep = files[first[c]];
    assert(leads(files, first[c]));
    assert(files.take(n) =~= files);
    lemma_filter_agrees(
        files,
        |f: FileView| same_content(rep, f),
        |f: FileView| same_content(files[i], f),
    );
    assert(classes[c].files == class_of(files, files[i]));
    assert(keep(classes[c]));
    classes.lemma_filter_contains(keep, c);
    let g = choose|g: int| 0 <= g < groups.len() && groups[g] == classes[c];
    assert(belongs_to(groups[g], files[i]));
}

/// Two groups have different fingerprints, provided that among the records
/// that have duplicates a fingerprint stands for one size only.
pub proof fn lemma_groups_differ_in_hash(files: Seq<FileView>)
    requires
        forall|i: int, j: int|
            0 <= i < files.len() && 0 <= j < files.len() && (#[trigger] files[i]).hash is Some
                && files[i].hash == (#[trigger] files[j]).hash && class_of(files, files[i]).len() >= 2
                && class_of(files, files[j]).len() >= 2 ==> files[i].size == files[j].size,
    ensures
        forall|g: int, h: int|
            0 <= g < h < duplicate_groups(files).len() ==> (#[trigger] duplicate_groups(
                files,
            )[g]).hash != (#[trigger] duplicate_groups(files)[h]).hash,
{
    let n = files.len() as int;
    let groups = duplicate_groups(files);
    lemma_duplicates_well_grouped(files);
    assert(files.take(n) =~= files);
    assert forall|g: int, h: int| 0 <= g < h < groups.len() implies (#[trigger] groups[g]).hash != (
    #[trigger] groups[h]).hash by {
        lemma_group_is_class(files, g);
        lemma_group_is_class(files, h);
        let i = choose|i: int| leads(files, i) && #[trigger] group_at(files, n, i) == groups[g];
        let j = choose|j: int| leads(files, j) && #[trigger] group_at(files, n, j) == groups[h];
        assert(groups[g].files == class_of(files, files[i]));
        assert(groups[h].files == class_of(files, files[j]));
        if groups[g].hash == groups[h].hash {
            assert(files[i].size == files[j].size);
            assert(same_key(groups[g], groups[h]));
        }
    }
}

/// A class under construction: the records of one content seen so far.
struct Class {
    hash: String,
    size: u64,
    files: Vec<FileInfo>,
}

impl View for Class {
    type V = GroupView;

    closed spec fn view(&self) -> GroupView {
        GroupView { hash: self.hash@, size: self.size, files: views(self.files@) }
    }
}

spec fn class_views(classes: Seq<Class>) -> Seq<GroupView> {
    classes.map_values(|c: Class| c@)
}

/// A group of duplicates: files of one size and one fingerprint. The first
/// file is the one that was seen first.
#[derive(Debug)]
pub struct DuplicateGroup {
    pub hash: String,
    pub size: u64,
    pub files: Vec<FileInfo>,
}

impl View for DuplicateGroup {
    type V = GroupView;

    open spec fn view(&self) -> GroupView {
        GroupView { hash: self.hash@, size: self.size, files: views(self.files@) }
    }
}

/// The views of a sequence of groups, in the same order.
pub open spec fn group_views(groups: Seq<DuplicateGroup>) -> Seq<GroupView> {
    groups.map_values(|g: DuplicateGroup| g@)
}

/// The groups of duplicates that a scan found.
#[derive(Debug)]
pub struct DuplicateSet {
    pub groups: Vec<DuplicateGroup>,
}

impl View for DuplicateSet {
    type V = Seq<GroupView>;

    open spec fn view(&self) -> Seq<GroupView> {
        group_views(self.groups@)
    }
}

/// Whether an index lists under every size the positions of the classes of
/// that size: all of them, and no others.
spec fn lists_by_size(index: Map<u64, Vec<usize>>, classes: Seq<Class>) -> bool {
    &&& forall|g: int|
        0 <= g < classes.len() ==> index.contains_key((#[trigger] classes[g]).size)
            && index[classes[g].size]@.contains(g as usize)
    &&& forall|size: u64, j: int|
        index.contains_key(size) && 0 <= j < index[size]@.len() ==> (#[trigger] index[size]@[j])
            < classes.len() && classes[index[size]@[j] as int].size == size
}

/// The position of the class that a record of this size and fingerprint
/// belongs to. Only the classes of this size are looked at.
fn find_class(
    classes: &Vec<Class>,
    index: &HashMap<u64, Vec<usize>>,
    size: u64,
    hash: &String,
) -> (found: Option<usize>)
    requires
        lists_by_size(index@, classes@),
    ensures
        match found {
            Some(g) => g < classes.len() && classes[g as int]@.hash == hash@ && classes[g as int]@.size
                == size,
            None => forall|g: int|
                0 <= g < classes.len() ==> !((#[trigger] classes[g])@.hash == hash@
                    && classes[g]@.size == size),
        },
{
    match index.get(&size) {
        Some(positions) => {
            let mut j: usize = 0;
            while j < positions.len()
                invariant
                    j <= positions.len(),
                    lists_by_size(index@, classes@),
                    index@.contains_key(size),
                    index@[size] == *positions,
                    forall|h: int|
                        0 <= h < j ==> (#[trigger] classes[positions[h] as int])@.hash != hash@,
                decreases positions.len() - j,
            {
                let g = positions[j];
                assert(index@[size]@[j as int] == g);
                if classes[g].hash == *hash {
                    return Some(g);
                }
                j += 1;
            }
            assert forall|g: int| 0 <= g < classes.len() implies !((#[trigger] classes[g])@.hash
                == hash@ && classes[g]@.size == size) by {
                if classes[g].size == size {
                    let h = choose|h: int|
                        0 <= h < positions@.len() && positions@[h] == g as usize;
                    assert(classes[positions[h] as int]@.hash != hash@);
                }
            }
            None
        },
        None => None,
    }
}

/// Sorts the records that have a fingerprint into classes.
fn classify(files: &Vec<FileInfo>) -> (classes: Vec<Class>)
    ensures
        class_views(classes@) == classes_upto(views(files@), files.len() as int),
{
    let ghost all = views(files@);
    let mut classes: Vec<Class> = Vec::new();
    let mut index: HashMap<u64, Vec<usize>> = HashMap::new();
    let mut k: usize = 0;
    assert(class_views(classes@) =~= classes_upto(all, 0));
    while k < files.len()
        invariant
            k <= files.len(),
            all == views(files@),
            class_views(classes@) == classes_upto(all, k as int),
            lists_by_size(index@, classes@),
        decreases files.len() - k,
    {
        proof {
            lemma_classes_step(all, k as int);
        }
        let ghost before = class_views(classes@);
        let ghost old_classes = classes@;
        let ghost old_index = index@;
        let file = &files[k];
        assert(all[k as int] == file@);
        match &file.hash {
            None => {},
            Some(hash) => {
                match find_class(&classes, &index, file.size, hash) {
                    Some(g) => {
                        assert(belongs_to(before[g as int], file@));
                        let ghost members = classes[g as int].files@;
                        classes[g].files.push(file.clone());
                        assert(views(members.push(*file)) =~= views(members).push(file@));
                        assert(class_views(classes@) =~= with_file(before, file@));
                        assert(lists_by_size(index@, classes@)) by {
                            assert forall|h: int| 0 <= h < classes.len() implies index@.contains_key(
                                (#[trigger] classes[h]).size,
                            ) && index@[classes[h].size]@.contains(h as usize) by {
                                assert(old_classes[h].size == classes[h].size);
                            }
                        }
                    },
                    None => {
                        assert forall|g: int| 0 <= g < before.len() implies !belongs_to(
                            #[trigger] before[g],
                            file@,
                        ) by {
                            assert(before[g] == classes[g]@);
                        }
                        let mut members: Vec<FileInfo> = Vec::new();
                        members.push(file.clone());
                        assert(views(members@) =~= seq![file@]);
                        let position = classes.len();
                        classes.push(Class { hash: hash.clone(), size: file.size, files: members });
                        assert(class_views(classes@) =~= with_file(before, file@));
                        let mut positions: Vec<usize> = match index.remove(&file.size) {
                            Some(positions) => positions,
                            None => Vec::new(),
                        };
                        let ghost old_positions = positions@;
                        positions.push(position);
                        index.insert(file.size, positions);
                        assert(lists_by_size(index@, classes@)) by {
                            assert(index@ =~= old_index.insert(file.size, positions));
                            assert forall|h: int| 0 <= h < classes.len() implies index@.contains_key(
                                (#[trigger] classes[h]).size,
                            ) && index@[classes[h].size]@.contains(h as usize) by {
                                if h < old_classes.len() {
                                    assert(old_classes[h] == classes[h]);
                                    if classes[h].size == file.size {
                                        let at = choose|at: int|
                                            0 <= at < old_positions.len() && old_positions[at]
                                                == h as usize;
                                        assert(positions@[at] == h as usize);
                                    }
                                } else {
                                    assert(positions@[old_positions.len() as int] == h as usize);
                                }
                            }
                            assert forall|size: u64, j: int|
                                index@.contains_key(size) && 0 <= j < index@[size]@.len() implies (
                            #[trigger] index@[size]@[j]) < classes.len() && classes[index@[size]@[j] as int].size
                                == size by {
                                if size == file.size {
                                    if j < old_positions.len() {
                                        assert(old_index[size]@[j] == positions@[j]);
                                    }
                                } else {
                                    assert(old_index[size]@[j] == index@[size]@[j]);
                                }
                            }
                        }
                    },
                }
            },
        }
        k += 1;
    }
    classes
}

/// Groups the records that have a fingerprint by size and fingerprint, and
/// keeps the groups with at least two members.
pub fn group_duplicates(files: &Vec<FileInfo>) -> (set: DuplicateSet)
    ensures
        set@ == duplicate_groups(views(files@)),
        well_grouped(set@),
{
    proof {
        lemma_duplicates_well_grouped(views(files@));
    }
    let mut classes = classify(files);
    let ghost all = class_views(classes@);
    let ghost wanted = |c: GroupView| is_duplicated(c);
    let mut groups: Vec<DuplicateGroup> = Vec::new();
    let mut g: usize = 0;
    assert(all.take(0).filter(wanted) =~= Seq::<GroupView>::empty()) by {
        reveal(Seq::filter);
    }
    while g < classes.len()
        invariant
            g <= classes.len(),
            classes.len() == all.len(),
            wanted == |c: GroupView| is_duplicated(c),
            forall|h: int| g <= h < classes.len() ==> (#[trigger] classes[h])@ == all[h],
            group_views(groups@) == all.take(g as int).filter(wanted),
        decreases classes.len() - g,
    {
        proof {
            all.lemma_take_succ_push(g as int);
            all.take(g as int).lemma_filter_push(all[g as int], wanted);
        }
        if classes[g].files.len() >= 2 {
            let mut class = Class { hash: String::new(), size: 0, files: Vec::new() };
            core::mem::swap(&mut classes[g], &mut class);
            let ghost before = group_views(groups@);
            groups.push(DuplicateGroup { hash: class.hash, size: class.size, files: class.files });
            assert(group_views(groups@) =~= before.push(all[g as int]));
        }
        g += 1;
    }
    assert(all.take(all.len() as int) =~= all);
    DuplicateSet { groups }
}

/// The number of files in all groups together.
pub open spec fn member_count(groups: Seq<GroupView>) -> nat
    decreases groups.len(),
{
    if groups.len() == 0 {
        0
    } else {
        member_count(groups.drop_last()) + groups.last().files.len()
    }
}

/// The files of a group that are copies of its first file.
pub open spec fn copies(group: GroupView) -> Seq<FileView> {
    if group.files.len() == 0 {
        group.files
    } else {
        group.files.skip(1)
    }
}

/// The bytes that the copies in all groups take.
pub open spec fn wasted_bytes(groups: Seq<GroupView>) -> int
    decreases groups.len(),
{
    if groups.len() == 0 {
        0
    } else {
        wasted_bytes(groups.drop_last()) + groups.last().size * copies(groups.last()).len()
    }
}

/// The copies of all groups, group after group: every file but the first
/// of its group.
pub open spec fn redundant(groups: Seq<GroupView>) -> Seq<FileView>
    decreases groups.len(),
{
    if groups.len() == 0 {
        Seq::empty()
    } else {
        redundant(groups.drop_last()) + copies(groups.last())
    }
}

/// The files of more groups are not fewer.
proof fn lemma_member_count_grows(groups: Seq<GroupView>, n: int)
    requires
        0 <= n <= groups.len(),
    ensures
        member_count(groups.take(n)) <= member_count(groups),
    decreases groups.len() - n,
{
    if n < groups.len() {
        lemma_member_count_grows(groups, n + 1);
        assert(groups.take(n + 1).drop_last() =~= groups.take(n));
    } else {
        assert(groups.take(n) =~= groups);
    }
}

/// The copies of more groups do not take less.
proof fn lemma_wasted_bytes_grow(groups: Seq<GroupView>, n: int)
    requires
        0 <= n <= groups.len(),
    ensures
        wasted_bytes(groups.take(n)) <= wasted_bytes(groups),
    decreases groups.len() - n,
{
    if n < groups.len() {
        lemma_wasted_bytes_grow(groups, n + 1);
        assert(groups.take(n + 1).drop_last() =~= groups.take(n));
        assert(groups[n].size * copies(groups[n]).len() >= 0) by (nonlinear_arith);
    } else {
        assert(groups.take(n) =~= groups);
    }
}

impl DuplicateGroup {
    /// The file to keep when the copies are deleted: the first of the
    /// group, which was seen first.
    pub fn retained(&self) -> (first: Option<&FileInfo>)
        ensures
            match first {
                Some(file) => self.files.len() > 0 && *file == self.files[0],
                None => self.files.len() == 0,
            },
    {
        if self.files.len() > 0 {
            Some(&self.files[0])
        } else {
            None
        }
    }
}

impl DuplicateSet {
    /// The first group with this fingerprint, if there is one.
    pub fn get(&self, hash: &str) -> (found: Option<&DuplicateGroup>)
        ensures
            match found {
                Some(group) => exists|g: int|
                    0 <= g < self.groups.len() && *group == #[trigger] self.groups[g] && group.hash@
                        == hash@ && forall|h: int| 0 <= h < g ==> self@[h].hash != hash@,
                None => forall|g: int| 0 <= g < self@.len() ==> (#[trigger] self@[g]).hash != hash@,
            },
    {
        let wanted = hash.to_owned();
        let mut g: usize = 0;
        while g < self.groups.len()
            invariant
                g <= self.groups.len(),
                wanted@ == hash@,
                forall|h: int| 0 <= h < g ==> (#[trigger] self@[h]).hash != hash@,
            decreases self.groups.len() - g,
        {
            assert(self@[g as int] == self.groups[g as int]@);
            if self.groups[g].hash == wanted {
                return Some(&self.groups[g]);
            }
            g += 1;
        }
        None
    }

    /// The number of groups.
    pub fn len(&self) -> (n: usize)
        ensures
            n == self@.len(),
    {
        self.groups.len()
    }

    /// Whether no duplicates were found.
    pub fn is_empty(&self) -> (empty: bool)
        ensures
            empty == (self@.len() == 0),
    {
        self.groups.len() == 0
    }

    /// The number of files in all groups together; `None` if it is beyond
    /// `usize`.
    pub fn total_files(&self) -> (total: Option<usize>)
        ensures
            match total {
                Some(n) => n == member_count(self@),
                None => member_count(self@) > usize::MAX,
            },
    {
        let mut total: usize = 0;
        let mut g: usize = 0;
        assert(self@.take(0) =~= Seq::<GroupView>::empty());
        while g < self.groups.len()
            invariant
                g <= self.groups.len(),
                total == member_count(self@.take(g as int)),
            decreases self.groups.len() - g,
        {
            proof {
                assert(self@.take(g + 1).drop_last() =~= self@.take(g as int));
                assert(self@[g as int].files.len() == self.groups[g as int].files.len());
                lemma_member_count_grows(self@, g + 1);
            }
            match total.checked_add(self.groups[g].files.len()) {
                Some(sum) => {
                    total = sum;
                },
                None => {
                    return None;
                },
            }
            g += 1;
        }
        assert(self@.take(g as int) =~= self@);
        Some(total)
    }

    /// The bytes that would be freed if of every group only the first file
    /// were kept; `None` if they are beyond `u64`.
    pub fn wasted_space(&self) -> (total: Option<u64>)
        ensures
            match total {
                Some(n) => n == wasted_bytes(self@),
                None => wasted_bytes(self@) > u64::MAX,
            },
    {
        let mut total: u64 = 0;
        let mut g: usize = 0;
        assert(self@.take(0) =~= Seq::<GroupView>::empty());
        while g < self.groups.len()
            invariant
                g <= self.groups.len(),
                total == wasted_bytes(self@.take(g as int)),
            decreases self.groups.len() - g,
        {
            let group = &self.groups[g];
            let spare: usize = if group.files.len() == 0 {
                0
            } else {
                group.files.len() - 1
            };
            proof {
                assert(self@.take(g + 1).drop_last() =~= self@.take(g as int));
                assert(self@[g as int] == group@);
                assert(copies(group@).len() == spare);
                lemma_wasted_bytes_grow(self@, g + 1);
                assert(wasted_bytes(self@.take(g as int)) >= 0);
            }
            match group.size.checked_mul(spare as u64) {
                Some(bytes) => {
                    match total.checked_add(bytes) {
                        Some(sum) => {
                            total = sum;
                        },
                        None => {
                            return None;
                        },
                    }
                },
                None => {
                    return None;
                },
            }
            g += 1;
        }
        assert(self@.take(g as int) =~= self@);
        Some(total)
    }

    /// The files that are copies: every file but the first of its group,
    /// group after group.
    pub fn redundant_files(&self) -> (files: Vec<FileInfo>)
        ensures
            views(files@) == redundant(self@),
    {
        let mut files: Vec<FileInfo> = Vec::new();
        let mut g: usize = 0;
        assert(self@.take(0) =~= Seq::<GroupView>::empty());
        assert(views(files@) =~= redundant(self@.take(0)));
        while g < self.groups.len()
            invariant
                g <= self.groups.len(),
                views(files@) == redundant(self@.take(g as int)),
            decreases self.groups.len() - g,
        {
            let group = &self.groups[g];
            let ghost before = views(files@);
            proof {
                assert(self@.take(g + 1).drop_last() =~= self@.take(g as int));
                assert(self@[g as int] == group@);
            }
            let mut m: usize = 1;
            while m < group.files.len()
                invariant
                    1 <= m,
                    group.files.len() > 0 ==> m <= group.files.len(),
                    group.files.len() > 0 ==> views(files@) == before + views(group.files@).subrange(
                        1,
                        m as int,
                    ),
                    group.files.len() == 0 ==> views(files@) == before,
                decreases group.files.len() - m,
            {
                let ghost so_far = views(files@);
                files.push(group.files[m].clone());
                assert(views(files@) =~= so_far.push(group.files[m as int]@));
                assert(views(files@) =~= before + views(group.files@).subrange(1, m + 1));
                m += 1;
            }
            assert(views(files@) =~= before + copies(group@));
            g += 1;
        }
        assert(self@.take(g as int) =~= self@);
        files
    }
}

} // verus!
