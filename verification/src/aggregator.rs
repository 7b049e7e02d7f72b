//! The aggregator: files grouped by digest.

use crate::file::{paths_of, referents, FileRecord};
use crate::hashing::{file_digest, hash_file, HashAlgorithm};
use crate::path::text_view;
use crate::report::{group_views, is_duplicate, DuplicateGroup, GroupView};
use crate::sequences::{lemma_filter_count, lemma_filter_push, lemma_map_same_items};
use rayon::prelude::{IntoParallelRefIterator, ParallelIterator};
use vstd::prelude::*;
use vstd::seq_lib::lemma_seq_union_to_multiset_commutative;

verus! {

/// The groups of a run, one for each digest that occurred, in the order in
/// which the digests first occurred.
pub struct DigestMap {
    groups: Vec<DuplicateGroup>,
}

/// The group `g` together with the files of `more`.
pub open spec fn joined_with(g: GroupView, more: GroupView) -> GroupView {
    GroupView {
        hash: g.hash,
        files: g.files + more.files,
        total_size: g.total_size + more.total_size,
    }
}

/// The group of one file.
pub open spec fn single(d: Seq<char>, path: Seq<char>, size: nat) -> GroupView {
    GroupView { hash: d, files: seq![path], total_size: size }
}

/// Some group of `groups` has digest `d`.
pub open spec fn has_digest(groups: Seq<GroupView>, d: Seq<char>) -> bool {
    exists|k: int| 0 <= k < groups.len() && groups[k].hash == d
}

/// No two groups of `groups` have the same digest.
pub open spec fn distinct_digests(groups: Seq<GroupView>) -> bool {
    forall|i: int, j: int| 0 <= i < j < groups.len() ==> groups[i].hash != groups[j].hash
}

/// `groups` after the group `more` was taken in: the group with the digest
/// of `more` grows by its files, or `more` is added at the end as a new group.
pub open spec fn absorbed(groups: Seq<GroupView>, more: GroupView) -> Seq<GroupView> {
    if has_digest(groups, more.hash) {
        groups.map_values(
            |g: GroupView|
                if g.hash == more.hash {
                    joined_with(g, more)
                } else {
                    g
                },
        )
    } else {
        groups.push(more)
    }
}

/// `groups` after a file with digest `d` was added: its group grows by the
/// file, or a new group with the file alone is added at the end.
pub open spec fn add_file(groups: Seq<GroupView>, d: Seq<char>, path: Seq<char>, size: nat) -> Seq<
    GroupView,
> {
    absorbed(groups, single(d, path, size))
}

/// `a` after the groups of `b` were taken in, one after the other.
pub open spec fn merged(a: Seq<GroupView>, b: Seq<GroupView>) -> Seq<GroupView>
    decreases b.len(),
{
    if b.len() == 0 {
        a
    } else {
        absorbed(merged(a, b.drop_last()), b.last())
    }
}

/// `a` and `b` hold the same groups but for the order: the same digests,
/// and under each digest the same paths, each as often, and the same size.
pub open spec fn same_groups(a: Seq<GroupView>, b: Seq<GroupView>) -> bool {
    &&& forall|d: Seq<char>| has_digest(a, d) <==> has_digest(b, d)
    &&& forall|k: int, l: int|
        0 <= k < a.len() && 0 <= l < b.len() && (#[trigger] a[k]).hash == (#[trigger] b[l]).hash
            ==> {
            &&& a[k].files.to_multiset() == b[l].files.to_multiset()
            &&& a[k].files.to_set() == b[l].files.to_set()
            &&& a[k].total_size == b[l].total_size
        }
}

/// The test that a file's digest under `algo` is `d`.
pub open spec fn digest_is(algo: HashAlgorithm, d: Seq<char>) -> spec_fn(FileRecord) -> bool {
    |f: FileRecord| file_digest(f, algo) == Some(d)
}

/// The files of `files` whose digest is `d`, in order.
pub open spec fn members(files: Seq<FileRecord>, algo: HashAlgorithm, d: Seq<char>) -> Seq<
    FileRecord,
> {
    files.filter(digest_is(algo, d))
}

/// The byte length of a file's content; 0 where it could not be read.
pub open spec fn content_len(file: FileRecord) -> nat {
    match file.content {
        Some(content) => content@.len(),
        None => 0,
    }
}

/// The byte lengths of `files`, added up.
pub open spec fn total_len(files: Seq<FileRecord>) -> nat
    decreases files.len(),
{
    if files.len() == 0 {
        0
    } else {
        total_len(files.drop_last()) + content_len(files.last())
    }
}

/// The group that `files` form for digest `d`.
pub open spec fn group_of(files: Seq<FileRecord>, algo: HashAlgorithm, d: Seq<char>) -> GroupView {
    GroupView {
        hash: d,
        files: paths_of(members(files, algo, d)),
        total_size: total_len(members(files, algo, d)),
    }
}

/// The digests that occur among `files`, each once, in the order in which
/// they first occur.
pub open spec fn digests(files: Seq<FileRecord>, algo: HashAlgorithm) -> Seq<Seq<char>>
    decreases files.len(),
{
    if files.len() == 0 {
        Seq::empty()
    } else {
        let earlier = digests(files.drop_last(), algo);
        match file_digest(files.last(), algo) {
            Some(d) => if earlier.contains(d) {
                earlier
            } else {
                earlier.push(d)
            },
            None => earlier,
        }
    }
}

/// The groups that `files` form: one for each digest that occurs, with the
/// files that have it.
pub open spec fn grouping(files: Seq<FileRecord>, algo: HashAlgorithm) -> Seq<GroupView> {
    digests(files, algo).map_values(|d: Seq<char>| group_of(files, algo, d))
}

impl DigestMap {
    /// The groups, in the order in which their digests first occurred.
    pub closed spec fn view(&self) -> Seq<GroupView> {
        group_views(self.groups@)
    }

    /// No digest has two groups.
    pub open spec fn wf(&self) -> bool {
        distinct_digests(self@)
    }

    /// A map without groups.
    pub fn new() -> (map: DigestMap)
        ensures
            map.wf(),
            map@ == Seq::<GroupView>::empty(),
    {
        DigestMap { groups: Vec::new() }
    }

    /// All groups, in their order.
    pub fn into_groups(self) -> (groups: Vec<DuplicateGroup>)
        ensures
            group_views(groups@) == self@,
    {
        self.groups
    }

    /// The groups, in their order.
    pub fn groups(&self) -> (groups: &Vec<DuplicateGroup>)
        ensures
            group_views(groups@) == self@,
    {
        &self.groups
    }

    /// Takes in a whole group: the group with the same digest grows by its
    /// files, or it becomes a new group at the end.
    pub fn absorb(&mut self, group: DuplicateGroup)
        requires
            old(self).wf(),
            forall|k: int|
                0 <= k < old(self)@.len() && old(self)@[k].hash == group@.hash ==> old(
                    self,
                )@[k].total_size + group@.total_size <= u64::MAX,
        ensures
            final(self).wf(),
            final(self)@ == absorbed(old(self)@, group@),
    {
        let ghost before = self@;
        let ghost more = group@;
        let mut i: usize = 0;
        while i < self.groups.len()
            invariant
                i <= self.groups.len(),
                *self == *old(self),
                before == self@,
                more == group@,
                distinct_digests(before),
                forall|k: int|
                    0 <= k < before.len() && before[k].hash == more.hash ==> before[k].total_size
                        + more.total_size <= u64::MAX,
                forall|k: int| 0 <= k < i ==> before[k].hash != more.hash,
            decreases self.groups.len() - i,
        {
            if self.groups[i].hash == group.hash {
                assert(before[i as int].hash == more.hash);
                let mut files = group.files;
                let target = &mut self.groups[i];
                target.files.append(&mut files);
                target.total_size = target.total_size + group.total_size;
                proof {
                    let after = self@;
                    let wanted = absorbed(before, more);
                    assert(has_digest(before, more.hash));
                    assert(after.len() == wanted.len());
                    assert forall|k: int| 0 <= k < after.len() implies after[k] == wanted[k] by {
                        if k == i {
                            assert(after[k].files =~= before[k].files + more.files);
                        } else {
                            assert(before[k].hash != more.hash);
                        }
                    }
                    assert(after =~= wanted);
                }
                return ;
            }
            i += 1;
        }
        self.groups.push(group);
        proof {
            assert(!has_digest(before, more.hash));
            assert(self@ =~= absorbed(before, more));
        }
    }

    /// Takes in all groups of `other`, in their order.
    pub fn merge(&mut self, other: DigestMap)
        requires
            old(self).wf(),
            other.wf(),
            forall|k: int, l: int|
                0 <= k < old(self)@.len() && 0 <= l < other@.len() && old(self)@[k].hash
                    == other@[l].hash ==> old(self)@[k].total_size + other@[l].total_size
                    <= u64::MAX,
        ensures
            final(self).wf(),
            final(self)@ == merged(old(self)@, other@),
    {
        let ghost theirs = other@;
        let incoming = other.groups;
        let ghost contents = incoming@;
        for group in it: incoming
            invariant
                it.seq() == contents,
                theirs == group_views(contents),
                distinct_digests(theirs),
                self.wf(),
                self@ == merged(old(self)@, theirs.take(it.index() as int)),
                forall|k: int, l: int|
                    0 <= k < self@.len() && it.index() <= l < theirs.len() && self@[k].hash
                        == theirs[l].hash ==> self@[k].total_size + theirs[l].total_size
                        <= u64::MAX,
        {
            let ghost n = it.index() as int;
            let ghost mine = self@;
            proof {
                assert(theirs[n] == group@);
                assert(theirs.take(n + 1).drop_last() == theirs.take(n));
                assert(theirs.take(n + 1).last() == group@);
            }
            self.absorb(group);
            proof {
                assert forall|k: int, l: int|
                    0 <= k < self@.len() && n + 1 <= l < theirs.len() && self@[k].hash
                        == theirs[l].hash implies self@[k].total_size + theirs[l].total_size
                    <= u64::MAX by {
                    assert(theirs[n].hash != theirs[l].hash);
                    if k < mine.len() {
                        assert(self@[k].hash == mine[k].hash);
                        assert(self@[k] == mine[k]);
                    }
                }
            }
        }
        assert(theirs.take(theirs.len() as int) == theirs);
    }

    /// The groups with at least two files, in their order.
    pub fn into_duplicates(self) -> (groups: Vec<DuplicateGroup>)
        ensures
            group_views(groups@) == self@.filter(is_duplicate()),
    {
        let all = self.into_groups();
        let mut groups: Vec<DuplicateGroup> = Vec::new();
        let ghost wanted = is_duplicate();
        let ghost contents = all@;
        for group in it: all
            invariant
                wanted == is_duplicate(),
                it.seq() == contents,
                group_views(groups@) == group_views(contents.take(it.index() as int)).filter(
                    wanted,
                ),
        {
            let ghost seen = contents.take(it.index() as int);
            let ghost kept = groups@;
            proof {
                assert(contents.take(it.index() + 1) == seen.push(group));
                assert(group_views(seen.push(group)) == group_views(seen).push(group@));
                lemma_filter_push(group_views(seen), group@, wanted);
            }
            if group.files.len() >= 2 {
                groups.push(group);
                assert(group_views(groups@) == group_views(kept).push(group@));
            }
        }
        assert(contents.take(contents.len() as int) == contents);
        groups
    }

    /// Adds a file of `size` bytes with digest `digest`.
    pub fn insert(&mut self, digest: String, path: String, size: u64)
        requires
            old(self).wf(),
            forall|k: int|
                0 <= k < old(self)@.len() && old(self)@[k].hash == digest@ ==> old(
                    self,
                )@[k].total_size + size <= u64::MAX,
        ensures
            final(self).wf(),
            final(self)@ == add_file(old(self)@, digest@, path@, size as nat),
    {
        let mut files: Vec<String> = Vec::new();
        files.push(path);
        let group = DuplicateGroup { hash: digest, files, total_size: size };
        assert(group@.files =~= seq![path@]);
        self.absorb(group);
    }
}

/// A digest is listed exactly when some file has it, and is listed once.
pub proof fn lemma_digests(files: Seq<FileRecord>, algo: HashAlgorithm)
    ensures
        forall|d: Seq<char>| #[trigger]
            digests(files, algo).contains(d) <==> exists|i: int|
                0 <= i < files.len() && file_digest(files[i], algo) == Some(d),
        digests(files, algo).no_duplicates(),
    decreases files.len(),
{
    let ds = digests(files, algo);
    if files.len() > 0 {
        let front = files.drop_last();
        let earlier = digests(front, algo);
        lemma_digests(front, algo);
        assert forall|d: Seq<char>| #[trigger]
            ds.contains(d) <==> exists|i: int|
                0 <= i < files.len() && file_digest(files[i], algo) == Some(d) by {
            if ds.contains(d) {
                if earlier.contains(d) {
                    let i = choose|i: int|
                        0 <= i < front.len() && file_digest(front[i], algo) == Some(d);
                    assert(files[i] == front[i]);
                } else {
                    assert(file_digest(files[files.len() - 1], algo) == Some(d));
                }
            }
            if exists|i: int| 0 <= i < files.len() && file_digest(files[i], algo) == Some(d) {
                let i = choose|i: int| 0 <= i < files.len() && file_digest(files[i], algo) == Some(d);
                if i < front.len() {
                    assert(front[i] == files[i]);
                    assert(earlier.contains(d));
                    let k = choose|k: int| 0 <= k < earlier.len() && earlier[k] == d;
                    assert(ds[k] == d);
                } else {
                    if earlier.contains(d) {
                        let k = choose|k: int| 0 <= k < earlier.len() && earlier[k] == d;
                        assert(ds[k] == d);
                    } else {
                        assert(ds[ds.len() - 1] == d);
                    }
                }
            }
        }
    }
}

/// The files with a digest that no file has are none.
pub proof fn lemma_members_of_absent(files: Seq<FileRecord>, algo: HashAlgorithm, d: Seq<char>)
    requires
        !digests(files, algo).contains(d),
    ensures
        members(files, algo, d) == Seq::<FileRecord>::empty(),
    decreases files.len(),
{
    reveal(Seq::filter);
    if files.len() > 0 {
        let front = files.drop_last();
        let earlier = digests(front, algo);
        if earlier.contains(d) {
            let k = choose|k: int| 0 <= k < earlier.len() && earlier[k] == d;
            assert(digests(files, algo)[k] == d);
        }
        if file_digest(files.last(), algo) == Some(d) {
            assert(digests(files, algo).last() == d);
        }
        lemma_members_of_absent(front, algo, d);
    }
}

/// One more file changes the groups as `add_file` says; a file without a
/// digest changes nothing.
pub proof fn lemma_grouping_push(files: Seq<FileRecord>, file: FileRecord, algo: HashAlgorithm)
    ensures
        grouping(files.push(file), algo) == match file_digest(file, algo) {
            Some(d) => add_file(grouping(files, algo), d, file.path@, content_len(file)),
            None => grouping(files, algo),
        },
{
    let longer = files.push(file);
    let ds = digests(files, algo);
    let before = grouping(files, algo);
    let after = grouping(longer, algo);
    assert(longer.drop_last() == files);
    lemma_digests(files, algo);
    assert forall|d: Seq<char>|
        members(longer, algo, d) == if file_digest(file, algo) == Some(d) {
            members(files, algo, d).push(file)
        } else {
            members(files, algo, d)
        } by {
        lemma_filter_push(files, file, digest_is(algo, d));
    }
    assert forall|d: Seq<char>| file_digest(file, algo) == Some(d) implies group_of(longer, algo, d)
        == joined_with(group_of(files, algo, d), single(d, file.path@, content_len(file))) by {
        let m = members(files, algo, d);
        assert(m.push(file).drop_last() == m);
        assert(paths_of(m.push(file)) =~= paths_of(m) + seq![file.path@]);
    }
    match file_digest(file, algo) {
        Some(d) => {
            if ds.contains(d) {
                let k = choose|k: int| 0 <= k < ds.len() && ds[k] == d;
                assert(before[k].hash == d);
                assert(has_digest(before, d));
                assert(after =~= add_file(before, d, file.path@, content_len(file)));
            } else {
                assert(!has_digest(before, d)) by {
                    if has_digest(before, d) {
                        let k = choose|k: int| 0 <= k < before.len() && before[k].hash == d;
                        assert(ds[k] == d);
                    }
                }
                lemma_members_of_absent(files, algo, d);
                assert(paths_of(Seq::<FileRecord>::empty().push(file)) =~= seq![file.path@]);
                assert(total_len(Seq::<FileRecord>::empty()) == 0);
                assert(after =~= add_file(before, d, file.path@, content_len(file)));
            }
        },
        None => {
            assert(after =~= before);
        },
    }
}

/// What is taken in has a group afterwards.
pub proof fn lemma_merged_has_digest(a: Seq<GroupView>, b: Seq<GroupView>, d: Seq<char>)
    requires
        has_digest(b, d),
    ensures
        has_digest(merged(a, b), d),
    decreases b.len(),
{
    let k = choose|k: int| 0 <= k < b.len() && b[k].hash == d;
    let front = b.drop_last();
    let m = merged(a, front);
    let after = absorbed(m, b.last());
    if k < b.len() - 1 {
        assert(front[k].hash == d);
        lemma_merged_has_digest(a, front, d);
        let i = choose|i: int| 0 <= i < m.len() && m[i].hash == d;
        assert(after[i].hash == d);
    } else {
        if has_digest(m, d) {
            let i = choose|i: int| 0 <= i < m.len() && m[i].hash == d;
            assert(after[i].hash == d);
        } else {
            assert(after[after.len() - 1].hash == d);
        }
    }
}

/// Taking in two groups with one digest, one after the other, is taking in
/// the two as one group.
pub proof fn lemma_absorbed_twice(groups: Seq<GroupView>, first: GroupView, second: GroupView)
    requires
        first.hash == second.hash,
    ensures
        absorbed(absorbed(groups, first), second) == absorbed(groups, joined_with(first, second)),
{
    let d = first.hash;
    let once = absorbed(groups, first);
    let twice = absorbed(once, second);
    let wanted = absorbed(groups, joined_with(first, second));
    if has_digest(groups, d) {
        let k = choose|k: int| 0 <= k < groups.len() && groups[k].hash == d;
        assert(once[k].hash == d);
        assert(twice.len() == wanted.len());
        assert forall|i: int| 0 <= i < twice.len() implies twice[i] == wanted[i] by {
            if groups[i].hash == d {
                assert(twice[i].files =~= wanted[i].files);
            }
        }
    } else {
        assert(once[once.len() - 1].hash == d);
        assert(twice.len() == wanted.len());
        assert forall|i: int| 0 <= i < twice.len() implies twice[i] == wanted[i] by {
            if i < groups.len() {
                assert(groups[i].hash != d);
            }
        }
    }
    assert(twice =~= wanted);
}

/// Groups with different digests can be taken in in either order, where the
/// first of them meets its digest.
pub proof fn lemma_absorbed_swap(groups: Seq<GroupView>, first: GroupView, second: GroupView)
    requires
        first.hash != second.hash,
        has_digest(groups, first.hash),
    ensures
        absorbed(absorbed(groups, first), second) == absorbed(absorbed(groups, second), first),
{
    let k = choose|k: int| 0 <= k < groups.len() && groups[k].hash == first.hash;
    let one = absorbed(groups, first);
    let other = absorbed(groups, second);
    let left = absorbed(one, second);
    let right = absorbed(other, first);
    assert(other[k].hash == first.hash);
    assert(has_digest(other, first.hash));
    if has_digest(groups, second.hash) {
        let l = choose|l: int| 0 <= l < groups.len() && groups[l].hash == second.hash;
        assert(one[l].hash == second.hash);
    } else {
        assert(!has_digest(one, second.hash)) by {
            if has_digest(one, second.hash) {
                let l = choose|l: int| 0 <= l < one.len() && one[l].hash == second.hash;
                assert(groups[l].hash == second.hash);
            }
        }
    }
    assert(left =~= right);
}

/// Taking a group into `b` before `b` is merged into `a` is taking it into
/// the merged groups.
pub proof fn lemma_merged_absorbed(a: Seq<GroupView>, b: Seq<GroupView>, more: GroupView)
    requires
        distinct_digests(b),
    ensures
        merged(a, absorbed(b, more)) == absorbed(merged(a, b), more),
    decreases b.len(),
{
    let grown = absorbed(b, more);
    if !has_digest(b, more.hash) {
        assert(grown.drop_last() == b);
    } else {
        let front = b.drop_last();
        let last = b.last();
        let m = merged(a, front);
        assert(distinct_digests(front)) by {
            assert forall|i: int, j: int| 0 <= i < j < front.len() implies front[i].hash
                != front[j].hash by {
                assert(front[i] == b[i] && front[j] == b[j]);
            }
        }
        let k = choose|k: int| 0 <= k < b.len() && b[k].hash == more.hash;
        if last.hash == more.hash {
            assert(!has_digest(front, more.hash)) by {
                if has_digest(front, more.hash) {
                    let i = choose|i: int| 0 <= i < front.len() && front[i].hash == more.hash;
                    assert(b[i].hash == b[b.len() - 1].hash);
                }
            }
            assert(grown.drop_last() =~= front) by {
                assert forall|i: int| 0 <= i < front.len() implies grown.drop_last()[i]
                    == front[i] by {
                    assert(b[i].hash != b[b.len() - 1].hash);
                }
            }
            assert(grown.last() == joined_with(last, more));
            lemma_absorbed_twice(m, last, more);
        } else {
            assert(k < b.len() - 1);
            assert(front[k].hash == more.hash);
            assert(has_digest(front, more.hash));
            assert(grown.drop_last() =~= absorbed(front, more));
            assert(grown.last() == last);
            lemma_merged_absorbed(a, front, more);
            lemma_merged_has_digest(a, front, more.hash);
            lemma_absorbed_swap(m, more, last);
        }
    }
}

/// Merging the groups of two batches of files gives the groups of the two
/// batches together: hashing in parts and merging loses nothing.
pub proof fn lemma_merged_groupings(
    first: Seq<FileRecord>,
    second: Seq<FileRecord>,
    algo: HashAlgorithm,
)
    ensures
        merged(grouping(first, algo), grouping(second, algo)) == grouping(first + second, algo),
    decreases second.len(),
{
    if second.len() == 0 {
        assert(first + second =~= first);
        assert(grouping(second, algo) =~= Seq::<GroupView>::empty());
    } else {
        let front = second.drop_last();
        let file = second.last();
        assert(second == front.push(file));
        assert(first + second =~= (first + front).push(file));
        lemma_merged_groupings(first, front, algo);
        lemma_grouping_push(front, file, algo);
        lemma_grouping_push(first + front, file, algo);
        lemma_grouping_distinct(front, algo);
        match file_digest(file, algo) {
            Some(d) => {
                lemma_merged_absorbed(
                    grouping(first, algo),
                    grouping(front, algo),
                    single(d, file.path@, content_len(file)),
                );
            },
            None => {},
        }
    }
}

/// Sequences with the same paths, each as often, hold the same set of paths.
pub proof fn lemma_same_items_same_set(a: Seq<Seq<char>>, b: Seq<Seq<char>>)
    requires
        a.to_multiset() == b.to_multiset(),
    ensures
        a.to_set() == b.to_set(),
{
    a.to_multiset_ensures();
    b.to_multiset_ensures();
    assert forall|p: Seq<char>| a.to_set().contains(p) <==> b.to_set().contains(p) by {
        assert(a.contains(p) <==> a.to_multiset().count(p) > 0);
        assert(b.contains(p) <==> b.to_multiset().count(p) > 0);
    }
    assert(a.to_set() =~= b.to_set());
}

/// The order of the files does not matter to the groups they form, but for
/// the order of the groups and of the paths within them.
pub proof fn lemma_grouping_same_items(a: Seq<FileRecord>, b: Seq<FileRecord>, algo: HashAlgorithm)
    requires
        a.to_multiset() == b.to_multiset(),
    ensures
        same_groups(grouping(a, algo), grouping(b, algo)),
{
    let ga = grouping(a, algo);
    let gb = grouping(b, algo);
    let da = digests(a, algo);
    let db = digests(b, algo);
    lemma_digests(a, algo);
    lemma_digests(b, algo);
    a.to_multiset_ensures();
    b.to_multiset_ensures();
    assert forall|d: Seq<char>| da.contains(d) <==> db.contains(d) by {
        if da.contains(d) {
            let i = choose|i: int| 0 <= i < a.len() && file_digest(a[i], algo) == Some(d);
            assert(a.contains(a[i]));
            assert(a.to_multiset().count(a[i]) > 0);
            assert(b.to_multiset().count(a[i]) > 0);
            assert(b.contains(a[i]));
            let j = choose|j: int| 0 <= j < b.len() && b[j] == a[i];
            assert(file_digest(b[j], algo) == Some(d));
        }
        if db.contains(d) {
            let i = choose|i: int| 0 <= i < b.len() && file_digest(b[i], algo) == Some(d);
            assert(b.contains(b[i]));
            assert(b.to_multiset().count(b[i]) > 0);
            assert(a.to_multiset().count(b[i]) > 0);
            assert(a.contains(b[i]));
            let j = choose|j: int| 0 <= j < a.len() && a[j] == b[i];
            assert(file_digest(a[j], algo) == Some(d));
        }
    }
    assert forall|d: Seq<char>| has_digest(ga, d) <==> has_digest(gb, d) by {
        if has_digest(ga, d) {
            let k = choose|k: int| 0 <= k < ga.len() && ga[k].hash == d;
            assert(da[k] == d);
            assert(db.contains(d));
            let l = choose|l: int| 0 <= l < db.len() && db[l] == d;
            assert(gb[l].hash == d);
        }
        if has_digest(gb, d) {
            let k = choose|k: int| 0 <= k < gb.len() && gb[k].hash == d;
            assert(db[k] == d);
            assert(da.contains(d));
            let l = choose|l: int| 0 <= l < da.len() && da[l] == d;
            assert(ga[l].hash == d);
        }
    }
    assert forall|k: int, l: int|
        0 <= k < ga.len() && 0 <= l < gb.len() && (#[trigger] ga[k]).hash == (
        #[trigger] gb[l]).hash implies {
        &&& ga[k].files.to_multiset() == gb[l].files.to_multiset()
        &&& ga[k].files.to_set() == gb[l].files.to_set()
        &&& ga[k].total_size == gb[l].total_size
    } by {
        let d = ga[k].hash;
        let ma = members(a, algo, d);
        let mb = members(b, algo, d);
        lemma_filter_count(a, digest_is(algo, d));
        lemma_filter_count(b, digest_is(algo, d));
        assert(ma.to_multiset() =~= mb.to_multiset());
        lemma_map_same_items(ma, mb, |f: FileRecord| f.path@);
        lemma_total_len_same_items(ma, mb);
        lemma_same_items_same_set(ga[k].files, gb[l].files);
    }
}

/// Which of two batches is merged into which does not matter to the groups,
/// but for the order of the groups and of the paths within them.
pub proof fn lemma_merge_either_way(
    first: Seq<FileRecord>,
    second: Seq<FileRecord>,
    algo: HashAlgorithm,
)
    ensures
        same_groups(
            merged(grouping(first, algo), grouping(second, algo)),
            merged(grouping(second, algo), grouping(first, algo)),
        ),
{
    lemma_merged_groupings(first, second, algo);
    lemma_merged_groupings(second, first, algo);
    lemma_seq_union_to_multiset_commutative(first, second);
    lemma_grouping_same_items(first + second, second + first, algo);
}

/// The groups of a sequence of files have pairwise different digests.
pub proof fn lemma_grouping_distinct(files: Seq<FileRecord>, algo: HashAlgorithm)
    ensures
        distinct_digests(grouping(files, algo)),
{
    lemma_digests(files, algo);
}

/// Part of a sequence of files is no longer in bytes than the whole.
pub proof fn lemma_total_len_filter(files: Seq<FileRecord>, pred: spec_fn(FileRecord) -> bool)
    ensures
        total_len(files.filter(pred)) <= total_len(files),
    decreases files.len(),
{
    reveal(Seq::filter);
    if files.len() > 0 {
        let front = files.drop_last();
        lemma_total_len_filter(front, pred);
        if pred(files.last()) {
            assert(front.filter(pred).push(files.last()).drop_last() == front.filter(pred));
        }
    }
}

/// A prefix of a sequence of files is no longer in bytes than the whole.
pub proof fn lemma_total_len_prefix(files: Seq<FileRecord>, n: int)
    requires
        0 <= n <= files.len(),
    ensures
        total_len(files.take(n)) <= total_len(files),
    decreases files.len(),
{
    if n < files.len() {
        assert(files.drop_last().take(n) == files.take(n));
        lemma_total_len_prefix(files.drop_last(), n);
    } else {
        assert(files.take(n) == files);
    }
}

/// The bytes of a sequence of files are those of one file and of the others.
pub proof fn lemma_total_len_remove(files: Seq<FileRecord>, i: int)
    requires
        0 <= i < files.len(),
    ensures
        total_len(files) == total_len(files.remove(i)) + content_len(files[i]),
    decreases files.len(),
{
    if i == files.len() - 1 {
        assert(files.remove(i) =~= files.drop_last());
    } else {
        let front = files.drop_last();
        lemma_total_len_remove(front, i);
        assert(files.remove(i).drop_last() =~= front.remove(i));
        assert(files.remove(i).last() == files.last());
    }
}

/// Sequences with the same files, each as often, are as long in bytes.
pub proof fn lemma_total_len_same_items(a: Seq<FileRecord>, b: Seq<FileRecord>)
    requires
        a.to_multiset() == b.to_multiset(),
    ensures
        total_len(a) == total_len(b),
    decreases a.len(),
{
    a.to_multiset_ensures();
    b.to_multiset_ensures();
    if a.len() == 0 {
        assert(b.len() == 0);
    } else {
        let x = a.last();
        assert(a[a.len() - 1] == x);
        assert(a.to_multiset().count(x) > 0);
        assert(b.to_multiset().count(x) > 0);
        assert(b.contains(x));
        let i = choose|i: int| 0 <= i < b.len() && b[i] == x;
        assert(a.remove(a.len() - 1) =~= a.drop_last());
        lemma_total_len_same_items(a.drop_last(), b.remove(i));
        lemma_total_len_remove(b, i);
    }
}

/// Runs `hash_file` on every file through rayon's `par_iter`, `map` and
/// `collect`, which hand the files out to a pool of workers and put the
/// results into a vector in the order of the files.
///
/// Taken on trust: that rayon calls the closure once for each file and keeps
/// the order. What `hash_file` returns for one file is proved.
#[verifier::external_body]
fn hash_all(files: &Vec<&FileRecord>, algo: HashAlgorithm) -> (found: Vec<Option<String>>)
    ensures
        found@.len() == files@.len(),
        forall|i: int|
            0 <= i < files@.len() ==> text_view(#[trigger] found@[i]) == file_digest(
                *files@[i],
                algo,
            ),
{
    files.par_iter().map(|file| hash_file(file, algo)).collect()
}

/// Hashes every file, the files spread over a pool of workers, and groups
/// the paths by digest.
///
/// A file whose content could not be read is in no group. A digest that only
/// one file has still gets its group. The groups come in the order in which
/// their digests first occur among `files`, and the paths within a group in
/// the order of `files`.
pub fn process_files_parallel(files: &Vec<&FileRecord>, algo: HashAlgorithm) -> (outcome: Option<
    DigestMap,
>)
    requires
        total_len(referents(files@)) <= u64::MAX,
    ensures
        outcome matches Some(map) && map.wf() && map@ == grouping(referents(files@), algo),
{
    let found = hash_all(files, algo);
    let mut map = DigestMap::new();
    let ghost all = referents(files@);
    let ghost verdicts = found@;
    let mut i: usize = 0;
    for digest in it: found
        invariant
            i == it.index(),
            it.seq() == verdicts,
            verdicts.len() == files@.len(),
            all == referents(files@),
            total_len(all) <= u64::MAX,
            forall|k: int|
                0 <= k < files@.len() ==> text_view(#[trigger] verdicts[k]) == file_digest(
                    *files@[k],
                    algo,
                ),
            map.wf(),
            map@ == grouping(all.take(i as int), algo),
    {
        assert(i < files.len());
        let file = files[i];
        let ghost seen = all.take(i as int);
        proof {
            assert(all.take(i + 1) == seen.push(*file));
            lemma_grouping_push(seen, *file, algo);
            lemma_total_len_prefix(all, i + 1);
            assert(seen.push(*file).drop_last() == seen);
            assert(text_view(verdicts[i as int]) == file_digest(*file, algo));
        }
        match (digest, &file.content) {
            (Some(digest), Some(content)) => {
                proof {
                    lemma_total_len_filter(seen, digest_is(algo, digest@));
                    assert forall|k: int|
                        0 <= k < map@.len() && map@[k].hash == digest@ implies map@[k].total_size
                            + content.len() <= u64::MAX by {
                        lemma_digests(seen, algo);
                    }
                }
                map.insert(digest, file.path.clone(), content.len() as u64);
            },
            _ => {},
        }
        i += 1;
    }
    assert(all.take(files.len() as int) == all);
    Some(map)
}

} // verus!
