//! The pipeline: filter, hash, group, and report what occurs more than once.

use crate::aggregator::{
    digest_is, digests, distinct_digests, group_of, grouping, has_digest, lemma_digests,
    lemma_grouping_distinct, lemma_grouping_same_items, lemma_total_len_filter, members,
    process_files_parallel, same_groups, total_len,
};
use crate::file::{distinct_paths, paths_of, FileRecord};
use crate::filter::{filter_files, kept_by, FilterConfig, FilterView};
use crate::hashing::{file_digest, HashAlgorithm};
use crate::path::texts_of;
use crate::report::{group_views, is_duplicate, DuplicateGroup, GroupView};
use crate::sequences::{distinct_by, lemma_filter_count, lemma_filter_distinct, lemma_filter_member};
use vstd::prelude::*;

verus! {

/// The groups that are reported: those of the files that the filter keeps,
/// without the groups of one file.
pub open spec fn duplicates(files: Seq<FileRecord>, filter: FilterView, algo: HashAlgorithm) -> Seq<
    GroupView,
> {
    grouping(files.filter(kept_by(filter)), algo).filter(is_duplicate())
}

/// The configuration of a standard run: files of 1 to 10,000,000 bytes, any
/// path, and the extensions `txt`, `rs`, `jpg` and `png`.
pub open spec fn standard_filter() -> FilterView {
    FilterView {
        min_size: 1,
        max_size: 10_000_000,
        pattern: Some(".*"@),
        extensions: Some(set!["txt"@, "rs"@, "jpg"@, "png"@]),
    }
}

/// Filters `files`, hashes what is left and reports the groups of two or
/// more files with the same digest.
pub fn find_duplicates(files: &Vec<FileRecord>, config: &FilterConfig, algo: HashAlgorithm) -> (groups:
    Vec<DuplicateGroup>)
    requires
        total_len(files@) <= u64::MAX,
    ensures
        group_views(groups@) == duplicates(files@, config@, algo),
{
    let kept = filter_files(files, config);
    proof {
        lemma_total_len_filter(files@, kept_by(config@));
    }
    process_files_parallel(&kept, algo).unwrap().into_duplicates()
}

/// The configuration of a standard run.
pub fn default_config() -> (config: FilterConfig)
    ensures
        config@ == standard_filter(),
{
    let mut extensions: Vec<String> = Vec::new();
    extensions.push("txt".to_owned());
    extensions.push("rs".to_owned());
    extensions.push("jpg".to_owned());
    extensions.push("png".to_owned());
    let config = FilterConfig {
        min_size: 1,
        max_size: 10_000_000,
        regex: Some(".*".to_owned()),
        allowed_extensions: Some(extensions),
    };
    proof {
        let listed = texts_of(extensions@);
        let wanted = set!["txt"@, "rs"@, "jpg"@, "png"@];
        assert(listed =~= seq!["txt"@, "rs"@, "jpg"@, "png"@]);
        assert forall|e: Seq<char>| listed.to_set().contains(e) <==> wanted.contains(e) by {
            if wanted.contains(e) {
                assert(listed[0] == "txt"@ && listed[1] == "rs"@ && listed[2] == "jpg"@
                    && listed[3] == "png"@);
                assert(listed.contains(e));
            }
        }
        assert(listed.to_set() =~= wanted);
    }
    config
}

/// A standard run: the standard configuration and SHA-256.
pub fn run_deduplication(files: &Vec<FileRecord>) -> (groups: Vec<DuplicateGroup>)
    requires
        total_len(files@) <= u64::MAX,
    ensures
        group_views(groups@) == duplicates(files@, standard_filter(), HashAlgorithm::Sha256),
{
    let config = default_config();
    find_duplicates(files, &config, HashAlgorithm::Sha256)
}

/// What is reported, said without the order of the groups: the groups have
/// pairwise different digests, each is the group of the kept files for its
/// digest, and a digest has a group exactly when at least two kept files
/// have it.
pub proof fn lemma_reported(files: Seq<FileRecord>, filter: FilterView, algo: HashAlgorithm)
    ensures
        distinct_digests(duplicates(files, filter, algo)),
        forall|k: int|
            0 <= k < duplicates(files, filter, algo).len() ==> (#[trigger] duplicates(
                files,
                filter,
                algo,
            )[k]) == group_of(
                files.filter(kept_by(filter)),
                algo,
                duplicates(files, filter, algo)[k].hash,
            ) && members(
                files.filter(kept_by(filter)),
                algo,
                duplicates(files, filter, algo)[k].hash,
            ).len() >= 2,
        forall|d: Seq<char>|
            (#[trigger] members(files.filter(kept_by(filter)), algo, d)).len() >= 2 ==> has_digest(
                duplicates(files, filter, algo),
                d,
            ),
{
    let kept = files.filter(kept_by(filter));
    let all = grouping(kept, algo);
    let found = duplicates(files, filter, algo);
    let ds = digests(kept, algo);
    let hash = |g: GroupView| g.hash;
    lemma_grouping_distinct(kept, algo);
    assert(distinct_by(all, hash));
    lemma_filter_distinct(all, is_duplicate(), hash);
    lemma_filter_member(all, is_duplicate());
    lemma_digests(kept, algo);
    assert forall|k: int| 0 <= k < found.len() implies (#[trigger] found[k]) == group_of(
        kept,
        algo,
        found[k].hash,
    ) && members(kept, algo, found[k].hash).len() >= 2 by {
        assert(found.contains(found[k]));
        assert(all.contains(found[k]));
        let i = choose|i: int| 0 <= i < all.len() && all[i] == found[k];
        assert(all[i] == group_of(kept, algo, ds[i]));
    }
    assert forall|d: Seq<char>| (#[trigger] members(kept, algo, d)).len() >= 2 implies has_digest(
        found,
        d,
    ) by {
        let m = members(kept, algo, d);
        lemma_filter_member(kept, digest_is(algo, d));
        assert(m.contains(m[0]));
        assert(kept.contains(m[0]));
        let j = choose|j: int| 0 <= j < kept.len() && kept[j] == m[0];
        assert(file_digest(kept[j], algo) == Some(d));
        assert(ds.contains(d));
        let i = choose|i: int| 0 <= i < ds.len() && ds[i] == d;
        assert(all[i] == group_of(kept, algo, d));
        assert(all.contains(all[i]));
        assert(found.contains(all[i]));
        let k = choose|k: int| 0 <= k < found.len() && found[k] == all[i];
        assert(found[k].hash == d);
    }
}

/// `path` is in the group of `groups` with digest `d`, and in no other group.
pub open spec fn in_one_group(groups: Seq<GroupView>, d: Seq<char>, path: Seq<char>) -> bool {
    exists|k: int|
        0 <= k < groups.len() && (#[trigger] groups[k]).hash == d && groups[k].files.contains(path)
            && forall|l: int|
            0 <= l < groups.len() && (#[trigger] groups[l].files.contains(path)) ==> l == k
}

/// The reported groups part the files: where no two files have the same
/// path, no path is in two groups, and every kept file whose digest at least
/// two kept files have is in exactly one group, that of its digest.
pub proof fn lemma_groups_partition(files: Seq<FileRecord>, filter: FilterView, algo: HashAlgorithm)
    requires
        distinct_paths(files),
    ensures
        forall|k: int, l: int, p: Seq<char>|
            0 <= k < duplicates(files, filter, algo).len() && 0 <= l < duplicates(
                files,
                filter,
                algo,
            ).len() && (#[trigger] duplicates(files, filter, algo)[k].files.contains(p))
                && (#[trigger] duplicates(files, filter, algo)[l].files.contains(p)) ==> k == l,
        forall|i: int|
            0 <= i < files.len() && filter.retains(#[trigger] files[i]) && file_digest(
                files[i],
                algo,
            ) is Some && members(
                files.filter(kept_by(filter)),
                algo,
                file_digest(files[i], algo)->0,
            ).len() >= 2 ==> in_one_group(
                duplicates(files, filter, algo),
                file_digest(files[i], algo)->0,
                files[i].path@,
            ),
{
    let kept = files.filter(kept_by(filter));
    let found = duplicates(files, filter, algo);
    let path = |f: FileRecord| f.path@;
    lemma_reported(files, filter, algo);
    assert(distinct_by(files, path));
    lemma_filter_distinct(files, kept_by(filter), path);
    lemma_filter_member(files, kept_by(filter));
    assert forall|k: int, l: int, p: Seq<char>|
        0 <= k < found.len() && 0 <= l < found.len() && (#[trigger] found[k].files.contains(p))
            && (#[trigger] found[l].files.contains(p)) implies k == l by {
        let dk = found[k].hash;
        let dl = found[l].hash;
        let mk = members(kept, algo, dk);
        let ml = members(kept, algo, dl);
        lemma_filter_member(kept, digest_is(algo, dk));
        lemma_filter_member(kept, digest_is(algo, dl));
        let a = choose|a: int| 0 <= a < paths_of(mk).len() && paths_of(mk)[a] == p;
        let b = choose|b: int| 0 <= b < paths_of(ml).len() && paths_of(ml)[b] == p;
        assert(mk.contains(mk[a]) && ml.contains(ml[b]));
        assert(kept.contains(mk[a]) && kept.contains(ml[b]));
        let x = choose|x: int| 0 <= x < kept.len() && kept[x] == mk[a];
        let y = choose|y: int| 0 <= y < kept.len() && kept[y] == ml[b];
        assert(path(kept[x]) == path(kept[y]));
        assert(x == y);
        assert(dk == dl);
    }
    assert forall|i: int|
        0 <= i < files.len() && filter.retains(#[trigger] files[i]) && file_digest(files[i], algo)
            is Some && members(kept, algo, file_digest(files[i], algo)->0).len()
            >= 2 implies in_one_group(found, file_digest(files[i], algo)->0, files[i].path@) by {
        let d = file_digest(files[i], algo)->0;
        let m = members(kept, algo, d);
        assert(has_digest(found, d));
        let k = choose|k: int| 0 <= k < found.len() && found[k].hash == d;
        lemma_filter_member(kept, digest_is(algo, d));
        assert(files.contains(files[i]));
        assert(kept.contains(files[i]));
        assert(m.contains(files[i]));
        let a = choose|a: int| 0 <= a < m.len() && m[a] == files[i];
        assert(paths_of(m)[a] == files[i].path@);
        assert(found[k].files.contains(files[i].path@));
    }
}

/// The order in which the files are found does not matter to what is
/// reported: two runs over the same files report the same digests, and for
/// each digest the same paths, each as often, and the same total size.
pub proof fn lemma_order_independent(
    first: Seq<FileRecord>,
    second: Seq<FileRecord>,
    filter: FilterView,
    algo: HashAlgorithm,
)
    requires
        first.to_multiset() == second.to_multiset(),
    ensures
        same_groups(duplicates(first, filter, algo), duplicates(second, filter, algo)),
{
    let kept1 = first.filter(kept_by(filter));
    let kept2 = second.filter(kept_by(filter));
    let all1 = grouping(kept1, algo);
    let all2 = grouping(kept2, algo);
    let found1 = duplicates(first, filter, algo);
    let found2 = duplicates(second, filter, algo);
    lemma_filter_count(first, kept_by(filter));
    lemma_filter_count(second, kept_by(filter));
    assert(kept1.to_multiset() =~= kept2.to_multiset());
    lemma_grouping_same_items(kept1, kept2, algo);
    lemma_filter_member(all1, is_duplicate());
    lemma_filter_member(all2, is_duplicate());
    assert forall|k: int, l: int|
        0 <= k < found1.len() && 0 <= l < found2.len() && (#[trigger] found1[k]).hash == (
        #[trigger] found2[l]).hash implies {
        &&& found1[k].files.to_multiset() == found2[l].files.to_multiset()
        &&& found1[k].files.to_set() == found2[l].files.to_set()
        &&& found1[k].total_size == found2[l].total_size
    } by {
        assert(found1.contains(found1[k]));
        assert(found2.contains(found2[l]));
        let i = choose|i: int| 0 <= i < all1.len() && all1[i] == found1[k];
        let j = choose|j: int| 0 <= j < all2.len() && all2[j] == found2[l];
        assert(all1[i].hash == all2[j].hash);
    }
    assert forall|d: Seq<char>| has_digest(found1, d) <==> has_digest(found2, d) by {
        if has_digest(found1, d) {
            let k = choose|k: int| 0 <= k < found1.len() && found1[k].hash == d;
            lemma_twin_is_reported(all1, all2, found1[k]);
        }
        if has_digest(found2, d) {
            let k = choose|k: int| 0 <= k < found2.len() && found2[k].hash == d;
            lemma_twin_is_reported(all2, all1, found2[k]);
        }
    }
}

/// Where two sequences hold the same groups but for the order, a group that
/// is reported of the one has a group with its digest reported of the other.
proof fn lemma_twin_is_reported(a: Seq<GroupView>, b: Seq<GroupView>, g: GroupView)
    requires
        same_groups(a, b),
        a.filter(is_duplicate()).contains(g),
    ensures
        has_digest(b.filter(is_duplicate()), g.hash),
{
    lemma_filter_member(a, is_duplicate());
    lemma_filter_member(b, is_duplicate());
    let i = choose|i: int| 0 <= i < a.len() && a[i] == g;
    assert(has_digest(a, g.hash));
    let j = choose|j: int| 0 <= j < b.len() && b[j].hash == g.hash;
    a[i].files.to_multiset_ensures();
    b[j].files.to_multiset_ensures();
    assert(a[i].files.to_multiset() == b[j].files.to_multiset());
    assert(is_duplicate()(b[j]));
    assert(b.contains(b[j]));
    let found = b.filter(is_duplicate());
    assert(found.contains(b[j]));
    let k = choose|k: int| 0 <= k < found.len() && found[k] == b[j];
    assert(found[k].hash == g.hash);
}

} // verus!
