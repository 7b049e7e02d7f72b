//! The scanner: a walk over a directory tree, one listing at a time.
//!
//! The walk keeps a work list of directories that are still to be listed.
//! The caller takes the next directory from it, lists that directory, and
//! hands the listing back; the walk is over when the work list is empty.
//! Nothing here follows a cycle of links: a caller that may meet one has to
//! stop by its own count.
//!
//! A tree that is held in memory can be walked at once with
//! `scan_directory`. It makes the same walk, and what it finds is proved to
//! be the files of the tree; the same holds of any walk that is answered
//! from a tree.

use crate::path::texts_of;
use crate::sequences::{lemma_filter_member, lemma_filter_push, lemma_nothing_in_empty};
use vstd::prelude::*;
use vstd::seq_lib::lemma_multiset_commutative;

verus! {

/// One entry of a directory listing.
#[derive(Clone, Debug)]
pub struct DirEntry {
    pub path: String,
    pub is_dir: bool,
}

/// A walk in progress.
pub struct DirectoryScan {
    pending: Vec<String>,
    files: Vec<String>,
}

/// The state of a walk, as plain mathematics: the directories that are
/// still to be listed, the next one last, and the files found so far.
pub struct ScanView {
    pub pending: Seq<Seq<char>>,
    pub files: Seq<Seq<char>>,
}

/// One entry of a directory listing, as plain mathematics.
pub struct EntryView {
    pub path: Seq<char>,
    pub is_dir: bool,
}

/// What a listing holds, as plain mathematics; `None` stands for a directory
/// that could not be opened.
pub open spec fn listing_view(listing: Option<Vec<DirEntry>>) -> Option<Seq<EntryView>> {
    match listing {
        Some(entries) => Some(
            entries@.map_values(|e: DirEntry| EntryView { path: e.path@, is_dir: e.is_dir }),
        ),
        None => None,
    }
}

/// The test that an entry is a directory, or that it is not.
pub open spec fn of_kind(directories: bool) -> spec_fn(EntryView) -> bool {
    |e: EntryView| e.is_dir == directories
}

/// The paths of the entries of `listing` that are directories, or that are
/// not, in order.
pub open spec fn entries_of_kind(listing: Seq<EntryView>, directories: bool) -> Seq<Seq<char>> {
    listing.filter(of_kind(directories)).map_values(|e: EntryView| e.path)
}

/// The state after a listing was recorded: its files are found and its
/// directories are still to be listed. Without a listing nothing changes.
pub open spec fn after_listing(state: ScanView, listing: Option<Seq<EntryView>>) -> ScanView {
    match listing {
        Some(entries) => ScanView {
            pending: state.pending + entries_of_kind(entries, true),
            files: state.files + entries_of_kind(entries, false),
        },
        None => state,
    }
}

/// The state after the next directory was taken off the work list.
pub open spec fn after_taking(state: ScanView) -> ScanView {
    ScanView { pending: state.pending.drop_last(), files: state.files }
}

impl DirectoryScan {
    /// The state of the walk.
    pub closed spec fn view(&self) -> ScanView {
        ScanView { pending: texts_of(self.pending@), files: texts_of(self.files@) }
    }

    /// A walk that has `root` to list and has found nothing yet.
    pub fn new(root: String) -> (scan: DirectoryScan)
        ensures
            scan@ == (ScanView { pending: seq![root@], files: Seq::empty() }),
    {
        let mut pending: Vec<String> = Vec::new();
        pending.push(root);
        let scan = DirectoryScan { pending, files: Vec::new() };
        assert(scan@.pending =~= seq![root@]);
        assert(scan@.files =~= Seq::empty());
        scan
    }

    /// Whether no directory is left to list.
    pub fn is_finished(&self) -> (done: bool)
        ensures
            done == (self@.pending.len() == 0),
    {
        self.pending.len() == 0
    }

    /// Takes the directory to list next off the work list: the one that was
    /// added last. Returns `None`, and changes nothing, when the walk is over.
    pub fn next_directory(&mut self) -> (next: Option<String>)
        ensures
            old(self)@.pending.len() == 0 ==> next is None && final(self)@ == old(self)@,
            old(self)@.pending.len() > 0 ==> (next matches Some(dir) && dir@ == old(
                self,
            )@.pending.last()),
            old(self)@.pending.len() > 0 ==> final(self)@ == after_taking(old(self)@),
    {
        let ghost before = self@;
        let next = self.pending.pop();
        proof {
            if before.pending.len() > 0 {
                assert(self@.pending =~= before.pending.drop_last());
            }
        }
        next
    }

    /// Records the listing of the directory that was taken last. The entries
    /// that are directories go onto the work list, the others are files
    /// found. `None` stands for a directory that could not be opened: it is
    /// passed over.
    pub fn record_listing(&mut self, listing: Option<Vec<DirEntry>>)
        ensures
            final(self)@ == after_listing(old(self)@, listing_view(listing)),
    {
        let ghost before = self@;
        match listing {
            Some(entries) => {
                let ghost view = |e: DirEntry| EntryView { path: e.path@, is_dir: e.is_dir };
                let ghost contents = entries@;
                let ghost seen_all = contents.map_values(view);
                let ghost path = |e: EntryView| e.path;
                for entry in it: entries
                    invariant
                        it.seq() == contents,
                        view == (|e: DirEntry| EntryView { path: e.path@, is_dir: e.is_dir }),
                        path == (|e: EntryView| e.path),
                        seen_all == contents.map_values(view),
                        self@.pending == before.pending + seen_all.take(it.index() as int).filter(
                            of_kind(true),
                        ).map_values(path),
                        self@.files == before.files + seen_all.take(it.index() as int).filter(
                            of_kind(false),
                        ).map_values(path),
                {
                    let ghost seen = seen_all.take(it.index() as int);
                    let ghost state = self@;
                    let ghost e = view(entry);
                    proof {
                        assert(seen_all.take(it.index() + 1) == seen.push(e));
                        lemma_filter_push(seen, e, of_kind(true));
                        lemma_filter_push(seen, e, of_kind(false));
                    }
                    if entry.is_dir {
                        self.pending.push(entry.path);
                        assert(self@.pending =~= state.pending.push(e.path));
                        assert(seen.filter(of_kind(true)).push(e).map_values(path) =~= seen.filter(
                            of_kind(true),
                        ).map_values(path).push(e.path));
                        assert(self@.files == state.files);
                    } else {
                        self.files.push(entry.path);
                        assert(self@.files =~= state.files.push(e.path));
                        assert(seen.filter(of_kind(false)).push(e).map_values(path) =~= seen.filter(
                            of_kind(false),
                        ).map_values(path).push(e.path));
                        assert(self@.pending == state.pending);
                    }
                }
                assert(seen_all.take(seen_all.len() as int) == seen_all);
            },
            None => {},
        }
    }

    /// The files found, in the order in which they were recorded.
    pub fn into_files(self) -> (files: Vec<String>)
        ensures
            texts_of(files@) == self@.files,
    {
        self.files
    }
}

/// A directory tree as it is at one moment, as plain mathematics. A
/// directory that cannot be opened has no entries to show.
pub enum Node {
    File { path: Seq<char> },
    Directory { path: Seq<char>, entries: Option<Seq<Node>> },
}

/// The path of a node.
pub open spec fn node_path(node: Node) -> Seq<char> {
    match node {
        Node::File { path } => path,
        Node::Directory { path, .. } => path,
    }
}

/// The test that a node is a directory, or that it is not.
pub open spec fn node_of_kind(directories: bool) -> spec_fn(Node) -> bool {
    |n: Node| (n is Directory) == directories
}

/// The paths of `nodes`, in order.
pub open spec fn node_paths(nodes: Seq<Node>) -> Seq<Seq<char>> {
    nodes.map_values(|n: Node| node_path(n))
}

/// The entries that stand for `nodes` in a listing, in order.
pub open spec fn entries_for(nodes: Seq<Node>) -> Seq<EntryView> {
    nodes.map_values(|n: Node| EntryView { path: node_path(n), is_dir: n is Directory })
}

/// The listing that a directory gives when it is asked for one.
pub open spec fn listing_of(node: Node) -> Option<Seq<EntryView>> {
    match node {
        Node::Directory { entries: Some(nodes), .. } => Some(entries_for(nodes)),
        _ => None,
    }
}

/// The directories right below a node.
pub open spec fn subdirectories(node: Node) -> Seq<Node> {
    match node {
        Node::Directory { entries: Some(nodes), .. } => nodes.filter(node_of_kind(true)),
        _ => Seq::empty(),
    }
}

/// The number of nodes of a tree.
pub open spec fn node_count(node: Node) -> nat
    decreases node,
{
    match node {
        Node::Directory { entries: Some(nodes), .. } => 1 + forest_count(nodes),
        _ => 1,
    }
}

/// The number of nodes of some trees.
pub open spec fn forest_count(nodes: Seq<Node>) -> nat
    decreases nodes,
{
    if nodes.len() == 0 {
        0
    } else {
        forest_count(nodes.drop_last()) + node_count(nodes.last())
    }
}

/// The paths of the files in a tree: of all nodes that are no directories.
pub open spec fn files_under(node: Node) -> Seq<Seq<char>>
    decreases node,
{
    match node {
        Node::File { path } => seq![path],
        Node::Directory { entries: Some(nodes), .. } => files_among(nodes),
        Node::Directory { entries: None, .. } => Seq::empty(),
    }
}

/// The paths of the files in some trees.
pub open spec fn files_among(nodes: Seq<Node>) -> Seq<Seq<char>>
    decreases nodes,
{
    if nodes.len() == 0 {
        Seq::empty()
    } else {
        files_among(nodes.drop_last()) + files_under(nodes.last())
    }
}

/// The walk that is answered from a tree: as long as a directory is left,
/// it is taken off the work list and its listing is recorded. `trees` are
/// the directories that are still to be listed, and `state` is the state of
/// the walk; what comes out is the state at the end.
pub open spec fn walk(state: ScanView, trees: Seq<Node>) -> ScanView
    decreases forest_count(trees),
{
    if trees.len() == 0 {
        state
    } else {
        proof {
            lemma_walk_gets_on(trees);
        }
        walk(
            after_listing(after_taking(state), listing_of(trees.last())),
            trees.drop_last() + subdirectories(trees.last()),
        )
    }
}

/// Two forests together have the nodes of both.
pub proof fn lemma_forest_count_add(a: Seq<Node>, b: Seq<Node>)
    ensures
        forest_count(a + b) == forest_count(a) + forest_count(b),
    decreases b.len(),
{
    if b.len() == 0 {
        assert(a + b =~= a);
    } else {
        assert((a + b).drop_last() =~= a + b.drop_last());
        assert((a + b).last() == b.last());
        lemma_forest_count_add(a, b.drop_last());
    }
}

/// Part of a forest has no more nodes than the forest.
pub proof fn lemma_forest_count_filter(nodes: Seq<Node>, pred: spec_fn(Node) -> bool)
    ensures
        forest_count(nodes.filter(pred)) <= forest_count(nodes),
    decreases nodes.len(),
{
    reveal(Seq::filter);
    if nodes.len() > 0 {
        let front = nodes.drop_last();
        lemma_forest_count_filter(front, pred);
        if pred(nodes.last()) {
            assert(front.filter(pred).push(nodes.last()).drop_last() == front.filter(pred));
        }
    }
}

/// Listing a directory leaves fewer nodes to visit than there were.
pub proof fn lemma_walk_gets_on(trees: Seq<Node>)
    requires
        trees.len() > 0,
    ensures
        forest_count(trees.drop_last() + subdirectories(trees.last())) < forest_count(trees),
{
    let t = trees.last();
    lemma_forest_count_add(trees.drop_last(), subdirectories(t));
    assert(forest_count(trees) == forest_count(trees.drop_last()) + node_count(t));
    match t {
        Node::Directory { entries: Some(nodes), .. } => {
            lemma_forest_count_filter(nodes, node_of_kind(true));
            assert(node_count(t) == 1 + forest_count(nodes));
        },
        _ => {
            assert(node_count(t) == 1);
            assert(forest_count(subdirectories(t)) == 0);
        },
    }
}

/// The files of two forests together are those of the one and of the other.
pub proof fn lemma_files_among_add(a: Seq<Node>, b: Seq<Node>)
    ensures
        files_among(a + b) == files_among(a) + files_among(b),
    decreases b.len(),
{
    if b.len() == 0 {
        assert(a + b =~= a);
        assert(files_among(a) + files_among(b) =~= files_among(a));
    } else {
        assert((a + b).drop_last() =~= a + b.drop_last());
        assert((a + b).last() == b.last());
        lemma_files_among_add(a, b.drop_last());
        assert(files_among(a + b) =~= files_among(a) + files_among(b));
    }
}

/// The listing of some nodes shows as directories the nodes that are
/// directories, and as files the others.
pub proof fn lemma_listing_kinds(nodes: Seq<Node>, directories: bool)
    ensures
        entries_of_kind(entries_for(nodes), directories) == node_paths(
            nodes.filter(node_of_kind(directories)),
        ),
    decreases nodes.len(),
{
    reveal(Seq::filter);
    let shown = entries_of_kind(entries_for(nodes), directories);
    let wanted = node_paths(nodes.filter(node_of_kind(directories)));
    if nodes.len() == 0 {
        assert(entries_for(nodes).len() == 0);
        assert(shown =~= wanted);
    } else {
        let front = nodes.drop_last();
        let last = nodes.last();
        let entry = EntryView { path: node_path(last), is_dir: last is Directory };
        let path = |e: EntryView| e.path;
        let kept = entries_for(front).filter(of_kind(directories));
        let kept_nodes = front.filter(node_of_kind(directories));
        lemma_listing_kinds(front, directories);
        assert(kept.map_values(path) == node_paths(kept_nodes));
        assert(entries_for(nodes) =~= entries_for(front).push(entry));
        lemma_filter_push(entries_for(front), entry, of_kind(directories));
        if (last is Directory) == directories {
            assert(of_kind(directories)(entry));
            assert(node_of_kind(directories)(last));
            assert(kept.push(entry).map_values(path) =~= kept.map_values(path).push(entry.path));
            assert(node_paths(kept_nodes.push(last)) =~= node_paths(kept_nodes).push(
                node_path(last),
            ));
        } else {
            assert(!of_kind(directories)(entry));
            assert(!node_of_kind(directories)(last));
        }
        assert(shown =~= wanted);
    }
}

/// The files of a forest are its own files and those below its directories.
pub proof fn lemma_files_split(nodes: Seq<Node>)
    ensures
        files_among(nodes).to_multiset() == node_paths(
            nodes.filter(node_of_kind(false)),
        ).to_multiset().add(files_among(nodes.filter(node_of_kind(true))).to_multiset()),
    decreases nodes.len(),
{
    reveal(Seq::filter);
    let own = node_paths(nodes.filter(node_of_kind(false)));
    let below = files_among(nodes.filter(node_of_kind(true)));
    if nodes.len() == 0 {
        lemma_nothing_in_empty(own);
        lemma_nothing_in_empty(below);
        lemma_nothing_in_empty(files_among(nodes));
        assert(files_among(nodes).to_multiset() =~= own.to_multiset().add(below.to_multiset()));
    } else {
        let front = nodes.drop_last();
        let last = nodes.last();
        let own_front = node_paths(front.filter(node_of_kind(false)));
        let below_front = files_among(front.filter(node_of_kind(true)));
        lemma_files_split(front);
        lemma_multiset_commutative(files_among(front), files_under(last));
        match last {
            Node::File { path } => {
                assert(own =~= own_front + seq![path]);
                lemma_multiset_commutative(own_front, seq![path]);
                assert(below == below_front);
            },
            Node::Directory { .. } => {
                let dirs = front.filter(node_of_kind(true));
                assert(dirs.push(last).drop_last() == dirs);
                assert(below == below_front + files_under(last));
                lemma_multiset_commutative(below_front, files_under(last));
                assert(own == own_front);
            },
        }
        assert(files_among(nodes).to_multiset() =~= own.to_multiset().add(below.to_multiset()));
    }
}

/// A walk that is answered from a tree comes to an end, and then it has
/// found, beside what it had found before, exactly the files below the
/// directories that were left to list.
pub proof fn lemma_walk_finds_all(state: ScanView, trees: Seq<Node>)
    requires
        state.pending == node_paths(trees),
        forall|i: int| 0 <= i < trees.len() ==> trees[i] is Directory,
    ensures
        walk(state, trees).pending.len() == 0,
        walk(state, trees).files.to_multiset() == state.files.to_multiset().add(
            files_among(trees).to_multiset(),
        ),
    decreases forest_count(trees),
{
    if trees.len() == 0 {
        lemma_nothing_in_empty(files_among(trees));
        assert(state.files.to_multiset() =~= state.files.to_multiset().add(
            files_among(trees).to_multiset(),
        ));
    } else {
        let t = trees.last();
        let rest = trees.drop_last();
        let taken = after_taking(state);
        let answered = after_listing(taken, listing_of(t));
        let next = rest + subdirectories(t);
        lemma_walk_gets_on(trees);
        lemma_files_among_add(rest, subdirectories(t));
        lemma_multiset_commutative(files_among(rest), files_under(t));
        lemma_multiset_commutative(files_among(rest), files_among(subdirectories(t)));
        assert(taken.pending =~= node_paths(rest));
        assert(forall|i: int| 0 <= i < rest.len() ==> rest[i] == trees[i]);
        match t {
            Node::Directory { entries: Some(nodes), .. } => {
                lemma_listing_kinds(nodes, true);
                lemma_listing_kinds(nodes, false);
                lemma_files_split(nodes);
                lemma_filter_member(nodes, node_of_kind(true));
                let dirs = nodes.filter(node_of_kind(true));
                assert forall|i: int| 0 <= i < next.len() implies next[i] is Directory by {
                    if i >= rest.len() {
                        assert(dirs.contains(dirs[i - rest.len()]));
                    }
                }
                assert(answered.pending =~= node_paths(next));
                lemma_multiset_commutative(
                    state.files,
                    node_paths(nodes.filter(node_of_kind(false))),
                );
                lemma_walk_finds_all(answered, next);
                assert(walk(state, trees).files.to_multiset() =~= state.files.to_multiset().add(
                    files_among(trees).to_multiset(),
                ));
            },
            _ => {
                assert(next =~= rest);
                assert(files_under(t) =~= Seq::<Seq<char>>::empty());
                lemma_nothing_in_empty(files_under(t));
                lemma_walk_finds_all(answered, next);
                assert(walk(state, trees).files.to_multiset() =~= state.files.to_multiset().add(
                    files_among(trees).to_multiset(),
                ));
            },
        }
    }
}

/// A walk that starts at the root of a tree and is answered from the tree
/// comes to an end, and then it has found exactly the files of the tree,
/// each as often as the tree holds it.
pub proof fn lemma_walk_of_tree(root: Node)
    requires
        root is Directory,
    ensures
        walk(start_at(root), seq![root]).pending.len() == 0,
        walk(start_at(root), seq![root]).files.to_multiset() == files_under(root).to_multiset(),
{
    let start = start_at(root);
    let trees = seq![root];
    assert(start.pending =~= node_paths(trees));
    lemma_walk_finds_all(start, trees);
    assert(trees.drop_last() =~= Seq::<Node>::empty());
    assert(trees.last() == root);
    assert(files_among(trees.drop_last()) =~= Seq::<Seq<char>>::empty());
    assert(files_among(trees) =~= files_under(root));
    lemma_nothing_in_empty(start.files);
    assert(walk(start, trees).files.to_multiset() =~= files_under(root).to_multiset());
}

/// A directory tree held in memory: what a walk over a real tree would be
/// told, all at once.
#[derive(Debug)]
pub enum DirTree {
    File { path: String },
    Directory { path: String, entries: Option<Vec<DirTree>> },
}

impl DirTree {
    /// The tree, as plain mathematics.
    pub open spec fn view(&self) -> Node
        decreases self,
    {
        match self {
            DirTree::File { path } => Node::File { path: path@ },
            DirTree::Directory { path, entries: Some(below) } => Node::Directory {
                path: path@,
                entries: Some(
                    Seq::new(
                        below@.len(),
                        |i: int|
                            if 0 <= i < below@.len() {
                                below@[i]@
                            } else {
                                Node::File { path: Seq::empty() }
                            },
                    ),
                ),
            },
            DirTree::Directory { path, entries: None } => Node::Directory {
                path: path@,
                entries: None,
            },
        }
    }
}

/// The views of the trees that `trees` points to, in order.
pub open spec fn tree_views(trees: Seq<&DirTree>) -> Seq<Node> {
    trees.map_values(|t: &DirTree| t@)
}

/// The state in which a walk starts at `root`.
pub open spec fn start_at(root: Node) -> ScanView {
    ScanView { pending: seq![node_path(root)], files: Seq::empty() }
}

impl DirTree {
    /// The path of the node at the top.
    pub fn path(&self) -> (path: &String)
        ensures
            path@ == node_path(self@),
    {
        match self {
            DirTree::File { path } => path,
            DirTree::Directory { path, .. } => path,
        }
    }

    /// Whether the node at the top is a directory.
    pub fn is_dir(&self) -> (directory: bool)
        ensures
            directory == (self@ is Directory),
    {
        match self {
            DirTree::File { .. } => false,
            DirTree::Directory { .. } => true,
        }
    }

    /// The listing that the node at the top gives: its entries, or `None`
    /// where it is no directory or cannot be opened.
    pub fn listing(&self) -> (listing: Option<Vec<DirEntry>>)
        ensures
            listing_view(listing) == listing_of(self@),
    {
        match self {
            DirTree::Directory { entries: Some(below), .. } => {
                let mut entries: Vec<DirEntry> = Vec::new();
                let mut i: usize = 0;
                while i < below.len()
                    invariant
                        i <= below.len(),
                        entries.len() == i,
                        forall|k: int|
                            0 <= k < i ==> (#[trigger] entries[k]).path@ == node_path(below[k]@)
                                && entries[k].is_dir == (below[k]@ is Directory),
                    decreases below.len() - i,
                {
                    let child = &below[i];
                    entries.push(DirEntry { path: child.path().clone(), is_dir: child.is_dir() });
                    i += 1;
                }
                proof {
                    let shown = listing_view(Some(entries))->0;
                    let wanted = listing_of(self@)->0;
                    assert(shown.len() == wanted.len());
                    assert forall|k: int| 0 <= k < shown.len() implies shown[k] == wanted[k] by {
                        assert(entries[k].path@ == node_path(below[k]@));
                    }
                    assert(shown =~= wanted);
                }
                Some(entries)
            },
            _ => None,
        }
    }
}

/// Puts the directories right below `tree` onto `trees`, in their order.
fn push_subdirectories<'a>(trees: &mut Vec<&'a DirTree>, tree: &'a DirTree)
    ensures
        tree_views(final(trees)@) == tree_views(old(trees)@) + subdirectories(tree@),
{
    let ghost before = tree_views(trees@);
    match tree {
        DirTree::Directory { entries: Some(below), .. } => {
            let ghost nodes = tree@->Directory_entries->0;
            let mut i: usize = 0;
            while i < below.len()
                invariant
                    i <= below.len(),
                    nodes.len() == below.len(),
                    forall|k: int| 0 <= k < below.len() ==> nodes[k] == below[k]@,
                    tree_views(trees@) == before + nodes.take(i as int).filter(node_of_kind(true)),
                decreases below.len() - i,
            {
                let child = &below[i];
                let ghost seen = nodes.take(i as int);
                let ghost held = trees@;
                proof {
                    assert(nodes.take(i + 1) == seen.push(child@));
                    lemma_filter_push(seen, child@, node_of_kind(true));
                }
                if child.is_dir() {
                    trees.push(child);
                    assert(tree_views(trees@) =~= tree_views(held).push(child@));
                }
                i += 1;
            }
            assert(nodes.take(nodes.len() as int) == nodes);
        },
        _ => {
            assert(tree_views(trees@) =~= before + subdirectories(tree@));
        },
    }
}

/// Walks a tree that is held in memory and collects the paths of its files.
///
/// The walk is the one that `DirectoryScan` makes when every listing it asks
/// for is taken from the tree. Below a directory it finds every file, each
/// once for each time the tree holds it, and it passes over directories that
/// cannot be opened. A root that is no directory has no listing, so nothing
/// is found.
pub fn scan_directory(root: &DirTree) -> (files: Vec<String>)
    ensures
        texts_of(files@) == walk(start_at(root@), seq![root@]).files,
        root@ is Directory ==> texts_of(files@).to_multiset() == files_under(root@).to_multiset(),
        root@ is File ==> files@.len() == 0,
{
    let mut scan = DirectoryScan::new(root.path().clone());
    let mut trees: Vec<&DirTree> = Vec::new();
    trees.push(root);
    let ghost goal = walk(start_at(root@), seq![root@]);
    proof {
        assert(tree_views(trees@) =~= seq![root@]);
        assert(scan@.pending =~= node_paths(tree_views(trees@)));
    }
    while trees.len() > 0
        invariant
            scan@.pending == node_paths(tree_views(trees@)),
            walk(scan@, tree_views(trees@)) == goal,
        decreases forest_count(tree_views(trees@)),
    {
        let ghost state = scan@;
        let ghost views = tree_views(trees@);
        let ghost top = views.last();
        proof {
            lemma_walk_gets_on(views);
        }
        let taken = scan.next_directory();
        let tree = trees.pop().unwrap();
        assert(tree@ == top);
        assert(tree_views(trees@) =~= views.drop_last());
        scan.record_listing(tree.listing());
        push_subdirectories(&mut trees, tree);
        proof {
            assert(scan@ == after_listing(after_taking(state), listing_of(top)));
            assert(tree_views(trees@) == views.drop_last() + subdirectories(top));
            assert(after_taking(state).pending =~= node_paths(views.drop_last()));
            match top {
                Node::Directory { entries: Some(nodes), .. } => {
                    lemma_listing_kinds(nodes, true);
                },
                _ => {},
            }
            assert(scan@.pending =~= node_paths(tree_views(trees@)));
        }
    }
    proof {
        assert(walk(scan@, tree_views(trees@)) == scan@);
        if root@ is Directory {
            lemma_walk_of_tree(root@);
        } else {
            let trees = seq![root@];
            let answered = after_listing(after_taking(start_at(root@)), listing_of(trees.last()));
            let rest = trees.drop_last() + subdirectories(trees.last());
            assert(rest =~= Seq::<Node>::empty());
            assert(walk(answered, rest) == answered);
            assert(goal == walk(answered, rest));
        }
    }
    scan.into_files()
}

} // verus!
