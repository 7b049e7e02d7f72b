use file_dedup::scanner::{scan_directory, DirEntry, DirTree, DirectoryScan};

fn file(path: &str) -> DirEntry {
    DirEntry { path: path.to_string(), is_dir: false }
}

fn dir(path: &str) -> DirEntry {
    DirEntry { path: path.to_string(), is_dir: true }
}

fn leaf(path: &str) -> DirTree {
    DirTree::File { path: path.to_string() }
}

fn folder(path: &str, entries: Vec<DirTree>) -> DirTree {
    DirTree::Directory { path: path.to_string(), entries: Some(entries) }
}

fn locked(path: &str) -> DirTree {
    DirTree::Directory { path: path.to_string(), entries: None }
}

fn sorted(mut items: Vec<String>) -> Vec<String> {
    items.sort();
    items
}

#[test]
fn test_scan_directory_recursively() {
    // Create nested directories and files
    let root = folder(
        "root",
        vec![folder("root/subdir", vec![leaf("root/subdir/file2.txt")]), leaf("root/file1.txt")],
    );

    let files = scan_directory(&root);

    // Assert both files are found
    assert!(files.contains(&"root/file1.txt".to_string()));
    assert!(files.contains(&"root/subdir/file2.txt".to_string()));
    assert_eq!(files.len(), 2);
}

#[test]
fn scan_finds_every_file_of_a_deep_tree() {
    let root = folder(
        "r",
        vec![
            leaf("r/a"),
            folder("r/d1", vec![folder("r/d1/d2", vec![leaf("r/d1/d2/b"), folder("r/d1/d2/d3", vec![])])]),
            locked("r/locked"),
            folder("r/d4", vec![leaf("r/d4/c"), leaf("r/d4/d")]),
            leaf("r/e"),
        ],
    );
    assert_eq!(
        sorted(scan_directory(&root)),
        vec!["r/a", "r/d1/d2/b", "r/d4/c", "r/d4/d", "r/e"]
    );
}

#[test]
fn scan_lists_the_directory_that_was_added_last_first() {
    let root = folder(
        "r",
        vec![
            folder("r/x", vec![leaf("r/x/1")]),
            leaf("r/a"),
            folder("r/y", vec![leaf("r/y/2")]),
        ],
    );
    assert_eq!(scan_directory(&root), vec!["r/a", "r/y/2", "r/x/1"]);
}

#[test]
fn scan_of_what_cannot_be_listed_finds_nothing() {
    assert!(scan_directory(&locked("r")).is_empty());
    assert!(scan_directory(&leaf("r/file")).is_empty());
    assert!(scan_directory(&folder("r", vec![])).is_empty());
    assert!(scan_directory(&folder("r", vec![locked("r/a"), folder("r/b", vec![])])).is_empty());
}

#[test]
fn tree_gives_the_listing_of_its_top() {
    let root = folder("r", vec![leaf("r/a"), locked("r/b")]);
    let listing = root.listing().unwrap();
    assert_eq!(listing.len(), 2);
    assert_eq!(listing[0].path, "r/a");
    assert!(!listing[0].is_dir);
    assert_eq!(listing[1].path, "r/b");
    assert!(listing[1].is_dir);
    assert!(leaf("r/a").listing().is_none());
    assert!(locked("r/b").listing().is_none());
    assert_eq!(root.path(), "r");
    assert!(root.is_dir());
    assert!(!leaf("x").is_dir());
}

#[test]
fn walk_step_by_step() {
    let mut scan = DirectoryScan::new("root".to_string());

    assert_eq!(scan.next_directory(), Some("root".to_string()));
    scan.record_listing(Some(vec![dir("root/subdir"), file("root/file1.txt")]));
    assert_eq!(scan.next_directory(), Some("root/subdir".to_string()));
    scan.record_listing(Some(vec![file("root/subdir/file2.txt")]));
    assert_eq!(scan.next_directory(), None);

    let files = scan.into_files();

    assert!(files.contains(&"root/file1.txt".to_string()));
    assert!(files.contains(&"root/subdir/file2.txt".to_string()));
    assert_eq!(files.len(), 2);
}

#[test]
fn unreadable_root_gives_no_files() {
    let mut scan = DirectoryScan::new("locked".to_string());
    assert!(!scan.is_finished());
    assert_eq!(scan.next_directory(), Some("locked".to_string()));
    scan.record_listing(None);
    assert!(scan.is_finished());
    assert_eq!(scan.next_directory(), None);
    assert!(scan.into_files().is_empty());
}

#[test]
fn unreadable_subtree_is_passed_over() {
    let mut scan = DirectoryScan::new("r".to_string());
    assert_eq!(scan.next_directory(), Some("r".to_string()));
    scan.record_listing(Some(vec![file("r/a"), dir("r/locked"), dir("r/open"), file("r/b")]));
    assert_eq!(scan.next_directory(), Some("r/open".to_string()));
    scan.record_listing(Some(vec![file("r/open/c")]));
    assert_eq!(scan.next_directory(), Some("r/locked".to_string()));
    scan.record_listing(None);
    assert!(scan.is_finished());
    assert_eq!(scan.into_files(), vec!["r/a", "r/b", "r/open/c"]);
}

#[test]
fn empty_directory_adds_nothing() {
    let mut scan = DirectoryScan::new("r".to_string());
    assert_eq!(scan.next_directory(), Some("r".to_string()));
    scan.record_listing(Some(Vec::new()));
    assert!(scan.is_finished());
    assert!(scan.into_files().is_empty());
}

#[test]
fn asking_again_after_the_end_changes_nothing() {
    let mut scan = DirectoryScan::new("r".to_string());
    assert_eq!(scan.next_directory(), Some("r".to_string()));
    scan.record_listing(Some(vec![file("r/a")]));
    assert_eq!(scan.next_directory(), None);
    assert_eq!(scan.next_directory(), None);
    assert_eq!(scan.into_files(), vec!["r/a"]);
}
