use file_dedup::aggregator::{process_files_parallel, DigestMap};
use file_dedup::file::FileRecord;
use file_dedup::filter::FilterConfig;
use file_dedup::hashing::{hash_bytes, HashAlgorithm};
use file_dedup::pipeline::{default_config, find_duplicates, run_deduplication};
use file_dedup::report::DuplicateGroup;

fn file(path: &str, content: &[u8]) -> FileRecord {
    FileRecord {
        path: path.to_string(),
        size: Some(content.len() as u64),
        content: Some(content.to_vec()),
    }
}

fn unreadable(path: &str, size: u64) -> FileRecord {
    FileRecord { path: path.to_string(), size: Some(size), content: None }
}

fn open_config() -> FilterConfig {
    FilterConfig { min_size: 0, max_size: u64::MAX, regex: None, allowed_extensions: None }
}

fn sorted(mut items: Vec<String>) -> Vec<String> {
    items.sort();
    items
}

#[test]
fn test_run_deduplication_on_temp_dir() {
    let files = vec![
        file("dir/file1.txt", b"duplicate content"),
        file("dir/file2.txt", b"duplicate content"),
        file("dir/file3.txt", b"unique content"),
    ];

    let groups = run_deduplication(&files);

    assert_eq!(groups.len(), 1);
    let listed: Vec<&str> = groups[0].files.iter().map(|p| p.as_str()).collect();
    assert!(listed.contains(&"dir/file1.txt"));
    assert!(listed.contains(&"dir/file2.txt"));
    assert!(!listed.contains(&"dir/file3.txt"));
}

#[test]
fn the_one_group_has_the_digest_and_the_size_of_its_members() {
    let files = vec![
        file("dir/file1.txt", b"duplicate content"),
        file("dir/file2.txt", b"duplicate content"),
        file("dir/file3.txt", b"unique content"),
    ];
    let groups = run_deduplication(&files);
    assert_eq!(groups.len(), 1);
    assert_eq!(groups[0].hash, "b79f8c07798dcc75d6f288e6a620644a88a9c67e74019a57b88a5bfd918e4b0f");
    assert_eq!(groups[0].files, vec!["dir/file1.txt", "dir/file2.txt"]);
    assert_eq!(groups[0].total_size, 2 * 17);
}

#[test]
fn standard_configuration() {
    let config = default_config();
    assert_eq!(config.min_size, 1);
    assert_eq!(config.max_size, 10_000_000);
    assert_eq!(config.regex, Some(".*".to_string()));
    assert_eq!(
        config.allowed_extensions,
        Some(vec!["txt".to_string(), "rs".to_string(), "jpg".to_string(), "png".to_string()])
    );
    assert_eq!(config.validate(), Ok(()));
}

#[test]
fn standard_run_passes_over_other_extensions_and_empty_files() {
    let files = vec![
        file("a.bin", b"same"),
        file("b.bin", b"same"),
        file("c.txt", b""),
        file("d.txt", b""),
        file("e.rs", b"same"),
        file("f.png", b"same"),
    ];
    let groups = run_deduplication(&files);
    assert_eq!(groups.len(), 1);
    assert_eq!(groups[0].files, vec!["e.rs", "f.png"]);
    assert_eq!(groups[0].total_size, 8);
}

#[test]
fn no_files_no_groups() {
    assert!(run_deduplication(&Vec::new()).is_empty());
}

#[test]
fn singleton_groups_are_not_reported() {
    let files = vec![file("a", b"1"), file("b", b"2"), file("c", b"3")];
    for algo in [HashAlgorithm::Sha256, HashAlgorithm::Blake3, HashAlgorithm::XxHash] {
        assert!(find_duplicates(&files, &open_config(), algo).is_empty());
    }
}

#[test]
fn groups_come_in_the_order_of_first_occurrence() {
    let files = vec![
        file("x1", b"x"),
        file("y1", b"yy"),
        file("z1", b"zzz"),
        file("y2", b"yy"),
        file("x2", b"x"),
        file("y3", b"yy"),
    ];
    let groups = find_duplicates(&files, &open_config(), HashAlgorithm::Blake3);
    assert_eq!(groups.len(), 2);
    assert_eq!(groups[0].files, vec!["x1", "x2"]);
    assert_eq!(groups[0].total_size, 2);
    assert_eq!(groups[0].hash, hash_bytes(b"x", HashAlgorithm::Blake3));
    assert_eq!(groups[1].files, vec!["y1", "y2", "y3"]);
    assert_eq!(groups[1].total_size, 6);
    assert_eq!(groups[1].hash, hash_bytes(b"yy", HashAlgorithm::Blake3));
}

#[test]
fn unreadable_files_are_in_no_group() {
    let files = vec![
        file("a", b"same"),
        unreadable("b", 4),
        file("c", b"same"),
        unreadable("d", 4),
    ];
    let groups = find_duplicates(&files, &open_config(), HashAlgorithm::Sha256);
    assert_eq!(groups.len(), 1);
    assert_eq!(groups[0].files, vec!["a", "c"]);
}

#[test]
fn filtered_files_are_in_no_group() {
    let config = FilterConfig {
        min_size: 0,
        max_size: 100,
        regex: Some("^in/".to_string()),
        allowed_extensions: None,
    };
    let files = vec![
        file("in/a", b"same"),
        file("out/b", b"same"),
        file("in/c", b"same"),
        file("out/d", b"same"),
        file("in/e", b"other"),
        file("out/f", b"other"),
    ];
    let groups = find_duplicates(&files, &config, HashAlgorithm::XxHash);
    assert_eq!(groups.len(), 1);
    assert_eq!(groups[0].files, vec!["in/a", "in/c"]);
}

#[test]
fn running_twice_reports_the_same() {
    let files = vec![
        file("a.txt", b"one"),
        file("b.txt", b"two"),
        file("c.txt", b"one"),
        file("d.txt", b"two"),
        file("e.txt", b"three"),
    ];
    let first = run_deduplication(&files);
    let second = run_deduplication(&files);
    assert_eq!(first.len(), second.len());
    for (a, b) in first.iter().zip(second.iter()) {
        assert_eq!(a.hash, b.hash);
        assert_eq!(a.files, b.files);
        assert_eq!(a.total_size, b.total_size);
    }
}

#[test]
fn the_order_of_discovery_does_not_change_what_is_reported() {
    let forward = vec![
        file("a.txt", b"one"),
        file("b.txt", b"two"),
        file("c.txt", b"one"),
        file("d.txt", b"two"),
        file("e.txt", b"three"),
        file("f.txt", b"one"),
    ];
    let backward = vec![
        file("f.txt", b"one"),
        file("e.txt", b"three"),
        file("d.txt", b"two"),
        file("c.txt", b"one"),
        file("b.txt", b"two"),
        file("a.txt", b"one"),
    ];
    let first = run_deduplication(&forward);
    let second = run_deduplication(&backward);
    assert_eq!(first.len(), 2);
    assert_eq!(second.len(), 2);
    for group in &first {
        let twin = second.iter().find(|g| g.hash == group.hash);
        assert!(twin.is_some());
        let twin = twin.unwrap();
        assert_eq!(sorted(group.files.clone()), sorted(twin.files.clone()));
        assert_eq!(group.total_size, twin.total_size);
    }
}

#[test]
fn reported_groups_part_the_files() {
    let files = vec![
        file("a", b"p"),
        file("b", b"q"),
        file("c", b"p"),
        file("d", b"r"),
        file("e", b"q"),
        file("f", b"p"),
        file("g", b"s"),
    ];
    let groups = find_duplicates(&files, &open_config(), HashAlgorithm::Sha256);
    let mut seen: Vec<String> = Vec::new();
    for group in &groups {
        assert!(group.files.len() >= 2);
        for path in &group.files {
            assert!(!seen.contains(path));
            seen.push(path.clone());
        }
    }
    assert_eq!(sorted(seen), vec!["a", "b", "c", "e", "f"]);
    for (i, a) in groups.iter().enumerate() {
        for b in groups.iter().skip(i + 1) {
            assert_ne!(a.hash, b.hash);
        }
    }
}

#[test]
fn aggregation_keeps_singletons_and_the_order_of_the_files() {
    let a = file("a", b"one");
    let b = file("b", b"two");
    let c = unreadable("c", 3);
    let d = file("d", b"one");
    let files = vec![&a, &b, &c, &d];
    let map = process_files_parallel(&files, HashAlgorithm::Sha256);
    assert!(map.is_some());
    let map = map.unwrap();
    let groups: &Vec<DuplicateGroup> = map.groups();
    assert_eq!(groups.len(), 2);
    assert_eq!(groups[0].hash, hash_bytes(b"one", HashAlgorithm::Sha256));
    assert_eq!(groups[0].files, vec!["a", "d"]);
    assert_eq!(groups[0].total_size, 6);
    assert_eq!(groups[1].hash, hash_bytes(b"two", HashAlgorithm::Sha256));
    assert_eq!(groups[1].files, vec!["b"]);
    assert_eq!(groups[1].total_size, 3);
}

#[test]
fn aggregation_of_many_files_keeps_their_order() {
    let files: Vec<FileRecord> =
        (0..500u32).map(|i| file(&format!("f{}", i), &[(i % 7) as u8])).collect();
    let refs: Vec<&FileRecord> = files.iter().collect();
    let map = process_files_parallel(&refs, HashAlgorithm::XxHash).unwrap();
    let groups = map.into_groups();
    assert_eq!(groups.len(), 7);
    for (k, group) in groups.iter().enumerate() {
        assert_eq!(group.hash, hash_bytes(&[k as u8], HashAlgorithm::XxHash));
        let expected: Vec<String> =
            (0..500u32).filter(|i| (i % 7) as usize == k).map(|i| format!("f{}", i)).collect();
        assert_eq!(group.files, expected);
        assert_eq!(group.total_size, expected.len() as u64);
    }
}

#[test]
fn digest_map_grows_by_insertion() {
    let mut map = DigestMap::new();
    assert!(map.groups().is_empty());
    map.insert("aa".to_string(), "one".to_string(), 5);
    map.insert("bb".to_string(), "two".to_string(), 7);
    map.insert("aa".to_string(), "three".to_string(), 5);
    let groups = map.groups();
    assert_eq!(groups.len(), 2);
    assert_eq!(groups[0].hash, "aa");
    assert_eq!(groups[0].files, vec!["one", "three"]);
    assert_eq!(groups[0].total_size, 10);
    assert_eq!(groups[1].hash, "bb");
    assert_eq!(groups[1].files, vec!["two"]);
    assert_eq!(groups[1].total_size, 7);
    let duplicates = map.into_duplicates();
    assert_eq!(duplicates.len(), 1);
    assert_eq!(duplicates[0].hash, "aa");
}

fn group(hash: &str, files: &[&str], total_size: u64) -> DuplicateGroup {
    DuplicateGroup {
        hash: hash.to_string(),
        files: files.iter().map(|f| f.to_string()).collect(),
        total_size,
    }
}

fn summary(map: &DigestMap) -> Vec<(String, Vec<String>, u64)> {
    map.groups().iter().map(|g| (g.hash.clone(), g.files.clone(), g.total_size)).collect()
}

#[test]
fn absorb_joins_a_group_with_its_digest_or_adds_it() {
    let mut map = DigestMap::new();
    map.absorb(group("aa", &["one", "two"], 10));
    map.absorb(group("bb", &["three"], 7));
    map.absorb(group("aa", &["four"], 5));
    assert_eq!(
        summary(&map),
        vec![
            ("aa".to_string(), vec!["one".to_string(), "two".to_string(), "four".to_string()], 15),
            ("bb".to_string(), vec!["three".to_string()], 7),
        ]
    );
}

#[test]
fn merge_unites_the_groups_of_two_maps() {
    let mut left = DigestMap::new();
    left.insert("aa".to_string(), "l1".to_string(), 1);
    left.insert("bb".to_string(), "l2".to_string(), 2);
    let mut right = DigestMap::new();
    right.insert("cc".to_string(), "r1".to_string(), 3);
    right.insert("aa".to_string(), "r2".to_string(), 1);
    right.insert("cc".to_string(), "r3".to_string(), 3);
    left.merge(right);
    assert_eq!(
        summary(&left),
        vec![
            ("aa".to_string(), vec!["l1".to_string(), "r2".to_string()], 2),
            ("bb".to_string(), vec!["l2".to_string()], 2),
            ("cc".to_string(), vec!["r1".to_string(), "r3".to_string()], 6),
        ]
    );
}

#[test]
fn merge_with_an_empty_map_changes_nothing() {
    let mut map = DigestMap::new();
    map.insert("aa".to_string(), "one".to_string(), 4);
    let before = summary(&map);
    map.merge(DigestMap::new());
    assert_eq!(summary(&map), before);
    let mut empty = DigestMap::new();
    empty.merge(map);
    assert_eq!(summary(&empty), before);
}

#[test]
fn hashing_in_two_batches_and_merging_gives_the_groups_of_all() {
    let files = vec![
        file("a", b"one"),
        file("b", b"two"),
        file("c", b"one"),
        file("d", b"three"),
        file("e", b"two"),
        file("f", b"one"),
        unreadable("g", 3),
    ];
    let all: Vec<&FileRecord> = files.iter().collect();
    let whole = process_files_parallel(&all, HashAlgorithm::Blake3).unwrap();
    for cut in 0..=files.len() {
        let first: Vec<&FileRecord> = files[..cut].iter().collect();
        let second: Vec<&FileRecord> = files[cut..].iter().collect();
        let mut merged = process_files_parallel(&first, HashAlgorithm::Blake3).unwrap();
        merged.merge(process_files_parallel(&second, HashAlgorithm::Blake3).unwrap());
        assert_eq!(summary(&merged), summary(&whole));
    }
}

#[test]
fn merging_either_way_gives_the_same_membership() {
    let left_files = vec![file("a", b"one"), file("b", b"two")];
    let right_files = vec![file("c", b"two"), file("d", b"one"), file("e", b"three")];
    let left: Vec<&FileRecord> = left_files.iter().collect();
    let right: Vec<&FileRecord> = right_files.iter().collect();
    let mut one = process_files_parallel(&left, HashAlgorithm::Sha256).unwrap();
    one.merge(process_files_parallel(&right, HashAlgorithm::Sha256).unwrap());
    let mut other = process_files_parallel(&right, HashAlgorithm::Sha256).unwrap();
    other.merge(process_files_parallel(&left, HashAlgorithm::Sha256).unwrap());
    assert_eq!(one.groups().len(), other.groups().len());
    for g in one.groups() {
        let twin = other.groups().iter().find(|t| t.hash == g.hash).unwrap();
        assert_eq!(sorted(g.files.clone()), sorted(twin.files.clone()));
        assert_eq!(g.total_size, twin.total_size);
    }
}
