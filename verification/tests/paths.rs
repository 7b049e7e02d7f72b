use file_dedup::path::{base_name, characters, extension, join};
use file_dedup::quarantine::quarantine_destination;

fn text(s: &str) -> Option<String> {
    Some(s.to_string())
}

#[test]
fn extension_is_what_follows_the_last_dot_of_the_name() {
    assert_eq!(extension("a.txt"), text("txt"));
    assert_eq!(extension("dir/sub/a.tar.gz"), text("gz"));
    assert_eq!(extension("/abs/report.JSON"), text("JSON"));
    assert_eq!(extension("a."), text(""));
    assert_eq!(extension(".a.b"), text("b"));
    assert_eq!(extension("..."), text(""));
    assert_eq!(extension("é/ö.ü"), text("ü"));
}

#[test]
fn extension_is_absent_without_a_dot_in_the_name() {
    assert_eq!(extension(""), None);
    assert_eq!(extension("makefile"), None);
    assert_eq!(extension("dir.d/makefile"), None);
    assert_eq!(extension(".bashrc"), None);
    assert_eq!(extension("dir/.bashrc"), None);
    assert_eq!(extension(".."), None);
    assert_eq!(extension("dir/.."), None);
    assert_eq!(extension("."), None);
    assert_eq!(extension("a.txt/"), None);
}

#[test]
fn base_name_is_the_last_component() {
    assert_eq!(base_name("sample.txt"), text("sample.txt"));
    assert_eq!(base_name("source/sample.txt"), text("sample.txt"));
    assert_eq!(base_name("/a/b/c"), text("c"));
    assert_eq!(base_name("a/.hidden"), text(".hidden"));
    assert_eq!(base_name("a/..."), text("..."));
}

#[test]
fn base_name_is_absent_for_directories_and_nothing() {
    assert_eq!(base_name(""), None);
    assert_eq!(base_name("a/"), None);
    assert_eq!(base_name("/"), None);
    assert_eq!(base_name("."), None);
    assert_eq!(base_name("a/."), None);
    assert_eq!(base_name(".."), None);
    assert_eq!(base_name("a/.."), None);
}

#[test]
fn join_puts_one_separator_between() {
    assert_eq!(join("quarantine", "sample.txt"), "quarantine/sample.txt");
    assert_eq!(join("quarantine/", "sample.txt"), "quarantine/sample.txt");
    assert_eq!(join("", "sample.txt"), "sample.txt");
    assert_eq!(join("/", "sample.txt"), "/sample.txt");
    assert_eq!(join("a/b", ""), "a/b/");
}

#[test]
fn characters_are_the_scalar_values_in_order() {
    assert_eq!(characters(""), Vec::<char>::new());
    assert_eq!(characters("a/é.t"), vec!['a', '/', 'é', '.', 't']);
}

#[test]
fn test_move_to_quarantine_success() {
    let file_path = "tmp/source/sample.txt";
    let quarantine_dir = "tmp/quarantine";

    let result = quarantine_destination(file_path, quarantine_dir);
    assert!(result.is_some());

    let new_path = result.unwrap();
    assert_eq!(new_path, "tmp/quarantine/sample.txt");
    assert_eq!(base_name(&new_path), text("sample.txt"));
    assert!(new_path.starts_with(quarantine_dir));
}

#[test]
fn quarantine_has_no_place_for_what_names_no_file() {
    assert_eq!(quarantine_destination("", "q"), None);
    assert_eq!(quarantine_destination("source/", "q"), None);
    assert_eq!(quarantine_destination("source/..", "q"), None);
}

#[test]
fn quarantine_keeps_only_the_file_name() {
    assert_eq!(quarantine_destination("/deep/er/tree/x.bin", "/q/"), text("/q/x.bin"));
    assert_eq!(quarantine_destination("x.bin", ""), text("x.bin"));
}
