use file_dedup::analysis::{analyze_similar_content, comparison_mode, Comparison, ComparisonMode};
use file_dedup::content_similarity::compare_text_files;
use file_dedup::file::FileRecord;
use file_dedup::image_similarity::{compare_images, hamming_distance, LumaImage};
use img_hash::image::{DynamicImage, Rgb, RgbImage};

fn text_file(path: &str, content: &[u8]) -> FileRecord {
    FileRecord {
        path: path.to_string(),
        size: Some(content.len() as u64),
        content: Some(content.to_vec()),
    }
}

fn create_test_image(color: [u8; 3]) -> LumaImage {
    let img = RgbImage::from_pixel(64, 64, Rgb(color));
    let gray = DynamicImage::ImageRgb8(img).to_luma8();
    LumaImage::new(gray.width(), gray.height(), gray.into_raw()).unwrap()
}

fn halves(left: u8, right: u8) -> LumaImage {
    let mut luma = Vec::new();
    for _row in 0..32 {
        for column in 0..32 {
            luma.push(if column < 16 { left } else { right });
        }
    }
    LumaImage::new(32, 32, luma).unwrap()
}

#[test]
fn test_compare_text_files() {
    let file1 = text_file("test1.txt", b"hello world");
    let file2 = text_file("test2.txt", b"hello world");

    let distance = compare_text_files(&file1, &file2).unwrap();
    assert_eq!(distance, 0);
}

#[test]
fn edit_distance_counts_single_character_edits() {
    let score = |a: &str, b: &str| {
        compare_text_files(&text_file("a.txt", a.as_bytes()), &text_file("b.txt", b.as_bytes()))
    };
    assert_eq!(score("kitten", "sitting"), Some(3));
    assert_eq!(score("", ""), Some(0));
    assert_eq!(score("", "abc"), Some(3));
    assert_eq!(score("abc", ""), Some(3));
    assert_eq!(score("flaw", "lawn"), Some(2));
    assert_eq!(score("ab", "ac"), Some(1));
    assert_eq!(score("héllo", "hello"), Some(1));
}

#[test]
fn text_score_is_symmetric() {
    let a = text_file("a.txt", b"the quick brown fox");
    let b = text_file("b.txt", b"a quick brown dog");
    assert_eq!(compare_text_files(&a, &b), compare_text_files(&b, &a));
    assert!(compare_text_files(&a, &b).unwrap() > 0);
}

#[test]
fn no_text_score_without_readable_text() {
    let good = text_file("a.txt", b"text");
    let unread = FileRecord { path: "b.txt".to_string(), size: Some(4), content: None };
    let binary = text_file("c.txt", &[0xff, 0xfe, 0x00]);
    let truncated = text_file("d.txt", &[0xc3]);
    assert_eq!(compare_text_files(&good, &unread), None);
    assert_eq!(compare_text_files(&unread, &good), None);
    assert_eq!(compare_text_files(&good, &binary), None);
    assert_eq!(compare_text_files(&binary, &good), None);
    assert_eq!(compare_text_files(&good, &truncated), None);
    assert_eq!(compare_text_files(&unread, &unread), None);
}

#[test]
fn test_identical_images_in_memory() {
    let img1 = create_test_image([255, 0, 0]);
    let img2 = create_test_image([255, 0, 0]);
    let distance = compare_images(&img1, &img2);
    assert_eq!(distance, 0);
}

#[test]
fn different_images_are_apart() {
    let a = halves(0, 255);
    let b = halves(255, 0);
    let there = compare_images(&a, &b);
    let back = compare_images(&b, &a);
    assert!(there > 0);
    assert!(there <= 64);
    assert_eq!(there, back);
    assert_eq!(compare_images(&a, &a), 0);
}

#[test]
fn image_needs_a_byte_for_each_pixel() {
    assert!(LumaImage::new(2, 3, vec![0; 6]).is_some());
    assert!(LumaImage::new(2, 3, vec![0; 5]).is_none());
    assert!(LumaImage::new(2, 3, vec![0; 7]).is_none());
    assert!(LumaImage::new(0, 3, vec![]).is_none());
    assert!(LumaImage::new(3, 0, vec![]).is_none());
    let image = LumaImage::new(4, 2, vec![9; 8]).unwrap();
    assert_eq!(image.width(), 4);
    assert_eq!(image.height(), 2);
}

#[test]
fn hamming_distance_counts_differing_bits() {
    assert_eq!(hamming_distance(&[], &[]), 0);
    assert_eq!(hamming_distance(&[0x00], &[0xff]), 8);
    assert_eq!(hamming_distance(&[0b1010_1010], &[0b0101_0101]), 8);
    assert_eq!(hamming_distance(&[0x0f, 0x01], &[0x00, 0x03]), 5);
    assert_eq!(hamming_distance(&[1, 2, 3], &[1, 2, 3]), 0);
    assert_eq!(hamming_distance(&[0x80, 0xff], &[0x00]), 1);
    assert_eq!(hamming_distance(&[0x12, 0x34], &[0x43, 0x21]), hamming_distance(&[0x43, 0x21], &[0x12, 0x34]));
}

#[test]
fn mode_goes_by_the_extension() {
    assert_eq!(comparison_mode("a.txt"), Some(ComparisonMode::Text));
    assert_eq!(comparison_mode("dir/a.jpg"), Some(ComparisonMode::Image));
    assert_eq!(comparison_mode("a.jpeg"), Some(ComparisonMode::Image));
    assert_eq!(comparison_mode("a.png"), Some(ComparisonMode::Image));
    assert_eq!(comparison_mode("a.rs"), None);
    assert_eq!(comparison_mode("a.TXT"), None);
    assert_eq!(comparison_mode("txt"), None);
    assert_eq!(comparison_mode(""), None);
}

#[test]
fn plan_pairs_members_of_one_kind() {
    let group = vec![
        "a.txt".to_string(),
        "b.png".to_string(),
        "c.txt".to_string(),
        "d.rs".to_string(),
        "e.jpg".to_string(),
        "f.txt".to_string(),
    ];
    let plan = analyze_similar_content(&group);
    assert_eq!(
        plan,
        vec![
            Comparison { first: 0, second: 2, mode: ComparisonMode::Text },
            Comparison { first: 0, second: 5, mode: ComparisonMode::Text },
            Comparison { first: 1, second: 4, mode: ComparisonMode::Image },
            Comparison { first: 2, second: 5, mode: ComparisonMode::Text },
        ]
    );
}

#[test]
fn plan_never_mixes_text_and_image() {
    let group = vec!["a.txt".to_string(), "b.png".to_string()];
    assert!(analyze_similar_content(&group).is_empty());
    assert!(analyze_similar_content(&Vec::new()).is_empty());
    assert!(analyze_similar_content(&vec!["only.txt".to_string()]).is_empty());
}
