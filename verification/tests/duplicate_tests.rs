use desktidy::duplicate_finder::{bytes_equal, ContentIdentity, DuplicateFinder, ScannedFile};
use desktidy::types::{FileCategory, FileEntry, FilePath};

fn scanned(name: &str, content: &[u8], created: u64) -> ScannedFile {
    ScannedFile {
        entry: FileEntry { path: FilePath::new("/tmp/desk", name), category: FileCategory::Documents },
        content: Some(content.to_vec()),
        created: Some(created),
    }
}

fn names(files: &Vec<FileEntry>) -> Vec<String> {
    files.iter().map(|e| e.path.name.clone()).collect()
}

#[test]
fn test_identical_files() {
    assert!(DuplicateFinder::are_files_identical(b"test content", b"test content"));
}

#[test]
fn test_different_files() {
    assert!(!DuplicateFinder::are_files_identical(b"content1", b"content2"));
}

#[test]
fn test_find_duplicates() {
    let files = vec![scanned("file1.txt", b"duplicate content", 1), scanned("file2.txt", b"duplicate content", 2)];

    let finder = DuplicateFinder::new(false);
    let duplicates = finder.find_duplicates(&files);

    assert_eq!(duplicates.len(), 1);
    assert_eq!(duplicates[0].files.len(), 2);
}

#[test]
fn test_no_duplicates() {
    let files = vec![scanned("file1.txt", b"content1", 1), scanned("file2.txt", b"content2", 2)];

    let finder = DuplicateFinder::new(false);
    let duplicates = finder.find_duplicates(&files);

    assert_eq!(duplicates.len(), 0);
}

#[test]
fn test_multiple_duplicate_groups() {
    let files = vec![
        scanned("file1.txt", b"group1", 1),
        scanned("file2.txt", b"group1", 2),
        scanned("file3.txt", b"group2", 3),
        scanned("file4.txt", b"group2", 4),
        scanned("file5.txt", b"unique", 5),
    ];

    let finder = DuplicateFinder::new(false);
    let duplicates = finder.find_duplicates(&files);

    assert_eq!(duplicates.len(), 2);
    assert_eq!(duplicates[0].files.len(), 2);
    assert_eq!(duplicates[1].files.len(), 2);
}

#[test]
fn test_empty_file_duplicates() {
    let files = vec![scanned("empty1.txt", b"", 1), scanned("empty2.txt", b"", 2)];

    let finder = DuplicateFinder::new(false);
    let duplicates = finder.find_duplicates(&files);

    assert_eq!(duplicates.len(), 1);
    assert_eq!(duplicates[0].files.len(), 2);
}

#[test]
fn test_size_mismatch_not_duplicates() {
    let files = vec![scanned("file1.txt", b"short", 1), scanned("file2.txt", b"this is a much longer content", 2)];

    let finder = DuplicateFinder::new(false);
    let duplicates = finder.find_duplicates(&files);

    assert_eq!(duplicates.len(), 0);
}

#[test]
fn test_single_file_not_duplicate() {
    let files = vec![scanned("file1.txt", b"unique content", 1)];

    let finder = DuplicateFinder::new(false);
    let duplicates = finder.find_duplicates(&files);

    assert_eq!(duplicates.len(), 0);
}

#[test]
fn test_duplicate_detection_workflow() {
    let content = b"identical content for testing";
    let files = vec![
        scanned("file1.pdf", content, 1),
        scanned("file2.pdf", content, 2),
        scanned("file3.pdf", b"different content", 3),
    ];

    let finder = DuplicateFinder::new(false);
    let duplicates = finder.find_duplicates(&files);

    assert_eq!(duplicates.len(), 1);
    assert_eq!(duplicates[0].files.len(), 2);
}

#[test]
fn test_multiple_duplicates_in_group() {
    let content = b"triple duplicate";
    let mut files = Vec::new();
    for i in 1..=3 {
        files.push(scanned(&format!("file{}.pdf", i), content, i));
    }

    let finder = DuplicateFinder::new(false);
    let duplicates = finder.find_duplicates(&files);

    assert_eq!(duplicates.len(), 1);
    assert_eq!(duplicates[0].files.len(), 3);
}

#[test]
fn test_large_file_duplicate_detection() {
    let large_content = vec![42u8; 1024 * 1024];
    let files = vec![scanned("large1.pdf", &large_content, 1), scanned("large2.pdf", &large_content, 2)];

    let finder = DuplicateFinder::new(false);
    let duplicates = finder.find_duplicates(&files);

    assert_eq!(duplicates.len(), 1);
    assert_eq!(duplicates[0].files.len(), 2);
}

#[test]
fn digests_are_those_of_the_bytes() {
    let (md5, sha256) = DuplicateFinder::calculate_checksums(b"abc");
    assert_eq!(md5, "900150983cd24fb0d6963f7d28e17f72");
    assert_eq!(sha256, "ba7816bf8f01cfea414140de5dae2223b00361a396177a9cb410ff61f20015ad");
    let (md5, sha256) = DuplicateFinder::calculate_checksums(b"");
    assert_eq!(md5, "d41d8cd98f00b204e9800998ecf8427e");
    assert_eq!(sha256, "e3b0c44298fc1c149afbf4c8996fb92427ae41e4649b934ca495991b7852b855");
}

#[test]
fn fingerprint_holds_length_and_both_digests() {
    let id: ContentIdentity = DuplicateFinder::fingerprint(b"abc");
    assert_eq!(id.size, 3);
    assert_eq!(id.md5, "900150983cd24fb0d6963f7d28e17f72");
    assert_eq!(
        id.key(),
        "3_900150983cd24fb0d6963f7d28e17f72_ba7816bf8f01cfea414140de5dae2223b00361a396177a9cb410ff61f20015ad"
    );
    let other = DuplicateFinder::fingerprint(b"abd");
    assert!(!id.matches(&other));
    assert!(id.matches(&DuplicateFinder::fingerprint(b"abc")));
}

#[test]
fn group_key_is_made_of_length_and_both_digests() {
    let files = vec![scanned("a.pdf", b"abc", 1), scanned("b.pdf", b"abc", 2)];
    let duplicates = DuplicateFinder::new(false).find_duplicates(&files);
    assert_eq!(
        duplicates[0].checksum_key,
        "3_900150983cd24fb0d6963f7d28e17f72_ba7816bf8f01cfea414140de5dae2223b00361a396177a9cb410ff61f20015ad"
    );
    let empty = vec![scanned("a.pdf", b"", 1), scanned("b.pdf", b"", 2)];
    let duplicates = DuplicateFinder::new(false).find_duplicates(&empty);
    assert_eq!(
        duplicates[0].checksum_key,
        "0_d41d8cd98f00b204e9800998ecf8427e_e3b0c44298fc1c149afbf4c8996fb92427ae41e4649b934ca495991b7852b855"
    );
}

#[test]
fn oldest_member_comes_first() {
    let files = vec![
        scanned("new.pdf", b"same", 30),
        scanned("old.pdf", b"same", 10),
        scanned("mid.pdf", b"same", 20),
        scanned("tie.pdf", b"same", 10),
    ];
    let duplicates = DuplicateFinder::new(false).find_duplicates(&files);
    assert_eq!(duplicates.len(), 1);
    assert_eq!(names(&duplicates[0].files), vec!["old.pdf", "tie.pdf", "mid.pdf", "new.pdf"]);
}

#[test]
fn file_without_creation_time_sorts_last() {
    let mut unknown = scanned("unknown.pdf", b"same", 0);
    unknown.created = None;
    let mut unknown2 = scanned("unknown2.pdf", b"same", 0);
    unknown2.created = None;
    let files = vec![unknown, scanned("late.pdf", b"same", u64::MAX), unknown2, scanned("early.pdf", b"same", 5)];
    let duplicates = DuplicateFinder::new(false).find_duplicates(&files);
    assert_eq!(names(&duplicates[0].files), vec!["early.pdf", "late.pdf", "unknown.pdf", "unknown2.pdf"]);
}

#[test]
fn unreadable_file_is_in_no_group() {
    let mut broken = scanned("broken.pdf", b"", 1);
    broken.content = None;
    let mut broken2 = scanned("broken2.pdf", b"", 1);
    broken2.content = None;
    let files = vec![broken, scanned("a.pdf", b"x", 2), broken2, scanned("b.pdf", b"x", 3)];
    let duplicates = DuplicateFinder::new(false).find_duplicates(&files);
    assert_eq!(duplicates.len(), 1);
    assert_eq!(names(&duplicates[0].files), vec!["a.pdf", "b.pdf"]);
}

#[test]
fn equal_size_different_content_gives_no_group() {
    let files = vec![scanned("a.pdf", b"abcd", 1), scanned("b.pdf", b"abce", 2)];
    assert_eq!(DuplicateFinder::new(false).find_duplicates(&files).len(), 0);
    assert!(!bytes_equal(b"abcd", b"abce"));
    assert!(bytes_equal(b"abcd", b"abcd"));
    assert!(!bytes_equal(b"abcd", b"abc"));
}

#[test]
fn groups_come_in_order_of_first_member_as_places() {
    let files = vec![
        scanned("x1", b"x", 9),
        scanned("y1", b"y", 1),
        scanned("x2", b"x", 3),
        scanned("z", b"z", 1),
        scanned("y2", b"y", 1),
    ];
    let idx = DuplicateFinder::duplicate_indices(&files);
    assert_eq!(idx, vec![vec![2usize, 0], vec![1, 4]]);
}
