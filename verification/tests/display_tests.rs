use desktidy::display::DisplayFormatter;
use desktidy::types::{FileCategory, FileEntry, FilePath};

#[test]
fn rows_follow_the_category_order() {
    let entries = vec![
        FileEntry { path: FilePath::new("/d", "song.mp3"), category: FileCategory::Audio },
        FileEntry { path: FilePath::new("/d", "b.pdf"), category: FileCategory::PDFs },
        FileEntry { path: FilePath::new("/d/PDFs", "a.pdf"), category: FileCategory::PDFs },
    ];
    let rows = DisplayFormatter::category_rows(&entries, "/d");
    assert_eq!(rows.len(), 2);
    assert_eq!(rows[0].category, FileCategory::PDFs);
    assert_eq!(rows[0].count, 2);
    assert_eq!(rows[0].files, vec!["b.pdf".to_string(), "/d/PDFs/a.pdf".to_string()]);
    assert_eq!(rows[1].category, FileCategory::Audio);
    assert_eq!(rows[1].files, vec!["song.mp3".to_string()]);
    assert_eq!(DisplayFormatter::category_rows(&vec![], "/d").len(), 0);
}

#[test]
fn labels_and_shown_paths() {
    assert_eq!(DisplayFormatter::action_label(true), "Proposed Actions");
    assert_eq!(DisplayFormatter::action_label(false), "Actions Taken");
    assert_eq!(DisplayFormatter::shown_path(&FilePath::new("/d", "x.txt"), "/d"), "x.txt");
    assert_eq!(DisplayFormatter::shown_path(&FilePath::new("/e", "x.txt"), "/d"), "/e/x.txt");
}
