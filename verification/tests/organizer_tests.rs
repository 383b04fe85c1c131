use desktidy::organizer::{describe, in_skip_set, join, Job, Organizer};
use desktidy::path_resolver::{decimal_string, numbered_file_name, with_clean_stem};
use desktidy::snapshot::DirSnapshot;
use desktidy::duplicate_finder::{DuplicateFinder, ScannedFile};
use desktidy::file_analyzer::{DirItem, FileAnalyzer};
use desktidy::types::{DuplicateGroup, FileCategory, FileEntry, FilePath};

const ROOT: &str = "/tmp/desk";

fn snapshot_of(names: &[&str]) -> DirSnapshot {
    let mut fs = DirSnapshot::new();
    for n in names {
        fs.add(FilePath::new(ROOT, n));
    }
    fs
}

fn entry(name: &str, category: FileCategory) -> FileEntry {
    FileEntry { path: FilePath::new(ROOT, name), category }
}

fn under(folder: &str, name: &str) -> FilePath {
    FilePath::new(&format!("{}/{}", ROOT, folder), name)
}

#[test]
fn test_clean_filename() {
    let organizer = Organizer::new(ROOT.to_string(), false);

    let path = FilePath::new("/path/to", "file_1.txt");
    let cleaned = organizer.clean_filename(&path);
    assert_eq!(cleaned.name, "file.txt");
    assert_eq!(cleaned.dir, "/path/to");

    let path2 = FilePath::new("/path/to", "file.txt");
    let cleaned2 = organizer.clean_filename(&path2);
    assert_eq!(cleaned2.name, "file.txt");
}

#[test]
fn test_get_unique_path() {
    let organizer = Organizer::new(ROOT.to_string(), false);
    let fs = snapshot_of(&["test.txt"]);

    let unique_path = organizer.get_unique_path(&FilePath::new(ROOT, "test.txt"), &fs);
    assert_eq!(unique_path.name, "test (1).txt");
}

#[test]
fn test_get_unique_path_multiple_conflicts() {
    let organizer = Organizer::new(ROOT.to_string(), false);
    let fs = snapshot_of(&["test.txt", "test (1).txt", "test (2).txt"]);

    let unique_path = organizer.get_unique_path(&FilePath::new(ROOT, "test.txt"), &fs);
    assert_eq!(unique_path.name, "test (3).txt");
}

#[test]
fn test_clean_filename_with_multiple_numbers() {
    let organizer = Organizer::new(ROOT.to_string(), false);

    let cleaned = organizer.clean_filename(&FilePath::new("/path/to", "file_123.txt"));
    assert_eq!(cleaned.name, "file.txt");
}

#[test]
fn test_clean_filename_no_extension() {
    let organizer = Organizer::new(ROOT.to_string(), false);

    let cleaned = organizer.clean_filename(&FilePath::new("/path/to", "file_1"));
    assert_eq!(cleaned.name, "file");
    assert_eq!(cleaned.dir, "/path/to");
}

#[test]
fn test_create_category_folders() {
    let organizer = Organizer::new(ROOT.to_string(), false);
    let mut fs = DirSnapshot::new();

    let categories = vec!["Documents", "Images", "Videos"];
    let made = organizer.create_category_folders(&categories, &mut fs);

    assert_eq!(made.actions.len(), 3);
    assert!(fs.contains(&FilePath::new(ROOT, "Documents")));
    assert!(fs.contains(&FilePath::new(ROOT, "Images")));
    assert!(fs.contains(&FilePath::new(ROOT, "Videos")));
    assert_eq!(made.actions[0], "Created category folder: Documents");
    assert_eq!(made.created.len(), 3);
    assert_eq!(made.created[2].name, "Videos");
}

#[test]
fn test_create_existing_category_folders() {
    let organizer = Organizer::new(ROOT.to_string(), false);
    let mut fs = snapshot_of(&["Documents"]);

    let categories = vec!["Documents"];
    let made = organizer.create_category_folders(&categories, &mut fs);

    assert_eq!(made.actions.len(), 0);
    assert_eq!(made.created.len(), 0);
}

#[test]
fn test_organize_files_dry_run() {
    let mut fs = snapshot_of(&["doc.docx"]);
    let organizer = Organizer::new(ROOT.to_string(), false);
    let summary = organizer.organize_files(&vec![entry("doc.docx", FileCategory::Documents)], &vec![], true, &mut fs);

    assert!(fs.contains(&FilePath::new(ROOT, "doc.docx")));
    assert!(!fs.contains(&FilePath::new(ROOT, "Documents")));
    assert_eq!(summary.actions_taken.len(), 1);
    assert!(summary.actions_taken[0].contains("Would move"));
    assert_eq!(summary.moves.len(), 0);
    assert_eq!(summary.created_folders.len(), 0);
    assert_eq!(fs.paths.len(), 1);
}

#[test]
fn test_organize_files_actual_move() {
    let mut fs = snapshot_of(&["doc.docx", "Documents"]);
    let organizer = Organizer::new(ROOT.to_string(), false);
    let summary = organizer.organize_files(&vec![entry("doc.docx", FileCategory::Documents)], &vec![], false, &mut fs);

    assert!(!fs.contains(&FilePath::new(ROOT, "doc.docx")));
    assert!(fs.contains(&under("Documents", "doc.docx")));
    assert_eq!(summary.actions_taken.len(), 1);
    assert!(summary.actions_taken[0].contains("Moved"));
    assert_eq!(summary.actions_taken[0], "Moved doc.docx to Documents folder");
    assert_eq!(summary.moves.len(), 1);
    assert_eq!(summary.moves[0].from.name, "doc.docx");
    assert_eq!(summary.moves[0].to.dir, "/tmp/desk/Documents");
}

#[test]
fn test_organize_files_skip_duplicates() {
    let mut fs = snapshot_of(&["original.txt", "duplicate.txt", "Documents"]);
    let entry1 = entry("original.txt", FileCategory::Documents);
    let entry2 = entry("duplicate.txt", FileCategory::Documents);
    let dup_group = DuplicateGroup { checksum_key: "test_key".to_string(), files: vec![entry1.clone(), entry2.clone()] };

    let organizer = Organizer::new(ROOT.to_string(), false);
    let summary = organizer.organize_files(&vec![entry1, entry2], &vec![dup_group], false, &mut fs);

    assert!(fs.contains(&under("Documents", "original.txt")));
    assert!(fs.contains(&FilePath::new(ROOT, "Duplicates")));
    assert!(fs.contains(&under("Duplicates", "duplicate.txt")));
    assert!(!fs.contains(&under("Documents", "duplicate.txt")));
    assert_eq!(
        summary.actions_taken,
        vec![
            "Moved original.txt to Documents folder".to_string(),
            "Moved duplicate duplicate.txt to Duplicates folder (identical to original.txt)".to_string(),
        ]
    );
    assert_eq!(summary.created_folders.len(), 1);
    assert_eq!(summary.duplicates_found.len(), 1);
    assert_eq!(summary.duplicates_found[0].checksum_key, "test_key");
}

#[test]
fn test_organization_dry_run() {
    let listing = vec![
        DirItem { name: "doc.docx".to_string(), is_dir: false },
        DirItem { name: "slide.pptx".to_string(), is_dir: false },
    ];
    let analysis = FileAnalyzer::new(ROOT.to_string(), false).analyze(&listing);
    let mut all_entries = Vec::new();
    for c in analysis.categories.iter() {
        all_entries.extend(c.files.clone());
    }
    let mut fs = snapshot_of(&["doc.docx", "slide.pptx"]);
    let organizer = Organizer::new(ROOT.to_string(), false);
    let summary = organizer.organize_files(&all_entries, &vec![], true, &mut fs);

    assert!(fs.contains(&FilePath::new(ROOT, "doc.docx")));
    assert!(fs.contains(&FilePath::new(ROOT, "slide.pptx")));
    assert_eq!(summary.actions_taken.len(), 2);
    assert!(summary.actions_taken[0].contains("Would move"));
}

#[test]
fn test_organization_actual_move() {
    let listing = vec![
        DirItem { name: "doc.docx".to_string(), is_dir: false },
        DirItem { name: "slide.pptx".to_string(), is_dir: false },
    ];
    let analysis = FileAnalyzer::new(ROOT.to_string(), false).analyze(&listing);
    let mut all_entries = Vec::new();
    for c in analysis.categories.iter() {
        all_entries.extend(c.files.clone());
    }
    let mut fs = snapshot_of(&["doc.docx", "slide.pptx"]);
    let organizer = Organizer::new(ROOT.to_string(), false);
    let categories: Vec<&str> = analysis.categories.iter().map(|c| c.category.as_str()).collect();
    organizer.create_category_folders(&categories, &mut fs);
    let summary = organizer.organize_files(&all_entries, &vec![], false, &mut fs);

    assert!(fs.contains(&under("Documents", "doc.docx")));
    assert!(fs.contains(&under("Presentations", "slide.pptx")));
    assert!(!fs.contains(&FilePath::new(ROOT, "doc.docx")));
    assert!(!fs.contains(&FilePath::new(ROOT, "slide.pptx")));
    assert_eq!(summary.actions_taken.len(), 2);
}

#[test]
fn test_duplicate_organization() {
    let content = b"duplicate content";
    let files = vec![
        ScannedFile { entry: entry("original.pdf", FileCategory::PDFs), content: Some(content.to_vec()), created: Some(1) },
        ScannedFile { entry: entry("duplicate.pdf", FileCategory::PDFs), content: Some(content.to_vec()), created: Some(2) },
    ];
    let all_entries: Vec<FileEntry> = files.iter().map(|f| f.entry.clone()).collect();
    let duplicates = DuplicateFinder::new(false).find_duplicates(&files);
    let mut fs = snapshot_of(&["original.pdf", "duplicate.pdf"]);
    let organizer = Organizer::new(ROOT.to_string(), false);
    organizer.create_category_folders(&vec!["PDFs"], &mut fs);
    let _summary = organizer.organize_files(&all_entries, &duplicates, false, &mut fs);

    assert!(fs.contains(&FilePath::new(ROOT, "Duplicates")));
}

#[test]
fn test_filename_conflict_handling() {
    let mut fs = snapshot_of(&["Documents", "doc.docx"]);
    fs.add(under("Documents", "doc.docx"));
    let organizer = Organizer::new(ROOT.to_string(), false);
    let _summary = organizer.organize_files(&vec![entry("doc.docx", FileCategory::Documents)], &vec![], false, &mut fs);

    assert!(fs.contains(&under("Documents", "doc.docx")));
    assert!(fs.contains(&under("Documents", "doc (1).docx")));
}

#[test]
fn identical_pdfs_end_in_category_and_duplicates_folder() {
    let files = vec![
        ScannedFile { entry: entry("b.pdf", FileCategory::PDFs), content: Some(b"same".to_vec()), created: Some(20) },
        ScannedFile { entry: entry("a.pdf", FileCategory::PDFs), content: Some(b"same".to_vec()), created: Some(10) },
    ];
    let all_entries: Vec<FileEntry> = files.iter().map(|f| f.entry.clone()).collect();
    let duplicates = DuplicateFinder::new(false).find_duplicates(&files);
    assert_eq!(duplicates.len(), 1);
    assert_eq!(duplicates[0].files.len(), 2);
    let mut fs = snapshot_of(&["a.pdf", "b.pdf"]);
    let organizer = Organizer::new(ROOT.to_string(), false);
    let summary = organizer.organize_files(&all_entries, &duplicates, false, &mut fs);

    assert!(fs.contains(&under("PDFs", "a.pdf")));
    assert!(fs.contains(&under("Duplicates", "b.pdf")));
    assert!(!fs.contains(&FilePath::new(ROOT, "a.pdf")));
    assert!(!fs.contains(&FilePath::new(ROOT, "b.pdf")));
    assert_eq!(summary.moves.len(), 2);
}

#[test]
fn cleaned_name_that_exists_gets_a_number() {
    let organizer = Organizer::new(ROOT.to_string(), false);
    let mut fs = DirSnapshot::new();
    fs.add(under("Documents", "doc.txt"));
    let unique = organizer.get_unique_path(&under("Documents", "doc_1.txt"), &fs);
    assert_eq!(unique.name, "doc (1).txt");
    assert_eq!(unique.dir, "/tmp/desk/Documents");
}

#[test]
fn second_pass_over_settled_files_does_nothing() {
    let mut fs = snapshot_of(&["a.pdf", "b.mp3"]);
    let organizer = Organizer::new(ROOT.to_string(), false);
    let entries = vec![entry("a.pdf", FileCategory::PDFs), entry("b.mp3", FileCategory::Audio)];
    let first = organizer.organize_files(&entries, &vec![], false, &mut fs);
    assert_eq!(first.actions_taken.len(), 2);

    let settled = vec![
        FileEntry { path: under("PDFs", "a.pdf"), category: FileCategory::PDFs },
        FileEntry { path: under("Audio", "b.mp3"), category: FileCategory::Audio },
    ];
    let again = organizer.organize_files(&settled, &vec![], false, &mut fs);
    assert_eq!(again.actions_taken.len(), 0);
    assert_eq!(again.moves.len(), 0);

    let rescan = organizer.organize_files(&vec![], &vec![], false, &mut fs);
    assert_eq!(rescan.actions_taken.len(), 0);
}

#[test]
fn moves_of_one_pass_have_different_destinations() {
    let mut fs = snapshot_of(&["x_1.pdf", "x_2.pdf", "x.pdf"]);
    let organizer = Organizer::new(ROOT.to_string(), false);
    let entries = vec![
        entry("x_1.pdf", FileCategory::PDFs),
        entry("x_2.pdf", FileCategory::PDFs),
        entry("x.pdf", FileCategory::PDFs),
    ];
    let summary = organizer.organize_files(&entries, &vec![], false, &mut fs);
    let dests: Vec<String> = summary.moves.iter().map(|m| m.to.name.clone()).collect();
    assert_eq!(dests, vec!["x.pdf", "x (1).pdf", "x (2).pdf"]);
}

#[test]
fn dry_run_names_destinations_as_the_snapshot_stands() {
    let mut fs = snapshot_of(&["x_1.pdf", "x_2.pdf"]);
    let organizer = Organizer::new(ROOT.to_string(), false);
    let entries = vec![entry("x_1.pdf", FileCategory::PDFs), entry("x_2.pdf", FileCategory::PDFs)];
    let summary = organizer.organize_files(&entries, &vec![], true, &mut fs);
    assert_eq!(
        summary.actions_taken,
        vec!["Would move x_1.pdf to PDFs folder".to_string(), "Would move x_2.pdf to PDFs folder".to_string()]
    );
    assert_eq!(summary.moves.len(), 0);
    assert_eq!(fs.paths.len(), 2);
}

#[test]
fn vanished_source_is_left_out_of_the_log() {
    let mut fs = snapshot_of(&["here.pdf"]);
    let organizer = Organizer::new(ROOT.to_string(), false);
    let entries = vec![entry("gone.pdf", FileCategory::PDFs), entry("here.pdf", FileCategory::PDFs)];
    let summary = organizer.organize_files(&entries, &vec![], false, &mut fs);
    assert_eq!(summary.actions_taken, vec!["Moved here.pdf to PDFs folder".to_string()]);
    assert_eq!(summary.moves.len(), 1);
}

#[test]
fn dry_run_with_duplicates_says_what_it_would_do() {
    let e1 = entry("keep.jpg", FileCategory::Images);
    let e2 = entry("copy.jpg", FileCategory::Images);
    let group = DuplicateGroup { checksum_key: "k".to_string(), files: vec![e1.clone(), e2.clone()] };
    let mut fs = snapshot_of(&["keep.jpg", "copy.jpg"]);
    let organizer = Organizer::new(ROOT.to_string(), false);
    let summary = organizer.organize_files(&vec![e1, e2], &vec![group], true, &mut fs);
    assert_eq!(
        summary.actions_taken,
        vec![
            "Would move keep.jpg to Images folder".to_string(),
            "Would move duplicate copy.jpg to Duplicates folder (identical to keep.jpg)".to_string(),
        ]
    );
    assert!(!fs.contains(&FilePath::new(ROOT, "Duplicates")));
}

#[test]
fn numbers_and_names() {
    assert_eq!(decimal_string(0), "0");
    assert_eq!(decimal_string(7), "7");
    assert_eq!(decimal_string(10), "10");
    assert_eq!(decimal_string(12345), "12345");
    assert_eq!(decimal_string(u128::MAX), "340282366920938463463374607431768211455");
    assert_eq!(numbered_file_name("test.txt", 1), "test (1).txt");
    assert_eq!(numbered_file_name("noext", 12), "noext (12)");
    assert_eq!(numbered_file_name(".hidden", 2), ".hidden (2)");
    assert_eq!(numbered_file_name("a.tar.gz", 3), "a.tar (3).gz");
    assert_eq!(numbered_file_name("dot.", 4), "dot (4)");
    assert_eq!(join("/a", "b"), "/a/b");
}

#[test]
fn clean_stem_is_joined_with_the_rest_of_the_name() {
    let p = FilePath::new("/d", "file_1.txt");
    assert_eq!(with_clean_stem(&p, 6, Some("file".to_string())).name, "file.txt");
    assert_eq!(with_clean_stem(&p, 6, None).name, "file_1.txt");
    let organizer = Organizer::new(ROOT.to_string(), false);
    assert_eq!(organizer.clean_filename(&FilePath::new("/d", "a_1_22.b_3.txt")).name, "a_1_22.b.txt");
    assert_eq!(organizer.clean_filename(&FilePath::new("/d", "a_x1.txt")).name, "a_x1.txt");
    assert_eq!(organizer.clean_filename(&FilePath::new("/d", ".hidden_7")).name, ".hidden");
    assert_eq!(organizer.clean_filename(&FilePath::new("/d", "file1.txt")).name, "file1.txt");
    assert_eq!(organizer.clean_filename(&FilePath::new("/d", "file_1a.txt")).name, "file_1a.txt");
    assert_eq!(organizer.clean_filename(&FilePath::new("/d", "file_.txt")).name, "file_.txt");
    assert_eq!(organizer.clean_filename(&FilePath::new("/d", "plain")).name, "plain");
    assert_eq!(with_clean_stem(&FilePath::new("/d", "file_1"), 6, Some("file".to_string())).name, "file");
}

#[test]
fn skip_set_holds_all_but_the_first_of_each_group() {
    let e1 = entry("keep.jpg", FileCategory::Images);
    let e2 = entry("copy.jpg", FileCategory::Images);
    let groups = vec![DuplicateGroup { checksum_key: "k".to_string(), files: vec![e1.clone(), e2.clone()] }];
    assert!(!in_skip_set(&groups, &e1.path));
    assert!(in_skip_set(&groups, &e2.path));
    let job = Job { source: e2.path.clone(), folder: "Duplicates".to_string(), canonical: Some("keep.jpg".to_string()) };
    assert_eq!(describe(&job, false), "Moved duplicate copy.jpg to Duplicates folder (identical to keep.jpg)");
    let plain = Job { source: e1.path.clone(), folder: "Images".to_string(), canonical: None };
    assert_eq!(describe(&plain, true), "Would move keep.jpg to Images folder");
}

#[test]
fn numbers_go_past_nine() {
    let organizer = Organizer::new(ROOT.to_string(), false);
    let mut fs = snapshot_of(&["test.txt"]);
    for k in 1..=10 {
        fs.add(FilePath::new(ROOT, &format!("test ({}).txt", k)));
    }
    let unique_path = organizer.get_unique_path(&FilePath::new(ROOT, "test.txt"), &fs);
    assert_eq!(unique_path.name, "test (11).txt");
    assert!(!fs.contains(&unique_path));
}

#[test]
fn free_path_is_returned_as_it_is() {
    let organizer = Organizer::new(ROOT.to_string(), false);
    let fs = snapshot_of(&["other.txt"]);
    let unique_path = organizer.get_unique_path(&FilePath::new(ROOT, "test.txt"), &fs);
    assert_eq!(unique_path.name, "test.txt");
    assert_eq!(unique_path.dir, ROOT);
}

#[test]
fn snapshot_adds_removes_and_copies() {
    let mut fs = snapshot_of(&["a", "b", "a"]);
    assert!(fs.contains(&FilePath::new(ROOT, "a")));
    fs.remove(&FilePath::new(ROOT, "a"));
    assert!(!fs.contains(&FilePath::new(ROOT, "a")));
    assert!(fs.contains(&FilePath::new(ROOT, "b")));
    assert!(!fs.contains(&FilePath::new("/elsewhere", "b")));
    let copy = fs.copy();
    assert!(copy.contains(&FilePath::new(ROOT, "b")));
    assert!(!DirSnapshot::new().contains(&FilePath::new(ROOT, "b")));
    assert!(FilePath::new(ROOT, "b").same_as(&FilePath::new(ROOT, "b")));
    assert!(!FilePath::new(ROOT, "b").same_as(&FilePath::new(ROOT, "c")));
}

#[test]
fn category_folders_named_twice_are_made_once() {
    let organizer = Organizer::new(ROOT.to_string(), false);
    let mut fs = DirSnapshot::new();
    let made = organizer.create_category_folders(&vec!["PDFs", "PDFs"], &mut fs);
    assert_eq!(made.actions, vec!["Created category folder: PDFs".to_string()]);
    assert_eq!(made.created.len(), 1);
}

#[test]
fn file_already_in_its_folder_is_left_alone() {
    let mut fs = DirSnapshot::new();
    fs.add(under("PDFs", "a.pdf"));
    let organizer = Organizer::new(ROOT.to_string(), false);
    let entries = vec![FileEntry { path: under("PDFs", "a.pdf"), category: FileCategory::PDFs }];
    let summary = organizer.organize_files(&entries, &vec![], false, &mut fs);
    assert_eq!(summary.actions_taken.len(), 0);
    assert_eq!(summary.moves.len(), 0);
    assert!(fs.contains(&under("PDFs", "a.pdf")));
}

#[test]
fn move_in_the_snapshot() {
    let organizer = Organizer::new(ROOT.to_string(), false);
    let mut fs = snapshot_of(&["a.pdf"]);
    let parent = FilePath::new(ROOT, "PDFs");
    assert!(organizer.safe_move(&mut fs, &FilePath::new(ROOT, "a.pdf"), &under("PDFs", "a.pdf"), &parent));
    assert!(fs.contains(&under("PDFs", "a.pdf")));
    assert!(fs.contains(&parent));
    assert!(!fs.contains(&FilePath::new(ROOT, "a.pdf")));
    assert!(!organizer.safe_move(&mut fs, &FilePath::new(ROOT, "gone.pdf"), &under("PDFs", "gone.pdf"), &parent));
    assert!(!fs.contains(&under("PDFs", "gone.pdf")));
    fs.add(FilePath::new(ROOT, "b.pdf"));
    assert!(!organizer.safe_move(&mut fs, &FilePath::new(ROOT, "b.pdf"), &under("PDFs", "a.pdf"), &parent));
    assert!(fs.contains(&FilePath::new(ROOT, "b.pdf")));
}
