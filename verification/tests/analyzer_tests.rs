use desktidy::file_analyzer::{category_for_lowercase, extension, find_last_dot, DirItem, FileAnalyzer};
use desktidy::types::FileCategory;

fn file(name: &str) -> DirItem {
    DirItem { name: name.to_string(), is_dir: false }
}

fn folder(name: &str) -> DirItem {
    DirItem { name: name.to_string(), is_dir: true }
}

#[test]
fn test_get_extension_category() {
    assert_eq!(FileAnalyzer::get_extension_category("pdf"), Some(FileCategory::PDFs));
    assert_eq!(FileAnalyzer::get_extension_category("docx"), Some(FileCategory::Documents));
    assert_eq!(FileAnalyzer::get_extension_category("mp4"), Some(FileCategory::Videos));
    assert_eq!(FileAnalyzer::get_extension_category("unknown"), None);
}

#[test]
fn test_analyze_empty_folder() {
    let analyzer = FileAnalyzer::new("/tmp/desk".to_string(), false);
    let result = analyzer.analyze(&Vec::new());

    assert_eq!(result.total_files, 0);
    assert_eq!(result.supported_files, 0);
    assert!(result.categories.is_empty());
}

#[test]
fn test_analyze_with_files() {
    let analyzer = FileAnalyzer::new("/tmp/desk".to_string(), false);
    let result = analyzer.analyze(&vec![file("test.pdf"), file("test.docx")]);

    assert_eq!(result.total_files, 2);
    assert_eq!(result.supported_files, 2);
    assert_eq!(result.categories.len(), 2);
}

#[test]
fn test_all_office_extensions() {
    assert_eq!(FileAnalyzer::get_extension_category("ppt"), Some(FileCategory::Presentations));
    assert_eq!(FileAnalyzer::get_extension_category("pptx"), Some(FileCategory::Presentations));
    assert_eq!(FileAnalyzer::get_extension_category("doc"), Some(FileCategory::Documents));
    assert_eq!(FileAnalyzer::get_extension_category("docx"), Some(FileCategory::Documents));
    assert_eq!(FileAnalyzer::get_extension_category("xls"), Some(FileCategory::Spreadsheets));
    assert_eq!(FileAnalyzer::get_extension_category("xlsx"), Some(FileCategory::Spreadsheets));
}

#[test]
fn test_all_image_extensions() {
    let image_exts = vec!["jpg", "jpeg", "png", "gif", "bmp", "tiff", "webp", "heic"];
    for ext in image_exts {
        assert_eq!(
            FileAnalyzer::get_extension_category(ext),
            Some(FileCategory::Images),
            "Failed for extension: {}",
            ext
        );
    }
}

#[test]
fn test_all_video_extensions() {
    let video_exts = vec!["mp4", "mov", "avi", "mkv", "wmv", "flv", "webm", "m4v", "3gp"];
    for ext in video_exts {
        assert_eq!(
            FileAnalyzer::get_extension_category(ext),
            Some(FileCategory::Videos),
            "Failed for extension: {}",
            ext
        );
    }
}

#[test]
fn test_all_audio_extensions() {
    let audio_exts = vec!["mp3", "wav", "aac", "ogg", "flac", "m4a", "wma", "aiff"];
    for ext in audio_exts {
        assert_eq!(
            FileAnalyzer::get_extension_category(ext),
            Some(FileCategory::Audio),
            "Failed for extension: {}",
            ext
        );
    }
}

#[test]
fn test_case_insensitive_extensions() {
    assert_eq!(FileAnalyzer::get_extension_category("PDF"), Some(FileCategory::PDFs));
    assert_eq!(FileAnalyzer::get_extension_category("DocX"), Some(FileCategory::Documents));
    assert_eq!(FileAnalyzer::get_extension_category("MP4"), Some(FileCategory::Videos));
}

#[test]
fn test_analyze_skips_directories() {
    let analyzer = FileAnalyzer::new("/tmp/desk".to_string(), false);
    let result = analyzer.analyze(&vec![folder("subdir"), file("test.docx")]);

    assert_eq!(result.total_files, 1);
    assert_eq!(result.supported_files, 1);
}

#[test]
fn test_analyze_mixed_supported_unsupported() {
    let analyzer = FileAnalyzer::new("/tmp/desk".to_string(), false);
    let result = analyzer.analyze(&vec![file("doc.docx"), file("image.jpg"), file("random.xyz"), file("data.bin")]);

    assert_eq!(result.total_files, 4);
    assert_eq!(result.supported_files, 2);
}

#[test]
fn test_full_workflow_with_mixed_files() {
    let analyzer = FileAnalyzer::new("/tmp/desk".to_string(), false);
    let analysis = analyzer.analyze(&vec![
        file("document.docx"),
        file("presentation.pptx"),
        file("spreadsheet.xlsx"),
        file("image.jpg"),
        file("video.mp4"),
        file("audio.mp3"),
        file("pdf.pdf"),
        file("unsupported.xyz"),
    ]);

    assert_eq!(analysis.total_files, 8);
    assert_eq!(analysis.supported_files, 7);
    assert_eq!(analysis.categories.len(), 7);
}

#[test]
fn test_empty_folder() {
    let analyzer = FileAnalyzer::new("/home/user/empty".to_string(), false);
    let analysis = analyzer.analyze(&vec![]);

    assert_eq!(analysis.total_files, 0);
    assert_eq!(analysis.supported_files, 0);
    assert!(analysis.categories.is_empty());
}

#[test]
fn test_only_unsupported_files() {
    let analyzer = FileAnalyzer::new("/tmp/desk".to_string(), false);
    let analysis = analyzer.analyze(&vec![file("file1.xyz"), file("file2.abc"), file("file3.unknown")]);

    assert_eq!(analysis.total_files, 3);
    assert_eq!(analysis.supported_files, 0);
    assert!(analysis.categories.is_empty());
}

#[test]
fn test_case_insensitive_extension_matching() {
    let analyzer = FileAnalyzer::new("/tmp/desk".to_string(), false);
    let analysis = analyzer.analyze(&vec![file("file.DOCX"), file("file.Pdf"), file("file.JPG")]);

    assert_eq!(analysis.supported_files, 3);
    assert_eq!(analysis.categories.len(), 3);
}

#[test]
fn test_all_supported_file_types() {
    let names = vec![
        "test.ppt", "test.pptx", "test.doc", "test.docx", "test.xls", "test.xlsx", "test.pdf", "test.jpg",
        "test.png", "test.gif", "test.mp4", "test.mov", "test.mp3", "test.wav",
    ];
    let listing: Vec<DirItem> = names.iter().map(|n| file(n)).collect();
    let analyzer = FileAnalyzer::new("/tmp/desk".to_string(), false);
    let analysis = analyzer.analyze(&listing);

    assert_eq!(analysis.supported_files, 14);
}

#[test]
fn nested_files_are_never_scanned() {
    let analyzer = FileAnalyzer::new("/tmp/desk".to_string(), false);
    let analysis = analyzer.analyze(&vec![folder("Photos"), folder("Duplicates"), file("Duplicates")]);

    assert_eq!(analysis.total_files, 0);
    assert_eq!(analysis.supported_files, 0);
    assert!(analysis.categories.is_empty());
}

#[test]
fn categories_come_in_fixed_order_with_files_in_listing_order() {
    let analyzer = FileAnalyzer::new("/d".to_string(), false);
    let analysis = analyzer.analyze(&vec![file("b.mp3"), file("z.pdf"), file("a.doc"), file("a.pdf"), file("noext")]);

    assert_eq!(analysis.total_files, 5);
    assert_eq!(analysis.supported_files, 4);
    let cats: Vec<FileCategory> = analysis.categories.iter().map(|c| c.category).collect();
    assert_eq!(cats, vec![FileCategory::Documents, FileCategory::PDFs, FileCategory::Audio]);
    let pdfs: Vec<String> = analysis.categories[1].files.iter().map(|e| e.path.name.clone()).collect();
    assert_eq!(pdfs, vec!["z.pdf".to_string(), "a.pdf".to_string()]);
    assert_eq!(analysis.categories[1].files[0].path.dir, "/d");
}

#[test]
fn extension_follows_the_last_dot() {
    assert_eq!(extension("a.tar.gz"), Some("gz".to_string()));
    assert_eq!(extension(".bashrc"), None);
    assert_eq!(extension("noext"), None);
    assert_eq!(extension("trailing."), Some("".to_string()));
    assert_eq!(find_last_dot("a.b.c"), Some(3));
    assert_eq!(find_last_dot("abc"), None);
}

#[test]
fn lowercase_table_is_exact() {
    assert_eq!(category_for_lowercase("raw"), Some(FileCategory::Images));
    assert_eq!(category_for_lowercase("PDF"), None);
    assert_eq!(category_for_lowercase(""), None);
}

#[test]
fn category_names_colors_and_order() {
    assert_eq!(FileCategory::PDFs.as_str(), "PDFs");
    assert_eq!(FileCategory::Audio.as_str(), "Audio");
    assert_eq!(FileCategory::Documents.color_code(), "blue");
    assert_eq!(FileCategory::Audio.color_code(), "red");
    assert_eq!(
        FileCategory::order(),
        vec![
            FileCategory::Documents,
            FileCategory::PDFs,
            FileCategory::Presentations,
            FileCategory::Spreadsheets,
            FileCategory::Images,
            FileCategory::Videos,
            FileCategory::Audio,
        ]
    );
}

#[test]
fn scan_passes_over_folders_and_the_duplicates_folder() {
    assert!(FileAnalyzer::skips(&folder("Photos")));
    assert!(FileAnalyzer::skips(&file("Duplicates")));
    assert!(!FileAnalyzer::skips(&file("a.pdf")));
    assert_eq!(FileAnalyzer::categorize(&file("a.PDF")), Some(FileCategory::PDFs));
    assert_eq!(FileAnalyzer::categorize(&folder("a.pdf")), None);
    assert_eq!(FileAnalyzer::categorize(&file("a.xyz")), None);
}
