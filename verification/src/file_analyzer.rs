use vstd::prelude::*;
use vstd::string::*;
use crate::types::{AnalysisResult, CategoryFiles, EntryView, FileCategory, FileEntry, FilePath, PathView, category_order};

verus! {

/// The lower-case form of a text, as `str::to_lowercase` gives it.
pub uninterp spec fn lowercase_of(s: Seq<char>) -> Seq<char>;

/// Calls `str::to_lowercase`. The contract only names the result: the
/// lower-case form depends on nothing but the characters given.
#[verifier::external_body]
fn lowercase(s: &str) -> (r: String)
    ensures
        r@ == lowercase_of(s@),
{
    s.to_lowercase()
}

/// The category of an extension that is already in lower case.
pub open spec fn category_of(ext: Seq<char>) -> Option<FileCategory> {
    if ext == "ppt"@ || ext == "pptx"@ {
        Some(FileCategory::Presentations)
    } else if ext == "doc"@ || ext == "docx"@ {
        Some(FileCategory::Documents)
    } else if ext == "xls"@ || ext == "xlsx"@ {
        Some(FileCategory::Spreadsheets)
    } else if ext == "pdf"@ {
        Some(FileCategory::PDFs)
    } else if ext == "jpg"@ || ext == "jpeg"@ || ext == "png"@ || ext == "gif"@ || ext == "bmp"@
        || ext == "tiff"@ || ext == "webp"@ || ext == "heic"@ || ext == "raw"@ || ext == "cr2"@
        || ext == "nef"@ || ext == "arw"@ {
        Some(FileCategory::Images)
    } else if ext == "mp4"@ || ext == "mov"@ || ext == "avi"@ || ext == "mkv"@ || ext == "wmv"@
        || ext == "flv"@ || ext == "webm"@ || ext == "m4v"@ || ext == "3gp"@ {
        Some(FileCategory::Videos)
    } else if ext == "mp3"@ || ext == "wav"@ || ext == "aac"@ || ext == "ogg"@ || ext == "flac"@
        || ext == "m4a"@ || ext == "wma"@ || ext == "aiff"@ {
        Some(FileCategory::Audio)
    } else {
        None
    }
}

/// Whether a text is the given one.
fn same_text(e: &String, lit: &str) -> (r: bool)
    ensures
        r == (e@ == lit@),
{
    let l = lit.to_owned();
    *e == l
}

/// The category of an extension that is already in lower case.
pub fn category_for_lowercase(ext: &str) -> (r: Option<FileCategory>)
    ensures
        r == category_of(ext@),
{
    let e = ext.to_owned();
    if same_text(&e, "ppt") || same_text(&e, "pptx") {
        Some(FileCategory::Presentations)
    } else if same_text(&e, "doc") || same_text(&e, "docx") {
        Some(FileCategory::Documents)
    } else if same_text(&e, "xls") || same_text(&e, "xlsx") {
        Some(FileCategory::Spreadsheets)
    } else if same_text(&e, "pdf") {
        Some(FileCategory::PDFs)
    } else if same_text(&e, "jpg") || same_text(&e, "jpeg") || same_text(&e, "png") || same_text(&e, "gif") || same_text(&e, "bmp")
        || same_text(&e, "tiff") || same_text(&e, "webp") || same_text(&e, "heic") || same_text(&e, "raw") || same_text(&e, "cr2")
        || same_text(&e, "nef") || same_text(&e, "arw") {
        Some(FileCategory::Images)
    } else if same_text(&e, "mp4") || same_text(&e, "mov") || same_text(&e, "avi") || same_text(&e, "mkv") || same_text(&e, "wmv")
        || same_text(&e, "flv") || same_text(&e, "webm") || same_text(&e, "m4v") || same_text(&e, "3gp") {
        Some(FileCategory::Videos)
    } else if same_text(&e, "mp3") || same_text(&e, "wav") || same_text(&e, "aac") || same_text(&e, "ogg") || same_text(&e, "flac")
        || same_text(&e, "m4a") || same_text(&e, "wma") || same_text(&e, "aiff") {
        Some(FileCategory::Audio)
    } else {
        None
    }
}

/// Where the last dot of a name stands, if it has one.
pub open spec fn last_dot(name: Seq<char>) -> Option<int> {
    if exists|i: int| 0 <= i < name.len() && name[i] == '.' {
        Some(choose|i: int| 0 <= i < name.len() && name[i] == '.' && forall|j: int| i < j < name.len() ==> name[j] != '.')
    } else {
        None
    }
}

/// Finds the last dot of a name.
pub fn find_last_dot(name: &str) -> (r: Option<usize>)
    ensures
        match r {
            Some(i) => i < name@.len() && name@[i as int] == '.' && forall|j: int| i < j < name@.len() ==> name@[j] != '.',
            None => forall|j: int| 0 <= j < name@.len() ==> name@[j] != '.',
        },
        r matches Some(i) ==> last_dot(name@) == Some(i as int),
        r is None ==> last_dot(name@) is None,
{
    let n = name.unicode_len();
    let mut i: usize = n;
    while i > 0
        invariant
            i <= n,
            n == name@.len(),
            forall|j: int| i <= j < n ==> name@[j] != '.',
        decreases i,
    {
        i -= 1;
        if name.get_char(i) == '.' {
            proof {
                let w = choose|k: int| 0 <= k < name@.len() && name@[k] == '.' && forall|j: int| k < j < name@.len() ==> name@[j] != '.';
                assert(0 <= i < name@.len() && name@[i as int] == '.' && forall|j: int| i < j < name@.len() ==> name@[j] != '.');
                assert(w == i) by {
                    if w < i {
                        assert(name@[i as int] != '.');
                    } else if w > i {
                        assert(name@[w] != '.');
                    }
                }
            }
            return Some(i);
        }
    }
    None
}

/// The extension of a file name: what follows its last dot, unless the name
/// has no dot or only the one it starts with.
pub open spec fn extension_of(name: Seq<char>) -> Option<Seq<char>> {
    match last_dot(name) {
        Some(i) => if i == 0 {
            None
        } else {
            Some(name.subrange(i + 1, name.len() as int))
        },
        None => None,
    }
}

/// The extension of a file name.
pub fn extension(name: &str) -> (r: Option<String>)
    ensures
        r is Some == extension_of(name@) is Some,
        r matches Some(e) ==> extension_of(name@) == Some(e@),
{
    match find_last_dot(name) {
        Some(i) => {
            if i == 0 {
                None
            } else {
                let n = name.unicode_len();
                Some(name.substring_char(i + 1, n).to_owned())
            }
        },
        None => None,
    }
}

/// One object of a folder, as a listing gives it.
#[derive(Debug)]
pub struct DirItem {
    pub name: String,
    pub is_dir: bool,
}

/// Whether the scan passes over an object: a folder, or the folder of the
/// duplicates under whatever form it exists.
pub open spec fn is_skipped(item: DirItem) -> bool {
    item.is_dir || item.name@ == "Duplicates"@
}

/// The category of a listed object, if the scan takes it up.
pub open spec fn item_category(item: DirItem) -> Option<FileCategory> {
    if is_skipped(item) {
        None
    } else {
        match extension_of(item.name@) {
            Some(e) => category_of(lowercase_of(e)),
            None => None,
        }
    }
}

/// How many of the first `n` objects are files that the scan counts.
pub open spec fn count_files(listing: Seq<DirItem>, n: int) -> int
    decreases n,
{
    if n <= 0 {
        0
    } else {
        count_files(listing, n - 1) + if is_skipped(listing[n - 1]) { 0int } else { 1int }
    }
}

/// The supported files of category `c` among the first `n` objects, in the
/// order of the listing.
pub open spec fn files_of(folder: Seq<char>, listing: Seq<DirItem>, c: FileCategory, n: int) -> Seq<EntryView>
    decreases n,
{
    if n <= 0 {
        Seq::empty()
    } else if item_category(listing[n - 1]) == Some(c) {
        files_of(folder, listing, c, n - 1).push(
            EntryView { path: PathView { dir: folder, name: listing[n - 1].name@ }, category: c },
        )
    } else {
        files_of(folder, listing, c, n - 1)
    }
}

/// The categories, among the first `k` of the fixed order, that have a file.
pub open spec fn filled_categories(folder: Seq<char>, listing: Seq<DirItem>, k: int) -> Seq<FileCategory>
    decreases k,
{
    if k <= 0 {
        Seq::empty()
    } else {
        let c = category_order()[k - 1];
        if files_of(folder, listing, c, listing.len() as int).len() > 0 {
            filled_categories(folder, listing, k - 1).push(c)
        } else {
            filled_categories(folder, listing, k - 1)
        }
    }
}

/// Scans the listing of one folder.
pub struct FileAnalyzer {
    pub folder_path: String,
    pub verbose: bool,
}

impl FileAnalyzer {
    pub fn new(folder_path: String, verbose: bool) -> (r: Self)
        ensures
            r.folder_path == folder_path,
            r.verbose == verbose,
    {
        Self { folder_path, verbose }
    }

    /// The category of an extension, whatever its case.
    pub fn get_extension_category(ext: &str) -> (r: Option<FileCategory>)
        ensures
            r == category_of(lowercase_of(ext@)),
    {
        let lower = lowercase(ext);
        category_for_lowercase(lower.as_str())
    }

    /// Whether the scan passes over a listed object: a folder, or the folder
    /// of the duplicates.
    pub fn skips(item: &DirItem) -> (r: bool)
        ensures
            r == is_skipped(*item),
    {
        let dup = "Duplicates".to_owned();
        item.is_dir || item.name == dup
    }

    /// The category of one listed object: none for a folder, for the folder
    /// of the duplicates, and for a name without a known extension.
    pub fn categorize(item: &DirItem) -> (r: Option<FileCategory>)
        ensures
            r == item_category(*item),
    {
        if Self::skips(item) {
            None
        } else {
            match extension(item.name.as_str()) {
                Some(e) => Self::get_extension_category(e.as_str()),
                None => None,
            }
        }
    }

    /// The supported files of one category, in the order of the listing.
    pub fn collect_category(&self, listing: &Vec<DirItem>, c: FileCategory) -> (r: Vec<FileEntry>)
        ensures
            crate::types::entry_views(r@) == files_of(self.folder_path@, listing@, c, listing.len() as int),
    {
        let mut out: Vec<FileEntry> = Vec::new();
        let mut i: usize = 0;
        while i < listing.len()
            invariant
                i <= listing.len(),
                crate::types::entry_views(out@) == files_of(self.folder_path@, listing@, c, i as int),
            decreases listing.len() - i,
        {
            let cat = Self::categorize(&listing[i]);
            if cat == Some(c) {
                let ghost before = out@;
                out.push(FileEntry {
                    path: FilePath { dir: self.folder_path.clone(), name: listing[i].name.clone() },
                    category: c,
                });
                assert(crate::types::entry_views(out@) =~= crate::types::entry_views(before).push(out@[before.len() as int]@));
            }
            i += 1;
        }
        out
    }

    /// Counts the files of the listing and sorts the supported ones by
    /// category. Folders are passed over, and so is the folder of the
    /// duplicates; the categories come in their fixed order, each with its
    /// files in the order of the listing, and a category without files is left
    /// out.
    pub fn analyze(&self, listing: &Vec<DirItem>) -> (r: AnalysisResult)
        ensures
            r.total_files == count_files(listing@, listing.len() as int),
            r.categories.len() == filled_categories(self.folder_path@, listing@, 7).len(),
            forall|k: int| 0 <= k < r.categories.len() ==> {
                &&& (#[trigger] r.categories[k]).category == filled_categories(self.folder_path@, listing@, 7)[k]
                &&& crate::types::entry_views(r.categories[k].files@) == files_of(
                    self.folder_path@,
                    listing@,
                    r.categories[k].category,
                    listing.len() as int,
                )
                &&& r.categories[k].files.len() > 0
            },
            r.supported_files == count_supported(listing@, listing.len() as int),
    {
        let mut total: usize = 0;
        let mut i: usize = 0;
        while i < listing.len()
            invariant
                i <= listing.len(),
                total == count_files(listing@, i as int),
                total <= i,
            decreases listing.len() - i,
        {
            if !Self::skips(&listing[i]) {
                total += 1;
            }
            i += 1;
        }
        let order = FileCategory::order();
        let mut categories: Vec<CategoryFiles> = Vec::new();
        let mut supported: usize = 0;
        let mut k: usize = 0;
        proof {
            lemma_supported_bound(self.folder_path@, listing@, 7);
        }
        while k < 7
            invariant
                k <= 7,
                order@ == category_order(),
                categories.len() == filled_categories(self.folder_path@, listing@, k as int).len(),
                forall|j: int| 0 <= j < categories.len() ==> {
                    &&& (#[trigger] categories[j]).category == filled_categories(self.folder_path@, listing@, k as int)[j]
                    &&& crate::types::entry_views(categories[j].files@) == files_of(
                        self.folder_path@,
                        listing@,
                        categories[j].category,
                        listing.len() as int,
                    )
                    &&& categories[j].files.len() > 0
                },
                supported == supported_count(self.folder_path@, listing@, k as int),
                supported_count(self.folder_path@, listing@, 7) <= listing.len(),
                supported_count(self.folder_path@, listing@, 7) == count_supported(listing@, listing.len() as int),
            decreases 7 - k,
        {
            let c = order[k];
            let files = self.collect_category(listing, c);
            proof {
                lemma_supported_monotone(self.folder_path@, listing@, k as int + 1, 7);
                assert(crate::types::entry_views(files@).len() == files@.len());
            }
            supported = supported + files.len();
            if files.len() > 0 {
                categories.push(CategoryFiles { category: c, files });
            }
            k += 1;
        }
        AnalysisResult { total_files: total, supported_files: supported, categories }
    }
}

/// Every supported file of a listing is among the files of its category.
pub proof fn lemma_supported_file_is_found(folder: Seq<char>, listing: Seq<DirItem>, c: FileCategory, n: int, i: int)
    requires
        0 <= i < n <= listing.len(),
        item_category(listing[i]) == Some(c),
    ensures
        files_of(folder, listing, c, n).contains(
            EntryView { path: PathView { dir: folder, name: listing[i].name@ }, category: c },
        ),
    decreases n,
{
    let e = EntryView { path: PathView { dir: folder, name: listing[i].name@ }, category: c };
    let now = files_of(folder, listing, c, n);
    if i == n - 1 {
        assert(now[now.len() - 1] == e);
    } else {
        lemma_supported_file_is_found(folder, listing, c, n - 1, i);
        let prev = files_of(folder, listing, c, n - 1);
        let k = choose|k: int| 0 <= k < prev.len() && prev[k] == e;
        assert(now[k] == e);
    }
}

/// How many supported files the first `k` categories of the fixed order hold.
pub open spec fn supported_count(folder: Seq<char>, listing: Seq<DirItem>, k: int) -> int
    decreases k,
{
    if k <= 0 {
        0
    } else {
        supported_count(folder, listing, k - 1) + files_of(
            folder,
            listing,
            category_order()[k - 1],
            listing.len() as int,
        ).len()
    }
}

/// How many of the first `n` objects are supported files.
pub open spec fn count_supported(listing: Seq<DirItem>, n: int) -> int
    decreases n,
{
    if n <= 0 {
        0
    } else {
        count_supported(listing, n - 1) + if item_category(listing[n - 1]) is Some { 1int } else { 0int }
    }
}

proof fn lemma_supported_split(folder: Seq<char>, listing: Seq<DirItem>, n: int)
    requires
        0 <= n <= listing.len(),
    ensures
        files_of(folder, listing, FileCategory::Documents, n).len() + files_of(folder, listing, FileCategory::PDFs, n).len()
            + files_of(folder, listing, FileCategory::Presentations, n).len() + files_of(
            folder,
            listing,
            FileCategory::Spreadsheets,
            n,
        ).len() + files_of(folder, listing, FileCategory::Images, n).len() + files_of(
            folder,
            listing,
            FileCategory::Videos,
            n,
        ).len() + files_of(folder, listing, FileCategory::Audio, n).len() == count_supported(listing, n),
        0 <= count_supported(listing, n) <= n,
    decreases n,
{
    if n > 0 {
        lemma_supported_split(folder, listing, n - 1);
    }
}

/// The supported files, counted category by category, are the supported
/// files of the listing: each is counted once.
pub proof fn lemma_supported_bound(folder: Seq<char>, listing: Seq<DirItem>, k: int)
    requires
        k == 7,
    ensures
        supported_count(folder, listing, k) == count_supported(listing, listing.len() as int),
        supported_count(folder, listing, k) <= listing.len(),
{
    lemma_supported_split(folder, listing, listing.len() as int);
    reveal_with_fuel(supported_count, 8);
}

proof fn lemma_supported_monotone(folder: Seq<char>, listing: Seq<DirItem>, a: int, b: int)
    requires
        0 <= a <= b,
    ensures
        supported_count(folder, listing, a) <= supported_count(folder, listing, b),
    decreases b - a,
{
    if a < b {
        lemma_supported_monotone(folder, listing, a, b - 1);
    }
}

} // verus!
