use vstd::prelude::*;

verus! {

/// The kinds of file that get a folder of their own.
#[derive(Debug, Clone, Copy, PartialEq, Eq, Hash, Structural)]
pub enum FileCategory {
    Documents,
    PDFs,
    Presentations,
    Spreadsheets,
    Images,
    Videos,
    Audio,
}

/// The folder name of a category.
pub open spec fn category_name(c: FileCategory) -> Seq<char> {
    match c {
        FileCategory::Documents => "Documents"@,
        FileCategory::PDFs => "PDFs"@,
        FileCategory::Presentations => "Presentations"@,
        FileCategory::Spreadsheets => "Spreadsheets"@,
        FileCategory::Images => "Images"@,
        FileCategory::Videos => "Videos"@,
        FileCategory::Audio => "Audio"@,
    }
}

/// The colour in which a category is shown.
pub open spec fn category_color(c: FileCategory) -> Seq<char> {
    match c {
        FileCategory::Documents => "blue"@,
        FileCategory::PDFs => "red"@,
        FileCategory::Presentations => "magenta"@,
        FileCategory::Spreadsheets => "green"@,
        FileCategory::Images => "cyan"@,
        FileCategory::Videos => "yellow"@,
        FileCategory::Audio => "red"@,
    }
}

/// The categories in the order in which they are shown.
pub open spec fn category_order() -> Seq<FileCategory> {
    seq![
        FileCategory::Documents,
        FileCategory::PDFs,
        FileCategory::Presentations,
        FileCategory::Spreadsheets,
        FileCategory::Images,
        FileCategory::Videos,
        FileCategory::Audio,
    ]
}

impl FileCategory {
    pub fn as_str(&self) -> (r: &'static str)
        ensures
            r@ == category_name(*self),
    {
        match self {
            FileCategory::Documents => "Documents",
            FileCategory::PDFs => "PDFs",
            FileCategory::Presentations => "Presentations",
            FileCategory::Spreadsheets => "Spreadsheets",
            FileCategory::Images => "Images",
            FileCategory::Videos => "Videos",
            FileCategory::Audio => "Audio",
        }
    }

    pub fn color_code(&self) -> (r: &'static str)
        ensures
            r@ == category_color(*self),
    {
        match self {
            FileCategory::Documents => "blue",
            FileCategory::PDFs => "red",
            FileCategory::Presentations => "magenta",
            FileCategory::Spreadsheets => "green",
            FileCategory::Images => "cyan",
            FileCategory::Videos => "yellow",
            FileCategory::Audio => "red",
        }
    }

    pub fn order() -> (r: Vec<FileCategory>)
        ensures
            r@ == category_order(),
    {
        let r = vec![
            FileCategory::Documents,
            FileCategory::PDFs,
            FileCategory::Presentations,
            FileCategory::Spreadsheets,
            FileCategory::Images,
            FileCategory::Videos,
            FileCategory::Audio,
        ];
        assert(r@ =~= category_order());
        r
    }
}

/// A path, held as the folder that contains the object and the object's name
/// in that folder.
#[derive(Debug)]
pub struct FilePath {
    pub dir: String,
    pub name: String,
}

/// What a path is in contracts: the folder and the name, as characters.
pub struct PathView {
    pub dir: Seq<char>,
    pub name: Seq<char>,
}

impl View for FilePath {
    type V = PathView;

    open spec fn view(&self) -> PathView {
        PathView { dir: self.dir@, name: self.name@ }
    }
}

impl Clone for FilePath {
    fn clone(&self) -> (r: Self)
        ensures
            r == *self,
    {
        FilePath { dir: self.dir.clone(), name: self.name.clone() }
    }
}

impl FilePath {
    pub fn new(dir: &str, name: &str) -> (r: FilePath)
        ensures
            r@ == (PathView { dir: dir@, name: name@ }),
    {
        FilePath { dir: dir.to_owned(), name: name.to_owned() }
    }

    /// Whether two paths name the same object.
    pub fn same_as(&self, other: &FilePath) -> (r: bool)
        ensures
            r == (self@ == other@),
    {
        self.dir == other.dir && self.name == other.name
    }
}

/// The folder `name` inside the folder `dir`, written with a slash.
pub open spec fn joined(dir: Seq<char>, name: Seq<char>) -> Seq<char> {
    dir + seq!['/'] + name
}

/// A file and the category it was given.
#[derive(Debug)]
pub struct FileEntry {
    pub path: FilePath,
    pub category: FileCategory,
}

pub struct EntryView {
    pub path: PathView,
    pub category: FileCategory,
}

impl View for FileEntry {
    type V = EntryView;

    open spec fn view(&self) -> EntryView {
        EntryView { path: self.path@, category: self.category }
    }
}

impl Clone for FileEntry {
    fn clone(&self) -> (r: Self)
        ensures
            r == *self,
    {
        FileEntry { path: self.path.clone(), category: self.category }
    }
}

/// The views of a run of entries.
pub open spec fn entry_views(entries: Seq<FileEntry>) -> Seq<EntryView> {
    Seq::new(entries.len(), |i: int| entries[i]@)
}

/// Files with the same content: the one to keep first, the others after it.
#[derive(Debug)]
pub struct DuplicateGroup {
    pub checksum_key: String,
    pub files: Vec<FileEntry>,
}

pub struct GroupView {
    pub checksum_key: Seq<char>,
    pub files: Seq<EntryView>,
}

impl View for DuplicateGroup {
    type V = GroupView;

    open spec fn view(&self) -> GroupView {
        GroupView { checksum_key: self.checksum_key@, files: entry_views(self.files@) }
    }
}

impl DuplicateGroup {
    /// Whether the group has the two members that make it one.
    pub open spec fn well_formed(&self) -> bool {
        self.files.len() >= 2
    }
}

/// A copy of a run of entries.
pub fn clone_entries(entries: &Vec<FileEntry>) -> (r: Vec<FileEntry>)
    ensures
        r@ == entries@,
{
    let mut r: Vec<FileEntry> = Vec::new();
    let mut i: usize = 0;
    while i < entries.len()
        invariant
            i <= entries.len(),
            r@ == entries@.take(i as int),
        decreases entries.len() - i,
    {
        r.push(entries[i].clone());
        assert(r@ =~= entries@.take(i + 1));
        i += 1;
    }
    assert(entries@.take(entries.len() as int) =~= entries@);
    r
}

impl Clone for DuplicateGroup {
    fn clone(&self) -> (r: Self)
        ensures
            r.checksum_key == self.checksum_key,
            r.files@ == self.files@,
    {
        DuplicateGroup { checksum_key: self.checksum_key.clone(), files: clone_entries(&self.files) }
    }
}

/// The supported files of one category, in the order of the listing.
#[derive(Debug)]
pub struct CategoryFiles {
    pub category: FileCategory,
    pub files: Vec<FileEntry>,
}

/// What a scan of the folder found.
#[derive(Debug)]
pub struct AnalysisResult {
    pub total_files: usize,
    pub supported_files: usize,
    pub categories: Vec<CategoryFiles>,
}

/// One file taken from one place to another.
#[derive(Debug)]
pub struct Move {
    pub from: FilePath,
    pub to: FilePath,
}

pub struct MoveView {
    pub from: PathView,
    pub to: PathView,
}

impl View for Move {
    type V = MoveView;

    open spec fn view(&self) -> MoveView {
        MoveView { from: self.from@, to: self.to@ }
    }
}

/// What one pass did or, in a dry run, would do: the actions in words, the
/// groups of duplicates it was given, and the changes for the disk: the
/// folders it made and the files it moved, in order.
#[derive(Debug)]
pub struct OrganizationSummary {
    pub actions_taken: Vec<String>,
    pub duplicates_found: Vec<DuplicateGroup>,
    pub created_folders: Vec<FilePath>,
    pub moves: Vec<Move>,
}

/// The characters of each text of a run.
pub open spec fn texts(v: Seq<String>) -> Seq<Seq<char>> {
    Seq::new(v.len(), |i: int| v[i]@)
}

/// The views of a run of paths.
pub open spec fn path_views(v: Seq<FilePath>) -> Seq<PathView> {
    Seq::new(v.len(), |i: int| v[i]@)
}

/// The views of a run of moves.
pub open spec fn move_views(v: Seq<Move>) -> Seq<MoveView> {
    Seq::new(v.len(), |i: int| v[i]@)
}

/// The views of a run of groups.
pub open spec fn group_views(v: Seq<DuplicateGroup>) -> Seq<GroupView> {
    Seq::new(v.len(), |i: int| v[i]@)
}

} // verus!
