use vstd::prelude::*;
use vstd::string::*;
use crate::organizer::join;
use crate::types::{EntryView, FileCategory, FileEntry, FilePath, PathView, category_order, entry_views, joined, texts};

verus! {

/// Prepares what a summary of a pass shows.
pub struct DisplayFormatter;

/// One row of the summary: a category, and the files of it as they are
/// shown.
#[derive(Debug)]
pub struct SummaryRow {
    pub category: FileCategory,
    pub count: usize,
    pub files: Vec<String>,
}

/// A path as the summary shows it: the name alone for a file that lies
/// directly in the folder, else the folder and the name.
pub open spec fn shown(path: PathView, folder: Seq<char>) -> Seq<char> {
    if path.dir == folder {
        path.name
    } else {
        joined(path.dir, path.name)
    }
}

/// The files of category `c` among the first `n` entries, as they are shown.
pub open spec fn shown_files(entries: Seq<EntryView>, folder: Seq<char>, c: FileCategory, n: int) -> Seq<Seq<char>>
    decreases n,
{
    if n <= 0 {
        Seq::empty()
    } else if entries[n - 1].category == c {
        shown_files(entries, folder, c, n - 1).push(shown(entries[n - 1].path, folder))
    } else {
        shown_files(entries, folder, c, n - 1)
    }
}

/// The categories, among the first `k` of the fixed order, that have a row.
pub open spec fn shown_categories(entries: Seq<EntryView>, folder: Seq<char>, k: int) -> Seq<FileCategory>
    decreases k,
{
    if k <= 0 {
        Seq::empty()
    } else {
        let c = category_order()[k - 1];
        if shown_files(entries, folder, c, entries.len() as int).len() > 0 {
            shown_categories(entries, folder, k - 1).push(c)
        } else {
            shown_categories(entries, folder, k - 1)
        }
    }
}

impl DisplayFormatter {
    /// The heading over the actions of a pass.
    pub fn action_label(dry_run: bool) -> (r: &'static str)
        ensures
            r@ == (if dry_run {
                "Proposed Actions"@
            } else {
                "Actions Taken"@
            }),
    {
        if dry_run {
            "Proposed Actions"
        } else {
            "Actions Taken"
        }
    }

    /// A path as the summary shows it.
    pub fn shown_path(path: &FilePath, folder: &str) -> (r: String)
        ensures
            r@ == shown(path@, folder@),
    {
        let f = folder.to_owned();
        if path.dir == f {
            path.name.clone()
        } else {
            join(path.dir.as_str(), path.name.as_str())
        }
    }

    /// The files of one category, as they are shown, in the order of the
    /// entries.
    pub fn category_files(entries: &Vec<FileEntry>, folder: &str, c: FileCategory) -> (r: Vec<String>)
        ensures
            texts(r@) == shown_files(entry_views(entries@), folder@, c, entries.len() as int),
    {
        let mut out: Vec<String> = Vec::new();
        let mut i: usize = 0;
        assert(texts(out@) =~= Seq::<Seq<char>>::empty());
        while i < entries.len()
            invariant
                i <= entries.len(),
                texts(out@) == shown_files(entry_views(entries@), folder@, c, i as int),
            decreases entries.len() - i,
        {
            if entries[i].category == c {
                let ghost before = out@;
                out.push(Self::shown_path(&entries[i].path, folder));
                assert(texts(out@) =~= texts(before).push(shown(entries[i as int]@.path, folder@)));
            }
            i += 1;
        }
        out
    }

    /// The rows of the summary: one for each category that has a file, in
    /// the fixed order of the categories, with the number of its files and
    /// the files as they are shown.
    pub fn category_rows(entries: &Vec<FileEntry>, folder: &str) -> (r: Vec<SummaryRow>)
        ensures
            r.len() == shown_categories(entry_views(entries@), folder@, 7).len(),
            forall|k: int| 0 <= k < r.len() ==> {
                &&& (#[trigger] r[k]).category == shown_categories(entry_views(entries@), folder@, 7)[k]
                &&& texts(r[k].files@) == shown_files(entry_views(entries@), folder@, r[k].category, entries.len() as int)
                &&& r[k].count == r[k].files.len()
            },
    {
        let order = FileCategory::order();
        let mut rows: Vec<SummaryRow> = Vec::new();
        let mut k: usize = 0;
        while k < 7
            invariant
                k <= 7,
                order@ == category_order(),
                rows.len() == shown_categories(entry_views(entries@), folder@, k as int).len(),
                forall|j: int| 0 <= j < rows.len() ==> {
                    &&& (#[trigger] rows[j]).category == shown_categories(entry_views(entries@), folder@, k as int)[j]
                    &&& texts(rows[j].files@) == shown_files(entry_views(entries@), folder@, rows[j].category, entries.len() as int)
                    &&& rows[j].count == rows[j].files.len()
                },
            decreases 7 - k,
        {
            let c = order[k];
            let files = Self::category_files(entries, folder, c);
            assert(texts(files@).len() == files@.len());
            if files.len() > 0 {
                rows.push(SummaryRow { category: c, count: files.len(), files });
            }
            k += 1;
        }
        rows
    }
}

} // verus!
