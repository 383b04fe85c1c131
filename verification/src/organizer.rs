use vstd::prelude::*;
use vstd::string::*;
use crate::organizer_laws::{law_actions_follow_moves, law_dry_run_changes_nothing, lemma_unique_path_dir};
use crate::path_resolver::unique_path;
use crate::snapshot::DirSnapshot;
use crate::types::{
    DuplicateGroup, EntryView, FileEntry, FilePath, GroupView, Move, MoveView, OrganizationSummary, PathView,
    category_name, entry_views, group_views, joined, move_views, path_views, texts,
};

verus! {

/// Moves the files of one folder into the folders of their categories and
/// the redundant copies into the folder of the duplicates.
pub struct Organizer {
    pub folder_path: String,
    pub verbose: bool,
}

/// The name of the folder that takes the redundant copies.
pub open spec fn duplicates_folder() -> Seq<char> {
    "Duplicates"@
}

/// One file to put into one folder. For a redundant copy, `canonical` is the
/// name of the file that it repeats.
#[derive(Debug)]
pub struct Job {
    pub source: FilePath,
    pub folder: String,
    pub canonical: Option<String>,
}

pub struct JobView {
    pub source: PathView,
    pub folder: Seq<char>,
    pub canonical: Option<Seq<char>>,
}

impl View for Job {
    type V = JobView;

    open spec fn view(&self) -> JobView {
        JobView {
            source: self.source@,
            folder: self.folder@,
            canonical: match self.canonical {
                Some(o) => Some(o@),
                None => None,
            },
        }
    }
}

/// The views of a run of jobs.
pub open spec fn job_views(v: Seq<Job>) -> Seq<JobView> {
    Seq::new(v.len(), |i: int| v[i]@)
}

/// How far a pass has come: what exists, what was said, which folders were
/// made and which files were moved.
pub struct PassState {
    pub fs: Set<PathView>,
    pub actions: Seq<Seq<char>>,
    pub folders: Seq<PathView>,
    pub moves: Seq<MoveView>,
}

/// A pass as it runs.
pub struct Pass {
    pub snapshot: DirSnapshot,
    pub actions: Vec<String>,
    pub folders: Vec<FilePath>,
    pub moves: Vec<Move>,
}

impl View for Pass {
    type V = PassState;

    open spec fn view(&self) -> PassState {
        PassState {
            fs: self.snapshot@,
            actions: texts(self.actions@),
            folders: path_views(self.folders@),
            moves: move_views(self.moves@),
        }
    }
}

/// A pass that has done nothing yet.
pub open spec fn fresh(fs: Set<PathView>) -> PassState {
    PassState { fs, actions: Seq::empty(), folders: Seq::empty(), moves: Seq::empty() }
}

/// Whether a path is that of a redundant copy: a member of some group other
/// than its first.
pub open spec fn is_redundant(dups: Seq<GroupView>, p: PathView) -> bool {
    exists|g: int, k: int| 0 <= g < dups.len() && 1 <= k < dups[g].files.len() && (#[trigger] dups[g].files[k]).path == p
}

/// The jobs for the first `n` entries: each entry that is no redundant copy
/// goes to the folder of its category.
pub open spec fn normal_jobs(entries: Seq<EntryView>, dups: Seq<GroupView>, n: int) -> Seq<JobView>
    decreases n,
{
    if n <= 0 {
        Seq::empty()
    } else if is_redundant(dups, entries[n - 1].path) {
        normal_jobs(entries, dups, n - 1)
    } else {
        normal_jobs(entries, dups, n - 1).push(
            JobView { source: entries[n - 1].path, folder: category_name(entries[n - 1].category), canonical: None },
        )
    }
}

/// The jobs for the first `k` members of a group: every member but the
/// first goes to the folder of the duplicates.
pub open spec fn group_jobs(group: GroupView, k: int) -> Seq<JobView>
    decreases k,
{
    if k <= 1 {
        Seq::empty()
    } else {
        group_jobs(group, k - 1).push(
            JobView {
                source: group.files[k - 1].path,
                folder: duplicates_folder(),
                canonical: Some(group.files[0].path.name),
            },
        )
    }
}

/// The jobs for the first `g` groups.
pub open spec fn duplicate_jobs(dups: Seq<GroupView>, g: int) -> Seq<JobView>
    decreases g,
{
    if g <= 0 {
        Seq::empty()
    } else {
        duplicate_jobs(dups, g - 1) + group_jobs(dups[g - 1], dups[g - 1].files.len() as int)
    }
}

/// What a pass says of a job.
pub open spec fn action_text(job: JobView, dry_run: bool) -> Seq<char> {
    match job.canonical {
        None => (if dry_run {
            "Would move "@
        } else {
            "Moved "@
        }) + job.source.name + " to "@ + job.folder + " folder"@,
        Some(o) => (if dry_run {
            "Would move duplicate "@
        } else {
            "Moved duplicate "@
        }) + job.source.name + " to "@ + job.folder + " folder (identical to "@ + o + ")"@,
    }
}

/// Where a job puts its file, given what exists.
pub open spec fn destination(root: Seq<char>, fs: Set<PathView>, job: JobView) -> PathView {
    unique_path(fs, PathView { dir: joined(root, job.folder), name: job.source.name })
}

/// One job of a pass. A file that lies in its folder already is left alone.
/// A dry run only says what it would do. Otherwise the file is moved, if it
/// exists and its destination does not: the folder is made where it is
/// missing, and the move is said and recorded. A move that cannot be made
/// leaves everything as it was and says nothing.
pub open spec fn step(root: Seq<char>, st: PassState, job: JobView, dry_run: bool) -> PassState {
    let dest = destination(root, st.fs, job);
    if job.source.dir == joined(root, job.folder) {
        st
    } else if dry_run {
        PassState { actions: st.actions.push(action_text(job, true)), ..st }
    } else if st.fs.contains(job.source) && !st.fs.contains(dest) {
        PassState {
            fs: st.fs.remove(job.source).insert(PathView { dir: root, name: job.folder }).insert(dest),
            actions: st.actions.push(action_text(job, false)),
            folders: st.folders,
            moves: st.moves.push(MoveView { from: job.source, to: dest }),
        }
    } else {
        st
    }
}

/// The first `n` jobs, one after the other.
pub open spec fn run(root: Seq<char>, st: PassState, jobs: Seq<JobView>, n: int, dry_run: bool) -> PassState
    decreases n,
{
    if n <= 0 {
        st
    } else {
        step(root, run(root, st, jobs, n - 1, dry_run), jobs[n - 1], dry_run)
    }
}

/// The folder of the duplicates, made between the two halves of a pass
/// that is no dry run and was given a group.
pub open spec fn with_duplicates_folder(root: Seq<char>, st: PassState, dups: Seq<GroupView>, dry_run: bool) -> PassState {
    let folder = PathView { dir: root, name: duplicates_folder() };
    if dups.len() == 0 || dry_run {
        st
    } else if st.fs.contains(folder) {
        st
    } else {
        PassState { fs: st.fs.insert(folder), folders: st.folders.push(folder), ..st }
    }
}

/// A whole pass: the entries that are no redundant copies go to the folders
/// of their categories, then the redundant copies go to the folder of the
/// duplicates.
pub open spec fn organized(
    root: Seq<char>,
    fs: Set<PathView>,
    entries: Seq<EntryView>,
    dups: Seq<GroupView>,
    dry_run: bool,
) -> PassState {
    let jobs = normal_jobs(entries, dups, entries.len() as int);
    let first = run(root, fresh(fs), jobs, jobs.len() as int, dry_run);
    let second = duplicate_jobs(dups, dups.len() as int);
    run(root, with_duplicates_folder(root, first, dups, dry_run), second, second.len() as int, dry_run)
}

/// One category folder of a pass: it is made, and that is said, where it
/// does not exist.
pub open spec fn folder_step(root: Seq<char>, st: PassState, name: Seq<char>) -> PassState {
    let folder = PathView { dir: root, name };
    if st.fs.contains(folder) {
        st
    } else {
        PassState {
            fs: st.fs.insert(folder),
            actions: st.actions.push("Created category folder: "@ + name),
            folders: st.folders.push(folder),
            moves: st.moves,
        }
    }
}

/// The first `n` category folders, one after the other.
pub open spec fn folders_made(root: Seq<char>, st: PassState, names: Seq<&str>, n: int) -> PassState
    decreases n,
{
    if n <= 0 {
        st
    } else {
        folder_step(root, folders_made(root, st, names, n - 1), names[n - 1]@)
    }
}

/// The folders that were made and what was said of them.
#[derive(Debug)]
pub struct FolderCreation {
    pub actions: Vec<String>,
    pub created: Vec<FilePath>,
}

/// Joins a folder and a name inside it with a slash.
pub fn join(dir: &str, name: &str) -> (r: String)
    ensures
        r@ == joined(dir@, name@),
{
    let mut s = dir.to_owned();
    s.append("/");
    s.append(name);
    proof {
        reveal_strlit("/");
        assert("/"@ =~= seq!['/']);
    }
    s
}

/// What a pass says of a job.
pub fn describe(job: &Job, dry_run: bool) -> (r: String)
    ensures
        r@ == action_text(job@, dry_run),
{
    match &job.canonical {
        None => {
            let mut s = if dry_run {
                "Would move ".to_owned()
            } else {
                "Moved ".to_owned()
            };
            s.append(job.source.name.as_str());
            s.append(" to ");
            s.append(job.folder.as_str());
            s.append(" folder");
            s
        },
        Some(o) => {
            let mut s = if dry_run {
                "Would move duplicate ".to_owned()
            } else {
                "Moved duplicate ".to_owned()
            };
            s.append(job.source.name.as_str());
            s.append(" to ");
            s.append(job.folder.as_str());
            s.append(" folder (identical to ");
            s.append(o.as_str());
            s.append(")");
            s
        },
    }
}

/// Whether a path is that of a redundant copy.
pub fn in_skip_set(duplicates: &Vec<DuplicateGroup>, p: &FilePath) -> (r: bool)
    ensures
        r == is_redundant(group_views(duplicates@), p@),
{
    let mut g: usize = 0;
    while g < duplicates.len()
        invariant
            g <= duplicates.len(),
            forall|a: int, k: int| 0 <= a < g && 1 <= k < duplicates[a].files.len() ==> (#[trigger] duplicates[a].files[k])@.path != p@,
        decreases duplicates.len() - g,
    {
        let mut k: usize = 1;
        while k < duplicates[g].files.len()
            invariant
                g < duplicates.len(),
                1 <= k,
                forall|a: int, k: int| 0 <= a < g && 1 <= k < duplicates[a].files.len() ==> (#[trigger] duplicates[a].files[k])@.path != p@,
                forall|j: int| 1 <= j < k && j < duplicates[g as int].files.len() ==> (#[trigger] duplicates[g as int].files[j])@.path != p@,
            decreases duplicates[g as int].files.len() - k,
        {
            if duplicates[g].files[k].path.same_as(p) {
                assert(group_views(duplicates@)[g as int].files[k as int].path == p@);
                return true;
            }
            k += 1;
        }
        g += 1;
    }
    assert forall|a: int, k: int| 0 <= a < group_views(duplicates@).len() && 1 <= k < group_views(duplicates@)[a].files.len() implies (#[trigger] group_views(
        duplicates@,
    )[a].files[k]).path != p@ by {
        assert(duplicates[a].files[k]@.path != p@);
    }
    false
}

impl Organizer {
    pub fn new(folder_path: String, verbose: bool) -> (r: Self)
        ensures
            r.folder_path == folder_path,
            r.verbose == verbose,
    {
        Self { folder_path, verbose }
    }

    /// The jobs for the entries that are no redundant copies.
    pub fn plan_entries(entries: &Vec<FileEntry>, duplicates: &Vec<DuplicateGroup>) -> (r: Vec<Job>)
        ensures
            job_views(r@) == normal_jobs(entry_views(entries@), group_views(duplicates@), entries.len() as int),
    {
        let mut jobs: Vec<Job> = Vec::new();
        let mut i: usize = 0;
        assert(job_views(jobs@) =~= Seq::<JobView>::empty());
        while i < entries.len()
            invariant
                i <= entries.len(),
                job_views(jobs@) == normal_jobs(entry_views(entries@), group_views(duplicates@), i as int),
            decreases entries.len() - i,
        {
            if !in_skip_set(duplicates, &entries[i].path) {
                let ghost before = job_views(jobs@);
                let job = Job {
                    source: entries[i].path.clone(),
                    folder: entries[i].category.as_str().to_owned(),
                    canonical: None,
                };
                jobs.push(job);
                assert(job_views(jobs@) =~= before.push(jobs@[before.len() as int]@));
            }
            i += 1;
        }
        jobs
    }

    /// The jobs for the redundant copies.
    pub fn plan_duplicates(duplicates: &Vec<DuplicateGroup>) -> (r: Vec<Job>)
        ensures
            job_views(r@) == duplicate_jobs(group_views(duplicates@), duplicates.len() as int),
    {
        let mut jobs: Vec<Job> = Vec::new();
        let mut g: usize = 0;
        assert(job_views(jobs@) =~= Seq::<JobView>::empty());
        while g < duplicates.len()
            invariant
                g <= duplicates.len(),
                job_views(jobs@) == duplicate_jobs(group_views(duplicates@), g as int),
            decreases duplicates.len() - g,
        {
            let group = &duplicates[g];
            let ghost base = job_views(jobs@);
            let ghost gv = group_views(duplicates@)[g as int];
            assert(gv == group@);
            let mut k: usize = 1;
            assert(base + group_jobs(gv, 1) =~= base);
            while k < group.files.len()
                invariant
                    1 <= k,
                    gv == group@,
                    k <= group.files.len() || k == 1,
                    job_views(jobs@) == base + group_jobs(gv, k as int),
                decreases group.files.len() - k,
            {
                let ghost before = job_views(jobs@);
                let job = Job {
                    source: group.files[k].path.clone(),
                    folder: "Duplicates".to_owned(),
                    canonical: Some(group.files[0].path.name.clone()),
                };
                jobs.push(job);
                assert(job_views(jobs@) =~= before.push(jobs@[before.len() as int]@));
                assert(before.push(jobs@[before.len() as int]@) =~= base + group_jobs(gv, k as int + 1));
                k += 1;
            }
            assert(gv.files.len() == group.files.len());
            assert(group_jobs(gv, k as int) == group_jobs(gv, gv.files.len() as int)) by {
                if group.files.len() == 0 {
                    assert(group_jobs(gv, 1) =~= group_jobs(gv, 0));
                }
            }
            g += 1;
        }
        jobs
    }

    /// Moves a file in the snapshot. `parent` is the folder in which the
    /// destination lies. The move is made where the file exists and the
    /// destination does not: the folder of the destination is made where it
    /// is missing, and the file lies at the destination afterwards and no
    /// longer at its old place. Otherwise nothing changes.
    pub fn safe_move(&self, fs: &mut DirSnapshot, source: &FilePath, dest: &FilePath, parent: &FilePath) -> (moved: bool)
        requires
            dest@.dir == joined(parent@.dir, parent@.name),
        ensures
            moved == (old(fs)@.contains(source@) && !old(fs)@.contains(dest@)),
            final(fs)@ == (if moved {
                old(fs)@.remove(source@).insert(parent@).insert(dest@)
            } else {
                old(fs)@
            }),
    {
        if fs.contains(source) && !fs.contains(dest) {
            fs.remove(source);
            fs.add(parent.clone());
            fs.add(dest.clone());
            true
        } else {
            false
        }
    }

    /// Does one job of a pass.
    pub fn perform(&self, pass: &mut Pass, job: &Job, dry_run: bool)
        ensures
            final(pass)@ == step(self.folder_path@, old(pass)@, job@, dry_run),
    {
        let folder_dir = join(self.folder_path.as_str(), job.folder.as_str());
        if job.source.dir == folder_dir {
            return ;
        }
        let target = FilePath { dir: folder_dir, name: job.source.name.clone() };
        let dest = self.get_unique_path(&target, &pass.snapshot);
        if dry_run {
            let ghost before = pass.actions@;
            pass.actions.push(describe(job, true));
            assert(texts(pass.actions@) =~= texts(before).push(action_text(job@, true)));
        } else {
            let parent = FilePath { dir: self.folder_path.clone(), name: job.folder.clone() };
            proof {
                lemma_unique_path_dir(old(pass)@.fs, target@);
            }
            if self.safe_move(&mut pass.snapshot, &job.source, &dest, &parent) {
                let ghost before = pass.actions@;
                let ghost moved = pass.moves@;
                pass.actions.push(describe(job, false));
                pass.moves.push(Move { from: job.source.clone(), to: dest });
                assert(texts(pass.actions@) =~= texts(before).push(action_text(job@, false)));
                assert(move_views(pass.moves@) =~= move_views(moved).push(pass.moves@[moved.len() as int]@));
            }
        }
    }

    /// Does the jobs of a pass, one after the other.
    pub fn perform_all(&self, pass: &mut Pass, jobs: &Vec<Job>, dry_run: bool)
        ensures
            final(pass)@ == run(self.folder_path@, old(pass)@, job_views(jobs@), jobs.len() as int, dry_run),
    {
        let mut i: usize = 0;
        while i < jobs.len()
            invariant
                i <= jobs.len(),
                pass@ == run(self.folder_path@, old(pass)@, job_views(jobs@), i as int, dry_run),
            decreases jobs.len() - i,
        {
            self.perform(pass, &jobs[i], dry_run);
            i += 1;
        }
    }

    /// Makes the folder of each category that has none yet, in the snapshot,
    /// and says which it made.
    pub fn create_category_folders(&self, categories: &[&str], fs: &mut DirSnapshot) -> (r: FolderCreation)
        ensures
            final(fs)@ == folders_made(self.folder_path@, fresh(old(fs)@), categories@, categories.len() as int).fs,
            texts(r.actions@) == folders_made(self.folder_path@, fresh(old(fs)@), categories@, categories.len() as int).actions,
            path_views(r.created@) == folders_made(self.folder_path@, fresh(old(fs)@), categories@, categories.len() as int).folders,
    {
        let mut actions: Vec<String> = Vec::new();
        let mut created: Vec<FilePath> = Vec::new();
        let mut i: usize = 0;
        assert(texts(actions@) =~= Seq::<Seq<char>>::empty());
        assert(path_views(created@) =~= Seq::<PathView>::empty());
        while i < categories.len()
            invariant
                i <= categories.len(),
                fs@ == folders_made(self.folder_path@, fresh(old(fs)@), categories@, i as int).fs,
                texts(actions@) == folders_made(self.folder_path@, fresh(old(fs)@), categories@, i as int).actions,
                path_views(created@) == folders_made(self.folder_path@, fresh(old(fs)@), categories@, i as int).folders,
            decreases categories.len() - i,
        {
            let folder = FilePath::new(self.folder_path.as_str(), categories[i]);
            if !fs.contains(&folder) {
                let ghost said = actions@;
                let ghost made = created@;
                let mut text = "Created category folder: ".to_owned();
                text.append(categories[i]);
                actions.push(text);
                created.push(folder.clone());
                fs.add(folder);
                assert(texts(actions@) =~= texts(said).push("Created category folder: "@ + categories@[i as int]@));
                assert(path_views(created@) =~= path_views(made).push(created@[made.len() as int]@));
            }
            i += 1;
        }
        FolderCreation { actions, created }
    }

    /// Runs one pass over the snapshot. The entries that are no redundant
    /// copies go to the folders of their categories, then the redundant
    /// copies go to the folder of the duplicates, each under a name that is
    /// free at that moment. A dry run says what it would do and changes
    /// nothing: it names each destination as the snapshot stands, whatever
    /// it said before.
    pub fn organize_files(
        &self,
        entries: &Vec<FileEntry>,
        duplicates: &Vec<DuplicateGroup>,
        dry_run: bool,
        fs: &mut DirSnapshot,
    ) -> (r: OrganizationSummary)
        ensures
            final(fs)@ == organized(self.folder_path@, old(fs)@, entry_views(entries@), group_views(duplicates@), dry_run).fs,
            texts(r.actions_taken@) == organized(
                self.folder_path@,
                old(fs)@,
                entry_views(entries@),
                group_views(duplicates@),
                dry_run,
            ).actions,
            path_views(r.created_folders@) == organized(
                self.folder_path@,
                old(fs)@,
                entry_views(entries@),
                group_views(duplicates@),
                dry_run,
            ).folders,
            move_views(r.moves@) == organized(
                self.folder_path@,
                old(fs)@,
                entry_views(entries@),
                group_views(duplicates@),
                dry_run,
            ).moves,
            group_views(r.duplicates_found@) == group_views(duplicates@),
            dry_run ==> final(fs)@ == old(fs)@ && r.moves.len() == 0 && r.created_folders.len() == 0,
            !dry_run ==> r.actions_taken.len() == r.moves.len(),
    {
        proof {
            law_dry_run_changes_nothing(self.folder_path@, fs@, entry_views(entries@), group_views(duplicates@));
            law_actions_follow_moves(self.folder_path@, fs@, entry_views(entries@), group_views(duplicates@));
        }
        let mut pass = Pass { snapshot: fs.copy(), actions: Vec::new(), folders: Vec::new(), moves: Vec::new() };
        proof {
            assert(texts(pass.actions@) =~= Seq::<Seq<char>>::empty());
            assert(path_views(pass.folders@) =~= Seq::<PathView>::empty());
            assert(move_views(pass.moves@) =~= Seq::<MoveView>::empty());
        }
        let first = Self::plan_entries(entries, duplicates);
        self.perform_all(&mut pass, &first, dry_run);
        if duplicates.len() > 0 && !dry_run {
            let folder = FilePath::new(self.folder_path.as_str(), "Duplicates");
            if !pass.snapshot.contains(&folder) {
                let ghost made = pass.folders@;
                pass.folders.push(folder.clone());
                pass.snapshot.add(folder);
                assert(path_views(pass.folders@) =~= path_views(made).push(pass.folders@[made.len() as int]@));
            }
        }
        let second = Self::plan_duplicates(duplicates);
        self.perform_all(&mut pass, &second, dry_run);
        let mut found: Vec<DuplicateGroup> = Vec::new();
        let mut g: usize = 0;
        while g < duplicates.len()
            invariant
                g <= duplicates.len(),
                found.len() == g,
                forall|h: int| 0 <= h < g ==> (#[trigger] found[h])@ == duplicates[h]@,
            decreases duplicates.len() - g,
        {
            found.push(duplicates[g].clone());
            g += 1;
        }
        assert(group_views(found@) =~= group_views(duplicates@));
        *fs = pass.snapshot;
        OrganizationSummary {
            actions_taken: pass.actions,
            duplicates_found: found,
            created_folders: pass.folders,
            moves: pass.moves,
        }
    }
}

} // verus!
