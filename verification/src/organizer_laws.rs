use vstd::prelude::*;
use crate::organizer::{
    JobView, PassState, action_text, destination, duplicate_jobs, duplicates_folder, fresh, group_jobs, is_redundant, normal_jobs,
    organized, run, step, with_duplicates_folder,
};
use crate::path_resolver::unique_path;
use crate::file_analyzer::{DirItem, count_supported, files_of, filled_categories, item_category};
use crate::types::{EntryView, FileCategory, GroupView, PathView, category_name, joined};

verus! {

/// Whether every entry lies directly in the folder `root`.
pub open spec fn entries_at_top(root: Seq<char>, entries: Seq<EntryView>) -> bool {
    forall|i: int| 0 <= i < entries.len() ==> (#[trigger] entries[i]).path.dir == root
}

/// Whether every member of every group lies directly in the folder `root`.
pub open spec fn groups_at_top(root: Seq<char>, dups: Seq<GroupView>) -> bool {
    forall|g: int, k: int| 0 <= g < dups.len() && 0 <= k < dups[g].files.len() ==> (#[trigger] dups[g].files[k]).path.dir == root
}

/// Whether every job takes a file that lies directly in the folder `root`.
pub open spec fn jobs_at_top(root: Seq<char>, jobs: Seq<JobView>) -> bool {
    forall|k: int| 0 <= k < jobs.len() ==> (#[trigger] jobs[k]).source.dir == root
}

/// Whether the moves so far went to places that all differ, that lie
/// outside the folder `root` itself, and that still exist.
pub open spec fn moves_apart(root: Seq<char>, st: PassState) -> bool {
    &&& forall|k: int| 0 <= k < st.moves.len() ==> st.fs.contains((#[trigger] st.moves[k]).to) && st.moves[k].to.dir != root
    &&& forall|a: int, b: int| 0 <= a < b < st.moves.len() ==> (#[trigger] st.moves[a]).to != (#[trigger] st.moves[b]).to
}

/// Whether every job lies in its folder already.
pub open spec fn jobs_settled(root: Seq<char>, jobs: Seq<JobView>) -> bool {
    forall|k: int| 0 <= k < jobs.len() ==> (#[trigger] jobs[k]).source.dir == joined(root, jobs[k].folder)
}

/// A free path lies in the folder of the path that was asked for.
pub proof fn lemma_unique_path_dir(fs: Set<PathView>, target: PathView)
    ensures
        unique_path(fs, target).dir == target.dir,
{
}

/// A folder inside a folder is not that folder.
pub proof fn lemma_joined_differs(root: Seq<char>, name: Seq<char>)
    ensures
        joined(root, name) != root,
{
    assert(joined(root, name).len() == root.len() + 1 + name.len());
}

proof fn lemma_step_apart(root: Seq<char>, st: PassState, job: JobView)
    requires
        moves_apart(root, st),
        job.source.dir == root,
    ensures
        moves_apart(root, step(root, st, job, false)),
{
    let next = step(root, st, job, false);
    let dest = destination(root, st.fs, job);
    lemma_unique_path_dir(st.fs, PathView { dir: joined(root, job.folder), name: job.source.name });
    lemma_joined_differs(root, job.folder);
    if next != st {
        assert(next.moves == st.moves.push(crate::types::MoveView { from: job.source, to: dest }));
        assert forall|k: int| 0 <= k < next.moves.len() implies next.fs.contains((#[trigger] next.moves[k]).to) && next.moves[k].to.dir
            != root by {
            if k < st.moves.len() {
                assert(next.moves[k] == st.moves[k]);
                assert(st.moves[k].to != job.source);
            }
        }
        assert forall|a: int, b: int| 0 <= a < b < next.moves.len() implies (#[trigger] next.moves[a]).to != (#[trigger] next.moves[b]).to by {
            assert(next.moves[a] == st.moves[a]);
            if b < st.moves.len() {
                assert(next.moves[b] == st.moves[b]);
            } else {
                assert(st.fs.contains(st.moves[a].to));
            }
        }
    }
}

proof fn lemma_run_apart(root: Seq<char>, st: PassState, jobs: Seq<JobView>, n: int)
    requires
        moves_apart(root, st),
        jobs_at_top(root, jobs),
        0 <= n <= jobs.len(),
    ensures
        moves_apart(root, run(root, st, jobs, n, false)),
    decreases n,
{
    if n > 0 {
        lemma_run_apart(root, st, jobs, n - 1);
        lemma_step_apart(root, run(root, st, jobs, n - 1, false), jobs[n - 1]);
    }
}

proof fn lemma_normal_jobs_at_top(root: Seq<char>, entries: Seq<EntryView>, dups: Seq<GroupView>, n: int)
    requires
        entries_at_top(root, entries),
        0 <= n <= entries.len(),
    ensures
        jobs_at_top(root, normal_jobs(entries, dups, n)),
    decreases n,
{
    if n > 0 {
        lemma_normal_jobs_at_top(root, entries, dups, n - 1);
    }
}

proof fn lemma_group_jobs_at_top(root: Seq<char>, dups: Seq<GroupView>, g: int, k: int)
    requires
        groups_at_top(root, dups),
        0 <= g < dups.len(),
        0 <= k <= dups[g].files.len(),
    ensures
        jobs_at_top(root, group_jobs(dups[g], k)),
    decreases k,
{
    if k > 1 {
        lemma_group_jobs_at_top(root, dups, g, k - 1);
        assert(dups[g].files[k - 1].path.dir == root);
    }
}

proof fn lemma_duplicate_jobs_at_top(root: Seq<char>, dups: Seq<GroupView>, g: int)
    requires
        groups_at_top(root, dups),
        0 <= g <= dups.len(),
    ensures
        jobs_at_top(root, duplicate_jobs(dups, g)),
    decreases g,
{
    if g > 0 {
        lemma_duplicate_jobs_at_top(root, dups, g - 1);
        lemma_group_jobs_at_top(root, dups, g - 1, dups[g - 1].files.len() as int);
    }
}

/// No two moves of one pass go to the same place. This holds of a pass
/// over files that lie directly in the folder that is being put in order.
pub proof fn law_destinations_differ(
    root: Seq<char>,
    fs: Set<PathView>,
    entries: Seq<EntryView>,
    dups: Seq<GroupView>,
    a: int,
    b: int,
)
    requires
        entries_at_top(root, entries),
        groups_at_top(root, dups),
        0 <= a < b < organized(root, fs, entries, dups, false).moves.len(),
    ensures
        organized(root, fs, entries, dups, false).moves[a].to != organized(root, fs, entries, dups, false).moves[b].to,
{
    let jobs = normal_jobs(entries, dups, entries.len() as int);
    lemma_normal_jobs_at_top(root, entries, dups, entries.len() as int);
    lemma_run_apart(root, fresh(fs), jobs, jobs.len() as int);
    let first = run(root, fresh(fs), jobs, jobs.len() as int, false);
    let between = with_duplicates_folder(root, first, dups, false);
    assert(moves_apart(root, between));
    let second = duplicate_jobs(dups, dups.len() as int);
    lemma_duplicate_jobs_at_top(root, dups, dups.len() as int);
    lemma_run_apart(root, between, second, second.len() as int);
}

/// Whether nothing was overwritten so far: what existed below the folder
/// `root` before the pass, `fs`, still exists, and no move went to a place
/// that existed before the pass.
pub open spec fn nothing_overwritten(root: Seq<char>, fs: Set<PathView>, st: PassState) -> bool {
    &&& forall|q: PathView| fs.contains(q) && q.dir != root ==> st.fs.contains(q)
    &&& forall|k: int| 0 <= k < st.moves.len() ==> !fs.contains((#[trigger] st.moves[k]).to)
}

proof fn lemma_step_overwrites_nothing(root: Seq<char>, fs: Set<PathView>, st: PassState, job: JobView)
    requires
        nothing_overwritten(root, fs, st),
        job.source.dir == root,
    ensures
        nothing_overwritten(root, fs, step(root, st, job, false)),
{
    let next = step(root, st, job, false);
    let dest = destination(root, st.fs, job);
    lemma_unique_path_dir(st.fs, PathView { dir: joined(root, job.folder), name: job.source.name });
    lemma_joined_differs(root, job.folder);
    if next != st {
        assert(next.moves == st.moves.push(crate::types::MoveView { from: job.source, to: dest }));
        assert forall|k: int| 0 <= k < next.moves.len() implies !fs.contains((#[trigger] next.moves[k]).to) by {
            if k < st.moves.len() {
                assert(next.moves[k] == st.moves[k]);
            }
        }
    }
}

proof fn lemma_run_overwrites_nothing(root: Seq<char>, fs: Set<PathView>, st: PassState, jobs: Seq<JobView>, n: int)
    requires
        nothing_overwritten(root, fs, st),
        jobs_at_top(root, jobs),
        0 <= n <= jobs.len(),
    ensures
        nothing_overwritten(root, fs, run(root, st, jobs, n, false)),
    decreases n,
{
    if n > 0 {
        lemma_run_overwrites_nothing(root, fs, st, jobs, n - 1);
        lemma_step_overwrites_nothing(root, fs, run(root, st, jobs, n - 1, false), jobs[n - 1]);
    }
}

/// No move of a pass overwrites anything: no move goes to a place that
/// existed before the pass, and what existed in the folders below the one
/// that is being put in order still exists afterwards. With
/// `law_destinations_differ`, every move goes to a place of its own. This
/// holds of a pass over files that lie directly in the folder that is being
/// put in order.
pub proof fn law_moves_overwrite_nothing(root: Seq<char>, fs: Set<PathView>, entries: Seq<EntryView>, dups: Seq<GroupView>)
    requires
        entries_at_top(root, entries),
        groups_at_top(root, dups),
    ensures
        nothing_overwritten(root, fs, organized(root, fs, entries, dups, false)),
{
    let jobs = normal_jobs(entries, dups, entries.len() as int);
    lemma_normal_jobs_at_top(root, entries, dups, entries.len() as int);
    lemma_run_overwrites_nothing(root, fs, fresh(fs), jobs, jobs.len() as int);
    let first = run(root, fresh(fs), jobs, jobs.len() as int, false);
    let between = with_duplicates_folder(root, first, dups, false);
    assert(nothing_overwritten(root, fs, between));
    let second = duplicate_jobs(dups, dups.len() as int);
    lemma_duplicate_jobs_at_top(root, dups, dups.len() as int);
    lemma_run_overwrites_nothing(root, fs, between, second, second.len() as int);
}

/// The jobs of a whole pass: those for the entries, then those for the
/// redundant copies.
pub open spec fn all_jobs(entries: Seq<EntryView>, dups: Seq<GroupView>) -> Seq<JobView> {
    normal_jobs(entries, dups, entries.len() as int) + duplicate_jobs(dups, dups.len() as int)
}

/// Whether the action at place `k` is what is said of a job that takes the
/// file of the move at place `k`.
pub open spec fn said_of_move(st: PassState, jobs: Seq<JobView>, k: int) -> bool {
    exists|j: int| 0 <= j < jobs.len() && (#[trigger] jobs[j]).source == st.moves[k].from && st.actions[k] == action_text(jobs[j], false)
}

/// Whether the actions and the moves of a pass go together: there are as
/// many of the one as of the other, and the action at each place is what is
/// said of a job that takes the file of the move at that place.
pub open spec fn log_follows_moves(st: PassState, jobs: Seq<JobView>) -> bool {
    &&& st.actions.len() == st.moves.len()
    &&& forall|k: int| 0 <= k < st.moves.len() ==> #[trigger] said_of_move(st, jobs, k)
}

proof fn lemma_run_log(root: Seq<char>, st: PassState, jobs: Seq<JobView>, n: int, all: Seq<JobView>, off: int)
    requires
        log_follows_moves(st, all),
        0 <= n <= jobs.len(),
        0 <= off,
        off + jobs.len() <= all.len(),
        forall|i: int| 0 <= i < jobs.len() ==> all[off + i] == #[trigger] jobs[i],
    ensures
        log_follows_moves(run(root, st, jobs, n, false), all),
    decreases n,
{
    if n > 0 {
        lemma_run_log(root, st, jobs, n - 1, all, off);
        let before = run(root, st, jobs, n - 1, false);
        let job = jobs[n - 1];
        let next = step(root, before, job, false);
        if next != before {
            let dest = destination(root, before.fs, job);
            assert(next.moves == before.moves.push(crate::types::MoveView { from: job.source, to: dest }));
            assert(next.actions == before.actions.push(action_text(job, false)));
            assert forall|k: int| 0 <= k < next.moves.len() implies #[trigger] said_of_move(next, all, k) by {
                if k < before.moves.len() {
                    assert(said_of_move(before, all, k));
                    assert(next.moves[k] == before.moves[k]);
                    assert(next.actions[k] == before.actions[k]);
                    let j = choose|j: int| 0 <= j < all.len() && (#[trigger] all[j]).source == before.moves[k].from && before.actions[k] == action_text(
                        all[j],
                        false,
                    );
                    assert(all[j].source == next.moves[k].from && next.actions[k] == action_text(all[j], false));
                } else {
                    assert(all[off + n - 1] == job);
                    assert(all[off + n - 1].source == next.moves[k].from && next.actions[k] == action_text(all[off + n - 1], false));
                }
            }
        }
    }
}

/// In a pass that is no dry run there is one action for each move, in the
/// same order: the action at each place is what is said of a job of the pass
/// that takes the file of the move at that place.
pub proof fn law_actions_follow_moves(root: Seq<char>, fs: Set<PathView>, entries: Seq<EntryView>, dups: Seq<GroupView>)
    ensures
        log_follows_moves(organized(root, fs, entries, dups, false), all_jobs(entries, dups)),
{
    let jobs = normal_jobs(entries, dups, entries.len() as int);
    let second = duplicate_jobs(dups, dups.len() as int);
    let all = all_jobs(entries, dups);
    lemma_run_log(root, fresh(fs), jobs, jobs.len() as int, all, 0);
    let first = run(root, fresh(fs), jobs, jobs.len() as int, false);
    let between = with_duplicates_folder(root, first, dups, false);
    assert(between.actions == first.actions && between.moves == first.moves);
    assert forall|k: int| 0 <= k < between.moves.len() implies #[trigger] said_of_move(between, all, k) by {
        assert(said_of_move(first, all, k));
    }
    lemma_run_log(root, between, second, second.len() as int, all, jobs.len() as int);
}

proof fn lemma_run_dry(root: Seq<char>, st: PassState, jobs: Seq<JobView>, n: int)
    ensures
        run(root, st, jobs, n, true).fs == st.fs,
        run(root, st, jobs, n, true).folders == st.folders,
        run(root, st, jobs, n, true).moves == st.moves,
    decreases n,
{
    if n > 0 {
        lemma_run_dry(root, st, jobs, n - 1);
    }
}

/// A dry run changes nothing: what exists afterwards is what existed
/// before, no folder is made and no file is moved, whatever it is given.
pub proof fn law_dry_run_changes_nothing(root: Seq<char>, fs: Set<PathView>, entries: Seq<EntryView>, dups: Seq<GroupView>)
    ensures
        organized(root, fs, entries, dups, true).fs == fs,
        organized(root, fs, entries, dups, true).folders.len() == 0,
        organized(root, fs, entries, dups, true).moves.len() == 0,
{
    let jobs = normal_jobs(entries, dups, entries.len() as int);
    lemma_run_dry(root, fresh(fs), jobs, jobs.len() as int);
    let first = run(root, fresh(fs), jobs, jobs.len() as int, true);
    let second = duplicate_jobs(dups, dups.len() as int);
    lemma_run_dry(root, first, second, second.len() as int);
}

proof fn lemma_run_settled(root: Seq<char>, st: PassState, jobs: Seq<JobView>, n: int, dry_run: bool)
    requires
        jobs_settled(root, jobs),
        0 <= n <= jobs.len(),
    ensures
        run(root, st, jobs, n, dry_run) == st,
    decreases n,
{
    if n > 0 {
        lemma_run_settled(root, st, jobs, n - 1, dry_run);
    }
}

/// Whether every entry that is no redundant copy lies in the folder of its
/// category, and every redundant copy in the folder of the duplicates.
pub open spec fn all_settled(root: Seq<char>, entries: Seq<EntryView>, dups: Seq<GroupView>) -> bool {
    &&& forall|i: int| 0 <= i < entries.len() && !is_redundant(dups, (#[trigger] entries[i]).path) ==> entries[i].path.dir == joined(
        root,
        category_name(entries[i].category),
    )
    &&& forall|g: int, k: int| 0 <= g < dups.len() && 1 <= k < dups[g].files.len() ==> (#[trigger] dups[g].files[k]).path.dir == joined(
        root,
        duplicates_folder(),
    )
}

proof fn lemma_normal_jobs_settled(root: Seq<char>, entries: Seq<EntryView>, dups: Seq<GroupView>, n: int)
    requires
        all_settled(root, entries, dups),
        0 <= n <= entries.len(),
    ensures
        jobs_settled(root, normal_jobs(entries, dups, n)),
    decreases n,
{
    if n > 0 {
        lemma_normal_jobs_settled(root, entries, dups, n - 1);
    }
}

proof fn lemma_group_jobs_settled(root: Seq<char>, entries: Seq<EntryView>, dups: Seq<GroupView>, g: int, k: int)
    requires
        all_settled(root, entries, dups),
        0 <= g < dups.len(),
        0 <= k <= dups[g].files.len(),
    ensures
        jobs_settled(root, group_jobs(dups[g], k)),
    decreases k,
{
    if k > 1 {
        lemma_group_jobs_settled(root, entries, dups, g, k - 1);
        assert(dups[g].files[k - 1].path.dir == joined(root, duplicates_folder()));
    }
}

proof fn lemma_duplicate_jobs_settled(root: Seq<char>, entries: Seq<EntryView>, dups: Seq<GroupView>, g: int)
    requires
        all_settled(root, entries, dups),
        0 <= g <= dups.len(),
    ensures
        jobs_settled(root, duplicate_jobs(dups, g)),
    decreases g,
{
    if g > 0 {
        lemma_duplicate_jobs_settled(root, entries, dups, g - 1);
        lemma_group_jobs_settled(root, entries, dups, g - 1, dups[g - 1].files.len() as int);
    }
}

/// A pass over files that lie where they belong does nothing to them: it
/// says nothing and moves nothing, in a dry run or not.
pub proof fn law_settled_pass_is_silent(
    root: Seq<char>,
    fs: Set<PathView>,
    entries: Seq<EntryView>,
    dups: Seq<GroupView>,
    dry_run: bool,
)
    requires
        all_settled(root, entries, dups),
    ensures
        organized(root, fs, entries, dups, dry_run).actions.len() == 0,
        organized(root, fs, entries, dups, dry_run).moves.len() == 0,
{
    let jobs = normal_jobs(entries, dups, entries.len() as int);
    lemma_normal_jobs_settled(root, entries, dups, entries.len() as int);
    lemma_run_settled(root, fresh(fs), jobs, jobs.len() as int, dry_run);
    let between = with_duplicates_folder(root, fresh(fs), dups, dry_run);
    let second = duplicate_jobs(dups, dups.len() as int);
    lemma_duplicate_jobs_settled(root, entries, dups, dups.len() as int);
    lemma_run_settled(root, between, second, second.len() as int, dry_run);
}

/// A pass that is given nothing does nothing.
pub proof fn law_empty_pass_is_silent(root: Seq<char>, fs: Set<PathView>, dry_run: bool)
    ensures
        organized(root, fs, Seq::empty(), Seq::empty(), dry_run) == fresh(fs),
{
    let entries = Seq::<EntryView>::empty();
    let dups = Seq::<GroupView>::empty();
    assert(normal_jobs(entries, dups, 0) =~= Seq::<JobView>::empty());
    assert(duplicate_jobs(dups, 0) =~= Seq::<JobView>::empty());
}

proof fn lemma_group_jobs_cover(group: GroupView, n: int, k: int)
    requires
        1 <= k < n <= group.files.len(),
    ensures
        group_jobs(group, n).len() == n - 1,
        group_jobs(group, n)[k - 1] == (JobView {
            source: group.files[k].path,
            folder: duplicates_folder(),
            canonical: Some(group.files[0].path.name),
        }),
    decreases n,
{
    if k < n - 1 {
        lemma_group_jobs_cover(group, n - 1, k);
    } else {
        lemma_group_jobs_len(group, n - 1);
    }
}

proof fn lemma_group_jobs_len(group: GroupView, n: int)
    requires
        1 <= n,
    ensures
        group_jobs(group, n).len() == n - 1,
    decreases n,
{
    if n > 1 {
        lemma_group_jobs_len(group, n - 1);
    }
}

/// Every member of a group but the first is sent to the folder of the
/// duplicates, as a copy of the first: among the jobs for the groups there is
/// one that takes it there.
pub proof fn law_others_go_to_duplicates(dups: Seq<GroupView>, n: int, g: int, k: int)
    requires
        0 <= g < n <= dups.len(),
        1 <= k < dups[g].files.len(),
    ensures
        duplicate_jobs(dups, n).contains(
            JobView {
                source: dups[g].files[k].path,
                folder: duplicates_folder(),
                canonical: Some(dups[g].files[0].path.name),
            },
        ),
    decreases n,
{
    let job = JobView {
        source: dups[g].files[k].path,
        folder: duplicates_folder(),
        canonical: Some(dups[g].files[0].path.name),
    };
    let prev = duplicate_jobs(dups, n - 1);
    let last = group_jobs(dups[n - 1], dups[n - 1].files.len() as int);
    if g == n - 1 {
        lemma_group_jobs_cover(dups[g], dups[g].files.len() as int, k);
        assert((prev + last)[prev.len() + k - 1] == job);
    } else {
        law_others_go_to_duplicates(dups, n - 1, g, k);
        let a = choose|a: int| 0 <= a < prev.len() && prev[a] == job;
        assert((prev + last)[a] == job);
    }
}

/// Whether a name is that of a folder that a pass fills.
pub open spec fn is_folder_name(name: Seq<char>) -> bool {
    name == duplicates_folder() || exists|c: crate::types::FileCategory| name == #[trigger] category_name(c)
}

/// Whether no entry bears the name of a folder that a pass fills.
pub open spec fn entries_plain(entries: Seq<EntryView>) -> bool {
    forall|i: int| 0 <= i < entries.len() ==> !is_folder_name((#[trigger] entries[i]).path.name)
}

/// Whether no member of a group bears the name of a folder that a pass
/// fills.
pub open spec fn groups_plain(dups: Seq<GroupView>) -> bool {
    forall|g: int, k: int| 0 <= g < dups.len() && 0 <= k < dups[g].files.len() ==> !is_folder_name((#[trigger] dups[g].files[k]).path.name)
}

/// Whether every job takes a file that lies directly in the folder `root`,
/// under a name that is no folder's, to one of the folders that a pass fills.
pub open spec fn jobs_plain(root: Seq<char>, jobs: Seq<JobView>) -> bool {
    forall|k: int| 0 <= k < jobs.len() ==> {
        &&& (#[trigger] jobs[k]).source.dir == root
        &&& !is_folder_name(jobs[k].source.name)
        &&& is_folder_name(jobs[k].folder)
    }
}

proof fn lemma_step_top(root: Seq<char>, st: PassState, job: JobView, q: PathView)
    requires
        q.dir == root,
        !is_folder_name(q.name),
        is_folder_name(job.folder),
        !st.fs.contains(q),
    ensures
        !step(root, st, job, false).fs.contains(q),
{
    lemma_unique_path_dir(st.fs, PathView { dir: joined(root, job.folder), name: job.source.name });
    lemma_joined_differs(root, job.folder);
}

proof fn lemma_step_clears(root: Seq<char>, st: PassState, job: JobView)
    requires
        st.fs.finite(),
        job.source.dir == root,
        !is_folder_name(job.source.name),
        is_folder_name(job.folder),
    ensures
        step(root, st, job, false).fs.finite(),
        !step(root, st, job, false).fs.contains(job.source),
{
    let target = PathView { dir: joined(root, job.folder), name: job.source.name };
    lemma_unique_path_dir(st.fs, target);
    crate::naming_laws::lemma_unique_path_free(st.fs, target);
    lemma_joined_differs(root, job.folder);
}

proof fn lemma_run_top(root: Seq<char>, st: PassState, jobs: Seq<JobView>, n: int, q: PathView)
    requires
        q.dir == root,
        !is_folder_name(q.name),
        jobs_plain(root, jobs),
        0 <= n <= jobs.len(),
        !st.fs.contains(q),
    ensures
        !run(root, st, jobs, n, false).fs.contains(q),
    decreases n,
{
    if n > 0 {
        lemma_run_top(root, st, jobs, n - 1, q);
        lemma_step_top(root, run(root, st, jobs, n - 1, false), jobs[n - 1], q);
    }
}

proof fn lemma_run_clears(root: Seq<char>, st: PassState, jobs: Seq<JobView>, n: int)
    requires
        st.fs.finite(),
        jobs_plain(root, jobs),
        0 <= n <= jobs.len(),
    ensures
        run(root, st, jobs, n, false).fs.finite(),
        forall|k: int| 0 <= k < n ==> !run(root, st, jobs, n, false).fs.contains((#[trigger] jobs[k]).source),
    decreases n,
{
    if n > 0 {
        lemma_run_clears(root, st, jobs, n - 1);
        let before = run(root, st, jobs, n - 1, false);
        lemma_step_clears(root, before, jobs[n - 1]);
        assert forall|k: int| 0 <= k < n implies !run(root, st, jobs, n, false).fs.contains((#[trigger] jobs[k]).source) by {
            if k < n - 1 {
                lemma_step_top(root, before, jobs[n - 1], jobs[k].source);
            }
        }
    }
}

proof fn lemma_normal_jobs_plain(root: Seq<char>, entries: Seq<EntryView>, dups: Seq<GroupView>, n: int)
    requires
        entries_at_top(root, entries),
        entries_plain(entries),
        0 <= n <= entries.len(),
    ensures
        jobs_plain(root, normal_jobs(entries, dups, n)),
        forall|i: int| 0 <= i < n && !is_redundant(dups, (#[trigger] entries[i]).path) ==> exists|k: int| 0 <= k < normal_jobs(entries, dups, n).len()
                && (#[trigger] normal_jobs(entries, dups, n)[k]).source == entries[i].path,
    decreases n,
{
    if n > 0 {
        lemma_normal_jobs_plain(root, entries, dups, n - 1);
        let prev = normal_jobs(entries, dups, n - 1);
        let now = normal_jobs(entries, dups, n);
        assert(is_folder_name(category_name(entries[n - 1].category)));
        assert forall|i: int| 0 <= i < n && !is_redundant(dups, (#[trigger] entries[i]).path) implies exists|k: int| 0 <= k < now.len() && (#[trigger] now[k]).source
            == entries[i].path by {
            if i < n - 1 {
                let k = choose|k: int| 0 <= k < prev.len() && (#[trigger] prev[k]).source == entries[i].path;
                assert(now[k].source == entries[i].path);
            } else {
                assert(now[now.len() - 1].source == entries[i].path);
            }
        }
    }
}

proof fn lemma_group_jobs_plain(root: Seq<char>, dups: Seq<GroupView>, g: int, k: int)
    requires
        groups_at_top(root, dups),
        groups_plain(dups),
        0 <= g < dups.len(),
        0 <= k <= dups[g].files.len(),
    ensures
        jobs_plain(root, group_jobs(dups[g], k)),
        forall|j: int| 1 <= j < k ==> exists|a: int| 0 <= a < group_jobs(dups[g], k).len() && (#[trigger] group_jobs(dups[g], k)[a]).source == (#[trigger] dups[g].files[j]).path,
    decreases k,
{
    if k > 1 {
        lemma_group_jobs_plain(root, dups, g, k - 1);
        let prev = group_jobs(dups[g], k - 1);
        let now = group_jobs(dups[g], k);
        assert(dups[g].files[k - 1].path.dir == root);
        assert(!is_folder_name(dups[g].files[k - 1].path.name));
        assert forall|j: int| 1 <= j < k implies exists|a: int| 0 <= a < now.len() && (#[trigger] now[a]).source == (#[trigger] dups[g].files[j]).path by {
            if j < k - 1 {
                let a = choose|a: int| 0 <= a < prev.len() && (#[trigger] prev[a]).source == dups[g].files[j].path;
                assert(now[a].source == dups[g].files[j].path);
            } else {
                assert(now[now.len() - 1].source == dups[g].files[j].path);
            }
        }
    }
}

proof fn lemma_duplicate_jobs_plain(root: Seq<char>, dups: Seq<GroupView>, n: int)
    requires
        groups_at_top(root, dups),
        groups_plain(dups),
        0 <= n <= dups.len(),
    ensures
        jobs_plain(root, duplicate_jobs(dups, n)),
        forall|g: int, j: int| 0 <= g < n && 1 <= j < dups[g].files.len() ==> exists|a: int| 0 <= a < duplicate_jobs(dups, n).len() && (#[trigger] duplicate_jobs(dups, n)[a]).source
                == (#[trigger] dups[g].files[j]).path,
    decreases n,
{
    if n > 0 {
        lemma_duplicate_jobs_plain(root, dups, n - 1);
        lemma_group_jobs_plain(root, dups, n - 1, dups[n - 1].files.len() as int);
        let prev = duplicate_jobs(dups, n - 1);
        let last = group_jobs(dups[n - 1], dups[n - 1].files.len() as int);
        let now = duplicate_jobs(dups, n);
        assert(now == prev + last);
        assert forall|g: int, j: int| 0 <= g < n && 1 <= j < dups[g].files.len() implies exists|a: int| 0 <= a < now.len() && (#[trigger] now[a]).source
            == (#[trigger] dups[g].files[j]).path by {
            if g < n - 1 {
                let a = choose|a: int| 0 <= a < prev.len() && (#[trigger] prev[a]).source == dups[g].files[j].path;
                assert(now[a] == prev[a]);
            } else {
                let a = choose|a: int| 0 <= a < last.len() && (#[trigger] last[a]).source == dups[g].files[j].path;
                assert(now[prev.len() + a] == last[a]);
            }
        }
    }
}

/// After a pass that is no dry run, none of the files it was given lies
/// where it lay: each was moved to its folder. A second scan of the folder
/// therefore finds none of them, and a second pass, over what that scan
/// finds, says and does nothing. This holds of a pass over finitely many
/// paths and over files that lie directly in the folder that is being put in
/// order, none of them under the name of a folder that the pass fills; a
/// first member of a group counts as given where it is among the entries.
pub proof fn law_second_pass_is_silent(root: Seq<char>, fs: Set<PathView>, entries: Seq<EntryView>, dups: Seq<GroupView>)
    requires
        fs.finite(),
        entries_at_top(root, entries),
        groups_at_top(root, dups),
        entries_plain(entries),
        groups_plain(dups),
    ensures
        forall|i: int| 0 <= i < entries.len() ==> !organized(root, fs, entries, dups, false).fs.contains((#[trigger] entries[i]).path),
        forall|g: int, k: int| 0 <= g < dups.len() && 1 <= k < dups[g].files.len() ==> !organized(root, fs, entries, dups, false).fs.contains(
            (#[trigger] dups[g].files[k]).path,
        ),
        organized(
            root,
            organized(root, fs, entries, dups, false).fs,
            still_there(entries, organized(root, fs, entries, dups, false).fs),
            Seq::empty(),
            false,
        ) == fresh(organized(root, fs, entries, dups, false).fs),
{
    let jobs = normal_jobs(entries, dups, entries.len() as int);
    lemma_normal_jobs_plain(root, entries, dups, entries.len() as int);
    lemma_run_clears(root, fresh(fs), jobs, jobs.len() as int);
    let first = run(root, fresh(fs), jobs, jobs.len() as int, false);
    let between = with_duplicates_folder(root, first, dups, false);
    assert(between.fs.finite());
    let second = duplicate_jobs(dups, dups.len() as int);
    lemma_duplicate_jobs_plain(root, dups, dups.len() as int);
    lemma_run_clears(root, between, second, second.len() as int);
    let after = organized(root, fs, entries, dups, false);
    assert(after == run(root, between, second, second.len() as int, false));
    assert forall|g: int, k: int| 0 <= g < dups.len() && 1 <= k < dups[g].files.len() implies !after.fs.contains((#[trigger] dups[g].files[k]).path) by {
        let a = choose|a: int| 0 <= a < second.len() && (#[trigger] second[a]).source == dups[g].files[k].path;
        assert(!after.fs.contains(second[a].source));
    }
    assert forall|i: int| 0 <= i < entries.len() implies !after.fs.contains((#[trigger] entries[i]).path) by {
        if is_redundant(dups, entries[i].path) {
            let (g, k) = choose|g: int, k: int| 0 <= g < dups.len() && 1 <= k < dups[g].files.len() && (#[trigger] dups[g].files[k]).path == entries[i].path;
            assert(!after.fs.contains(dups[g].files[k].path));
        } else {
            let k = choose|k: int| 0 <= k < jobs.len() && (#[trigger] jobs[k]).source == entries[i].path;
            assert(!first.fs.contains(jobs[k].source));
            assert(!is_folder_name(entries[i].path.name));
            assert(!between.fs.contains(entries[i].path));
            lemma_run_top(root, between, second, second.len() as int, entries[i].path);
        }
    }
    let rest = still_there(entries, after.fs);
    assert(rest.len() == 0) by {
        if rest.len() > 0 {
            let e = rest[0];
            entries.lemma_filter_pred(path_exists(after.fs), 0);
            assert(rest.contains(e));
            entries.lemma_filter_contains_rev(path_exists(after.fs), e);
            let i = choose|i: int| 0 <= i < entries.len() && entries[i] == e;
            assert(!after.fs.contains(entries[i].path));
        }
    }
    assert(rest =~= Seq::<EntryView>::empty());
    law_empty_pass_is_silent(root, after.fs, false);
}

/// The entries that a new scan still finds: those whose path exists.
pub open spec fn still_there(entries: Seq<EntryView>, fs: Set<PathView>) -> Seq<EntryView> {
    entries.filter(path_exists(fs))
}

/// The test whether the path of an entry exists.
pub open spec fn path_exists(fs: Set<PathView>) -> spec_fn(EntryView) -> bool {
    |e: EntryView| fs.contains(e.path)
}

/// Whether the file that lay at `q` was moved into the folder `folder` and
/// lies there.
pub open spec fn moved_into(root: Seq<char>, st: PassState, q: PathView, folder: Seq<char>) -> bool {
    exists|k: int| 0 <= k < st.moves.len() && (#[trigger] st.moves[k]).from == q && st.moves[k].to.dir == joined(root, folder) && st.fs.contains(
        st.moves[k].to,
    )
}

/// Whether every move of the file that lay at `q` went into the folder
/// `folder`, and every move at all went below the folder `root`.
pub open spec fn only_into(root: Seq<char>, st: PassState, q: PathView, folder: Seq<char>) -> bool {
    forall|k: int| 0 <= k < st.moves.len() ==> (#[trigger] st.moves[k]).to.dir != root && (st.moves[k].from == q ==> st.moves[k].to.dir == joined(
        root,
        folder,
    ))
}

proof fn lemma_step_settles(root: Seq<char>, st: PassState, job: JobView, q: PathView, folder: Seq<char>)
    requires
        st.fs.finite(),
        job.source.dir == root,
        !is_folder_name(job.source.name),
        is_folder_name(job.folder),
        q.dir == root,
        !is_folder_name(q.name),
        job.source == q ==> job.folder == folder,
        only_into(root, st, q, folder),
        st.fs.contains(q) || moved_into(root, st, q, folder),
    ensures
        step(root, st, job, false).fs.finite(),
        only_into(root, step(root, st, job, false), q, folder),
        step(root, st, job, false).fs.contains(q) || moved_into(root, step(root, st, job, false), q, folder),
        moved_into(root, st, q, folder) ==> moved_into(root, step(root, st, job, false), q, folder),
        job.source == q ==> moved_into(root, step(root, st, job, false), q, folder),
{
    let next = step(root, st, job, false);
    let target = PathView { dir: joined(root, job.folder), name: job.source.name };
    let dest = destination(root, st.fs, job);
    lemma_unique_path_dir(st.fs, target);
    crate::naming_laws::lemma_unique_path_free(st.fs, target);
    lemma_joined_differs(root, job.folder);
    if st.fs.contains(job.source) {
        assert(next.moves == st.moves.push(crate::types::MoveView { from: job.source, to: dest }));
        assert forall|k: int| 0 <= k < next.moves.len() implies (#[trigger] next.moves[k]).to.dir != root && (next.moves[k].from == q
            ==> next.moves[k].to.dir == joined(root, folder)) by {
            if k < st.moves.len() {
                assert(next.moves[k] == st.moves[k]);
            }
        }
        if moved_into(root, st, q, folder) {
            let k = choose|k: int| 0 <= k < st.moves.len() && (#[trigger] st.moves[k]).from == q && st.moves[k].to.dir == joined(root, folder)
                && st.fs.contains(st.moves[k].to);
            assert(next.moves[k] == st.moves[k]);
            assert(next.fs.contains(next.moves[k].to));
        }
        if job.source == q {
            let k = st.moves.len() as int;
            assert(next.moves[k].from == q && next.moves[k].to.dir == joined(root, folder) && next.fs.contains(next.moves[k].to));
        }
    } else {
        assert(next == st);
    }
}

proof fn lemma_run_settles(root: Seq<char>, st: PassState, jobs: Seq<JobView>, n: int, q: PathView, folder: Seq<char>)
    requires
        st.fs.finite(),
        jobs_plain(root, jobs),
        0 <= n <= jobs.len(),
        q.dir == root,
        !is_folder_name(q.name),
        forall|j: int| 0 <= j < jobs.len() && (#[trigger] jobs[j]).source == q ==> jobs[j].folder == folder,
        only_into(root, st, q, folder),
        st.fs.contains(q) || moved_into(root, st, q, folder),
    ensures
        run(root, st, jobs, n, false).fs.finite(),
        only_into(root, run(root, st, jobs, n, false), q, folder),
        run(root, st, jobs, n, false).fs.contains(q) || moved_into(root, run(root, st, jobs, n, false), q, folder),
        moved_into(root, st, q, folder) ==> moved_into(root, run(root, st, jobs, n, false), q, folder),
        (exists|j: int| 0 <= j < n && (#[trigger] jobs[j]).source == q) ==> moved_into(root, run(root, st, jobs, n, false), q, folder),
    decreases n,
{
    if n > 0 {
        lemma_run_settles(root, st, jobs, n - 1, q, folder);
        let before = run(root, st, jobs, n - 1, false);
        lemma_step_settles(root, before, jobs[n - 1], q, folder);
        if exists|j: int| 0 <= j < n && (#[trigger] jobs[j]).source == q {
            let j = choose|j: int| 0 <= j < n && (#[trigger] jobs[j]).source == q;
            if j < n - 1 {
                assert(moved_into(root, before, q, folder));
            }
        }
    }
}

proof fn lemma_normal_jobs_from_entries(entries: Seq<EntryView>, dups: Seq<GroupView>, n: int)
    requires
        0 <= n <= entries.len(),
    ensures
        forall|j: int| 0 <= j < normal_jobs(entries, dups, n).len() ==> exists|i: int| 0 <= i < n && (#[trigger] entries[i]).path == (#[trigger] normal_jobs(entries, dups, n)[j]).source
                && normal_jobs(entries, dups, n)[j].folder == category_name(entries[i].category) && !is_redundant(dups, entries[i].path),
    decreases n,
{
    if n > 0 {
        lemma_normal_jobs_from_entries(entries, dups, n - 1);
        let prev = normal_jobs(entries, dups, n - 1);
        let now = normal_jobs(entries, dups, n);
        assert forall|j: int| 0 <= j < now.len() implies exists|i: int| 0 <= i < n && (#[trigger] entries[i]).path == (#[trigger] now[j]).source && now[j].folder
            == category_name(entries[i].category) && !is_redundant(dups, entries[i].path) by {
            if j < prev.len() {
                assert(now[j] == prev[j]);
                let i = choose|i: int| 0 <= i < n - 1 && (#[trigger] entries[i]).path == prev[j].source && prev[j].folder == category_name(
                    entries[i].category,
                ) && !is_redundant(dups, entries[i].path);
                assert(entries[i].path == now[j].source);
            } else {
                assert(entries[n - 1].path == now[j].source);
            }
        }
    }
}

proof fn lemma_group_jobs_redundant(dups: Seq<GroupView>, g: int, k: int)
    requires
        0 <= g < dups.len(),
        0 <= k <= dups[g].files.len(),
    ensures
        forall|j: int| 0 <= j < group_jobs(dups[g], k).len() ==> is_redundant(dups, (#[trigger] group_jobs(dups[g], k)[j]).source) && group_jobs(
            dups[g],
            k,
        )[j].folder == duplicates_folder(),
    decreases k,
{
    if k > 1 {
        lemma_group_jobs_redundant(dups, g, k - 1);
        let prev = group_jobs(dups[g], k - 1);
        let now = group_jobs(dups[g], k);
        assert forall|j: int| 0 <= j < now.len() implies is_redundant(dups, (#[trigger] now[j]).source) && now[j].folder == duplicates_folder() by {
            if j < prev.len() {
                assert(now[j] == prev[j]);
            } else {
                assert(dups[g].files[k - 1].path == now[j].source);
            }
        }
    }
}

proof fn lemma_duplicate_jobs_redundant(dups: Seq<GroupView>, n: int)
    requires
        0 <= n <= dups.len(),
    ensures
        forall|j: int| 0 <= j < duplicate_jobs(dups, n).len() ==> is_redundant(dups, (#[trigger] duplicate_jobs(dups, n)[j]).source) && duplicate_jobs(
            dups,
            n,
        )[j].folder == duplicates_folder(),
    decreases n,
{
    if n > 0 {
        lemma_duplicate_jobs_redundant(dups, n - 1);
        lemma_group_jobs_redundant(dups, n - 1, dups[n - 1].files.len() as int);
        let prev = duplicate_jobs(dups, n - 1);
        let last = group_jobs(dups[n - 1], dups[n - 1].files.len() as int);
        let now = duplicate_jobs(dups, n);
        assert forall|j: int| 0 <= j < now.len() implies is_redundant(dups, (#[trigger] now[j]).source) && now[j].folder == duplicates_folder() by {
            if j < prev.len() {
                assert(now[j] == prev[j]);
            } else {
                assert(now[j] == last[j - prev.len()]);
            }
        }
    }
}

/// The folder in which a file belongs after a pass: that of the duplicates
/// for a redundant copy, else that of its category.
pub open spec fn folder_for(dups: Seq<GroupView>, entry: EntryView) -> Seq<char> {
    if is_redundant(dups, entry.path) {
        duplicates_folder()
    } else {
        category_name(entry.category)
    }
}

/// After a pass that is no dry run, every file that it was given and that
/// existed lies in the folder in which it belongs, and nowhere else: a
/// redundant copy in the folder of the duplicates, every other entry, the
/// first member of a group among them, in the folder of its category. The
/// pass moved it there, and it moved it to no other folder. This holds of a
/// pass over finitely many paths and over files that lie directly in the
/// folder that is being put in order, none of them under the name of a
/// folder that the pass fills, where a path that is entered twice is entered
/// under one category.
pub proof fn law_entry_settles(root: Seq<char>, fs: Set<PathView>, entries: Seq<EntryView>, dups: Seq<GroupView>, i: int)
    requires
        fs.finite(),
        entries_at_top(root, entries),
        groups_at_top(root, dups),
        entries_plain(entries),
        groups_plain(dups),
        0 <= i < entries.len(),
        fs.contains(entries[i].path),
        forall|j: int| 0 <= j < entries.len() && (#[trigger] entries[j]).path == entries[i].path ==> entries[j].category == entries[i].category,
    ensures
        moved_into(root, organized(root, fs, entries, dups, false), entries[i].path, folder_for(dups, entries[i])),
        only_into(root, organized(root, fs, entries, dups, false), entries[i].path, folder_for(dups, entries[i])),
        !organized(root, fs, entries, dups, false).fs.contains(entries[i].path),
{
    let q = entries[i].path;
    let folder = folder_for(dups, entries[i]);
    let jobs = normal_jobs(entries, dups, entries.len() as int);
    let second = duplicate_jobs(dups, dups.len() as int);
    lemma_normal_jobs_plain(root, entries, dups, entries.len() as int);
    lemma_normal_jobs_from_entries(entries, dups, entries.len() as int);
    lemma_duplicate_jobs_plain(root, dups, dups.len() as int);
    lemma_duplicate_jobs_redundant(dups, dups.len() as int);
    assert forall|j: int| 0 <= j < jobs.len() && (#[trigger] jobs[j]).source == q implies jobs[j].folder == folder by {
        let e = choose|e: int| 0 <= e < entries.len() && (#[trigger] entries[e]).path == jobs[j].source && jobs[j].folder == category_name(
            entries[e].category,
        ) && !is_redundant(dups, entries[e].path);
        assert(entries[e].category == entries[i].category);
    }
    lemma_run_settles(root, fresh(fs), jobs, jobs.len() as int, q, folder);
    let first = run(root, fresh(fs), jobs, jobs.len() as int, false);
    let between = with_duplicates_folder(root, first, dups, false);
    assert(only_into(root, between, q, folder));
    assert(moved_into(root, first, q, folder) ==> moved_into(root, between, q, folder)) by {
        if moved_into(root, first, q, folder) {
            let k = choose|k: int| 0 <= k < first.moves.len() && (#[trigger] first.moves[k]).from == q && first.moves[k].to.dir == joined(root, folder)
                && first.fs.contains(first.moves[k].to);
            assert(between.moves[k] == first.moves[k] && between.fs.contains(between.moves[k].to));
        }
    }
    assert forall|j: int| 0 <= j < second.len() && (#[trigger] second[j]).source == q implies second[j].folder == folder by {
        assert(is_redundant(dups, second[j].source));
    }
    lemma_run_settles(root, between, second, second.len() as int, q, folder);
    if is_redundant(dups, q) {
        let (g, k) = choose|g: int, k: int| 0 <= g < dups.len() && 1 <= k < dups[g].files.len() && (#[trigger] dups[g].files[k]).path == q;
        let a = choose|a: int| 0 <= a < second.len() && (#[trigger] second[a]).source == dups[g].files[k].path;
        assert(second[a].source == q);
    } else {
        let a = choose|a: int| 0 <= a < jobs.len() && (#[trigger] jobs[a]).source == entries[i].path;
        assert(jobs[a].source == q);
    }
    law_second_pass_is_silent(root, fs, entries, dups);
}

/// After a pass that is no dry run, every member of a group but the first
/// that existed lies in the folder of the duplicates: the pass moved it
/// there, and it moved it to no other folder. This holds of a pass over
/// finitely many paths and over files that lie directly in the folder that is
/// being put in order, none of them under the name of a folder that the pass
/// fills.
pub proof fn law_member_settles(root: Seq<char>, fs: Set<PathView>, entries: Seq<EntryView>, dups: Seq<GroupView>, g: int, k: int)
    requires
        fs.finite(),
        entries_at_top(root, entries),
        groups_at_top(root, dups),
        entries_plain(entries),
        groups_plain(dups),
        0 <= g < dups.len(),
        1 <= k < dups[g].files.len(),
        fs.contains(dups[g].files[k].path),
    ensures
        moved_into(root, organized(root, fs, entries, dups, false), dups[g].files[k].path, duplicates_folder()),
        only_into(root, organized(root, fs, entries, dups, false), dups[g].files[k].path, duplicates_folder()),
        !organized(root, fs, entries, dups, false).fs.contains(dups[g].files[k].path),
{
    let q = dups[g].files[k].path;
    let folder = duplicates_folder();
    let jobs = normal_jobs(entries, dups, entries.len() as int);
    let second = duplicate_jobs(dups, dups.len() as int);
    lemma_normal_jobs_plain(root, entries, dups, entries.len() as int);
    lemma_normal_jobs_from_entries(entries, dups, entries.len() as int);
    lemma_duplicate_jobs_plain(root, dups, dups.len() as int);
    lemma_duplicate_jobs_redundant(dups, dups.len() as int);
    assert(is_redundant(dups, q));
    assert(!is_folder_name(q.name));
    assert forall|j: int| 0 <= j < jobs.len() && (#[trigger] jobs[j]).source == q implies jobs[j].folder == folder by {
        let e = choose|e: int| 0 <= e < entries.len() && (#[trigger] entries[e]).path == jobs[j].source && jobs[j].folder == category_name(
            entries[e].category,
        ) && !is_redundant(dups, entries[e].path);
        assert(false);
    }
    lemma_run_settles(root, fresh(fs), jobs, jobs.len() as int, q, folder);
    let first = run(root, fresh(fs), jobs, jobs.len() as int, false);
    let between = with_duplicates_folder(root, first, dups, false);
    assert(only_into(root, between, q, folder));
    assert(moved_into(root, first, q, folder) ==> moved_into(root, between, q, folder)) by {
        if moved_into(root, first, q, folder) {
            let m = choose|m: int| 0 <= m < first.moves.len() && (#[trigger] first.moves[m]).from == q && first.moves[m].to.dir == joined(root, folder)
                && first.fs.contains(first.moves[m].to);
            assert(between.moves[m] == first.moves[m] && between.fs.contains(between.moves[m].to));
        }
    }
    lemma_run_settles(root, between, second, second.len() as int, q, folder);
    let a = choose|a: int| 0 <= a < second.len() && (#[trigger] second[a]).source == dups[g].files[k].path;
    assert(second[a].source == q);
    law_second_pass_is_silent(root, fs, entries, dups);
}

/// Whether a listing names every object that lies directly in the folder
/// `root`.
pub open spec fn lists_all(root: Seq<char>, fs: Set<PathView>, listing: Seq<DirItem>) -> bool {
    forall|q: PathView| fs.contains(q) && q.dir == root ==> exists|i: int| 0 <= i < listing.len() && (#[trigger] listing[i]).name@ == q.name
}

/// Whether a listing names only objects that lie directly in the folder
/// `root`, and names as a folder whatever bears the name of a folder that a
/// pass fills.
pub open spec fn lists_only(root: Seq<char>, fs: Set<PathView>, listing: Seq<DirItem>) -> bool {
    forall|j: int| 0 <= j < listing.len() ==> fs.contains(PathView { dir: root, name: (#[trigger] listing[j]).name@ }) && (is_folder_name(
        listing[j].name@,
    ) ==> listing[j].is_dir)
}

/// Whether an object is a folder in the one listing where it is one in the
/// other.
pub open spec fn same_kinds(first: Seq<DirItem>, second: Seq<DirItem>) -> bool {
    forall|i: int, j: int| 0 <= i < first.len() && 0 <= j < second.len() && (#[trigger] first[i]).name@ == (#[trigger] second[j]).name@ ==> first[i].is_dir
            == second[j].is_dir
}

/// Whether the entries hold every supported file of a listing of the
/// folder `root`.
pub open spec fn entries_cover(root: Seq<char>, listing: Seq<DirItem>, entries: Seq<EntryView>) -> bool {
    forall|i: int| 0 <= i < listing.len() && item_category(#[trigger] listing[i]) is Some ==> exists|e: int| 0 <= e < entries.len() && (#[trigger] entries[e]).path == (PathView {
                dir: root,
                name: listing[i].name@,
            })
}

proof fn lemma_top_paths_after(root: Seq<char>, fs: Set<PathView>, entries: Seq<EntryView>, dups: Seq<GroupView>, q: PathView)
    requires
        entries_at_top(root, entries),
        groups_at_top(root, dups),
        entries_plain(entries),
        groups_plain(dups),
        q.dir == root,
        !is_folder_name(q.name),
        !fs.contains(q),
    ensures
        !organized(root, fs, entries, dups, false).fs.contains(q),
{
    let jobs = normal_jobs(entries, dups, entries.len() as int);
    let second = duplicate_jobs(dups, dups.len() as int);
    lemma_normal_jobs_plain(root, entries, dups, entries.len() as int);
    lemma_duplicate_jobs_plain(root, dups, dups.len() as int);
    lemma_run_top(root, fresh(fs), jobs, jobs.len() as int, q);
    let first = run(root, fresh(fs), jobs, jobs.len() as int, false);
    let between = with_duplicates_folder(root, first, dups, false);
    assert(!between.fs.contains(q));
    lemma_run_top(root, between, second, second.len() as int, q);
}

/// A second scan after a pass that is no dry run finds no supported file.
/// The first scan lists all that lies directly in the folder, the entries of
/// the pass hold every supported file of it, and the second scan lists only
/// what lies there after the pass, each object as the kind it was. Then the
/// second scan has no object with a category, so that the pass that follows
/// it is given nothing and, by `law_empty_pass_is_silent`, says and changes
/// nothing.
pub proof fn law_second_scan_finds_nothing(
    root: Seq<char>,
    fs: Set<PathView>,
    first: Seq<DirItem>,
    entries: Seq<EntryView>,
    dups: Seq<GroupView>,
    second: Seq<DirItem>,
)
    requires
        fs.finite(),
        lists_all(root, fs, first),
        entries_cover(root, first, entries),
        entries_at_top(root, entries),
        groups_at_top(root, dups),
        entries_plain(entries),
        groups_plain(dups),
        lists_only(root, organized(root, fs, entries, dups, false).fs, second),
        same_kinds(first, second),
    ensures
        forall|j: int| 0 <= j < second.len() ==> item_category(#[trigger] second[j]) is None,
{
    let after = organized(root, fs, entries, dups, false);
    law_second_pass_is_silent(root, fs, entries, dups);
    assert forall|j: int| 0 <= j < second.len() implies item_category(#[trigger] second[j]) is None by {
        let q = PathView { dir: root, name: second[j].name@ };
        assert(after.fs.contains(q));
        if item_category(second[j]) is Some {
            assert(!second[j].is_dir);
            assert(!is_folder_name(q.name));
            if !fs.contains(q) {
                lemma_top_paths_after(root, fs, entries, dups, q);
            }
            let i = choose|i: int| 0 <= i < first.len() && (#[trigger] first[i]).name@ == q.name;
            assert(first[i].is_dir == second[j].is_dir);
            assert(item_category(first[i]) == item_category(second[j]));
            let e = choose|e: int| 0 <= e < entries.len() && (#[trigger] entries[e]).path == (PathView { dir: root, name: first[i].name@ });
            assert(!after.fs.contains(entries[e].path));
        }
    }
}

proof fn lemma_no_files_of(folder: Seq<char>, listing: Seq<DirItem>, c: FileCategory, n: int)
    requires
        0 <= n <= listing.len(),
        forall|j: int| 0 <= j < listing.len() ==> item_category(#[trigger] listing[j]) is None,
    ensures
        files_of(folder, listing, c, n).len() == 0,
        count_supported(listing, n) == 0,
    decreases n,
{
    if n > 0 {
        lemma_no_files_of(folder, listing, c, n - 1);
    }
}

/// A scan without an object that has a category counts no supported file
/// and fills no category.
pub proof fn lemma_nothing_supported(folder: Seq<char>, listing: Seq<DirItem>, k: int)
    requires
        forall|j: int| 0 <= j < listing.len() ==> item_category(#[trigger] listing[j]) is None,
        0 <= k <= 7,
    ensures
        count_supported(listing, listing.len() as int) == 0,
        filled_categories(folder, listing, k).len() == 0,
    decreases k,
{
    lemma_no_files_of(folder, listing, FileCategory::Documents, listing.len() as int);
    if k > 0 {
        lemma_nothing_supported(folder, listing, k - 1);
        lemma_no_files_of(folder, listing, crate::types::category_order()[k - 1], listing.len() as int);
    }
}

} // verus!
