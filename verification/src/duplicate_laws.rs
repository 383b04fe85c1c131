use vstd::prelude::*;
use crate::duplicate_finder::{ScannedFile, entry_position, groups, is_first, members, same_content, stands_before, time_key, valid_group};

verus! {

/// Whether a group is in order: every member stands before those behind it.
pub open spec fn in_order(files: Seq<ScannedFile>, m: Seq<int>) -> bool {
    forall|a: int, b: int| 0 <= a < b < m.len() ==> stands_before(files, #[trigger] m[a], #[trigger] m[b])
}

/// In a group that is in order, a new file enters behind every member that
/// was not created after it and before every member that was.
pub proof fn lemma_entry_position(files: Seq<ScannedFile>, m: Seq<int>, j: int)
    requires
        in_order(files, m),
    ensures
        0 <= entry_position(files, m, j) <= m.len(),
        forall|k: int| 0 <= k < entry_position(files, m, j) ==> time_key(files[#[trigger] m[k]].created) <= time_key(files[j].created),
        forall|k: int| entry_position(files, m, j) <= k < m.len() ==> time_key(files[#[trigger] m[k]].created) > time_key(files[j].created),
    decreases m.len(),
{
    if m.len() > 0 {
        if time_key(files[m.last()].created) <= time_key(files[j].created) {
            assert forall|k: int| 0 <= k < m.len() implies time_key(files[#[trigger] m[k]].created) <= time_key(files[j].created) by {
                if k < m.len() - 1 {
                    assert(stands_before(files, m[k], m[m.len() - 1]));
                }
            }
        } else {
            let d = m.drop_last();
            assert forall|a: int, b: int| 0 <= a < b < d.len() implies stands_before(files, #[trigger] d[a], #[trigger] d[b]) by {
                assert(d[a] == m[a] && d[b] == m[b]);
            }
            lemma_entry_position(files, d, j);
            let p = entry_position(files, d, j);
            assert forall|k: int| 0 <= k < p implies time_key(files[#[trigger] m[k]].created) <= time_key(files[j].created) by {
                assert(d[k] == m[k]);
            }
            assert forall|k: int| p <= k < m.len() implies time_key(files[#[trigger] m[k]].created) > time_key(files[j].created) by {
                if k < d.len() {
                    assert(d[k] == m[k]);
                }
            }
        }
    }
}

/// What the group of the file at `i` is made of, as far as the first `n`
/// files go: `i` and the later files with the same bytes, each once, in order.
pub proof fn lemma_members(files: Seq<ScannedFile>, i: int, n: int)
    requires
        0 <= i < files.len(),
        files[i].content is Some,
        n <= files.len(),
    ensures
        members(files, i, n).len() >= 1,
        members(files, i, n).contains(i),
        forall|k: int| 0 <= k < members(files, i, n).len() ==> {
            &&& i <= #[trigger] members(files, i, n)[k] < files.len()
            &&& (members(files, i, n)[k] < n || members(files, i, n)[k] == i)
            &&& same_content(files, i, members(files, i, n)[k])
        },
        in_order(files, members(files, i, n)),
        forall|j: int| i <= j < n && same_content(files, i, j) ==> members(files, i, n).contains(j),
    decreases n,
{
    if n <= i + 1 || n <= 0 {
        assert(seq![i][0] == i);
    } else {
        lemma_members(files, i, n - 1);
        let m = members(files, i, n - 1);
        if same_content(files, i, n - 1) {
            lemma_entry_position(files, m, n - 1);
            let p = entry_position(files, m, n - 1);
            let r = m.insert(p, n - 1);
            assert(r == members(files, i, n));
            assert forall|a: int, b: int| 0 <= a < b < r.len() implies stands_before(files, #[trigger] r[a], #[trigger] r[b]) by {
                if a < p && b > p {
                    assert(stands_before(files, m[a], m[b - 1]));
                } else if a < p && b < p {
                    assert(stands_before(files, m[a], m[b]));
                } else if a > p {
                    assert(stands_before(files, m[a - 1], m[b - 1]));
                } else if a == p {
                    assert(r[b] == m[b - 1]);
                } else {
                    assert(r[a] == m[a]);
                    assert(m[a] < n - 1);
                }
            }
            assert forall|j: int| i <= j < n && same_content(files, i, j) implies r.contains(j) by {
                if j == n - 1 {
                    assert(r[p] == j);
                } else {
                    assert(m.contains(j));
                    let k = choose|k: int| 0 <= k < m.len() && m[k] == j;
                    if k < p {
                        assert(r[k] == j);
                    } else {
                        assert(r[k + 1] == j);
                    }
                }
            }
            assert(r.contains(i)) by {
                let k = choose|k: int| 0 <= k < m.len() && m[k] == i;
                if k < p {
                    assert(r[k] == i);
                } else {
                    assert(r[k + 1] == i);
                }
            }
            assert forall|k: int| 0 <= k < r.len() implies {
                &&& i <= #[trigger] r[k] < files.len()
                &&& (r[k] < n || r[k] == i)
                &&& same_content(files, i, r[k])
            } by {
                if k < p {
                    assert(r[k] == m[k]);
                } else if k > p {
                    assert(r[k] == m[k - 1]);
                }
            }
        }
    }
}

/// Every group is made of at least two places of readable files.
pub proof fn lemma_groups_valid(files: Seq<ScannedFile>, n: int)
    requires
        0 <= n <= files.len(),
    ensures
        forall|h: int| 0 <= h < groups(files, n).len() ==> valid_group(files, #[trigger] groups(files, n)[h]),
    decreases n,
{
    if n > 0 {
        lemma_groups_valid(files, n - 1);
        if is_first(files, n - 1) {
            lemma_members(files, n - 1, files.len() as int);
        }
        let prev = groups(files, n - 1);
        assert forall|h: int| 0 <= h < groups(files, n).len() implies valid_group(files, #[trigger] groups(files, n)[h]) by {
            if h < prev.len() {
                assert(groups(files, n)[h] == prev[h]);
            }
        }
    }
}

/// Every group is the group of a file that no earlier file equals, taken
/// over all the files.
pub proof fn lemma_groups_origin(files: Seq<ScannedFile>, n: int, h: int)
    requires
        0 <= n <= files.len(),
        0 <= h < groups(files, n).len(),
    ensures
        exists|l: int| 0 <= l < n && is_first(files, l) && #[trigger] members(files, l, files.len() as int) == groups(files, n)[h],
    decreases n,
{
    if n > 0 {
        let g = members(files, n - 1, files.len() as int);
        if is_first(files, n - 1) && g.len() >= 2 && h == groups(files, n).len() - 1 {
            assert(members(files, n - 1, files.len() as int) == groups(files, n)[h]);
        } else {
            lemma_groups_origin(files, n - 1, h);
        }
    }
}

/// The group of a first file with a twin is among the groups.
pub proof fn lemma_group_present(files: Seq<ScannedFile>, l: int, n: int)
    requires
        0 <= l < n <= files.len(),
        is_first(files, l),
        members(files, l, files.len() as int).len() >= 2,
    ensures
        groups(files, n).contains(members(files, l, files.len() as int)),
    decreases n,
{
    let target = members(files, l, files.len() as int);
    if l == n - 1 {
        let gs = groups(files, n);
        assert(gs[gs.len() - 1] == target);
    } else {
        lemma_group_present(files, l, n - 1);
        let prev = groups(files, n - 1);
        let k = choose|k: int| 0 <= k < prev.len() && prev[k] == target;
        assert(groups(files, n)[k] == target);
    }
}

/// Every readable file has a first file with the same bytes, at or before it.
pub proof fn lemma_first_exists(files: Seq<ScannedFile>, i: int) -> (l: int)
    requires
        0 <= i < files.len(),
        files[i].content is Some,
    ensures
        0 <= l <= i,
        is_first(files, l),
        same_content(files, l, i),
    decreases i,
{
    if is_first(files, i) {
        i
    } else {
        let j = choose|j: int| 0 <= j < i && same_content(files, j, i);
        let l = lemma_first_exists(files, j);
        l
    }
}

/// Files with the same bytes share a group: whenever two different files
/// could both be read and hold the same bytes, one group holds both.
pub proof fn law_same_bytes_same_group(files: Seq<ScannedFile>, i: int, j: int)
    requires
        0 <= i < files.len(),
        0 <= j < files.len(),
        i != j,
        same_content(files, i, j),
    ensures
        exists|g: int| 0 <= g < groups(files, files.len() as int).len() && (#[trigger] groups(files, files.len() as int)[g]).contains(i)
            && groups(files, files.len() as int)[g].contains(j),
{
    let n = files.len() as int;
    let l = lemma_first_exists(files, i);
    lemma_members(files, l, n);
    let m = members(files, l, n);
    assert(same_content(files, l, j));
    assert(l <= j) by {
        if j < l {
            assert(same_content(files, j, l));
        }
    }
    assert(m.contains(i));
    assert(m.contains(j));
    let a = choose|a: int| 0 <= a < m.len() && m[a] == i;
    let b = choose|b: int| 0 <= b < m.len() && m[b] == j;
    assert(a != b);
    lemma_group_present(files, l, n);
    let gs = groups(files, n);
    let g = choose|g: int| 0 <= g < gs.len() && gs[g] == m;
    assert(gs[g].contains(i) && gs[g].contains(j));
}

/// A group holds only files with the same bytes: two files that differ in a
/// byte, whatever their lengths, are never members of one group, and a file
/// that could not be read is in none.
pub proof fn law_group_members_identical(files: Seq<ScannedFile>, g: int, a: int, b: int)
    requires
        0 <= g < groups(files, files.len() as int).len(),
        0 <= a < groups(files, files.len() as int)[g].len(),
        0 <= b < groups(files, files.len() as int)[g].len(),
    ensures
        same_content(files, groups(files, files.len() as int)[g][a], groups(files, files.len() as int)[g][b]),
        a != b ==> groups(files, files.len() as int)[g][a] != groups(files, files.len() as int)[g][b],
{
    let n = files.len() as int;
    lemma_groups_origin(files, n, g);
    let l = choose|l: int| 0 <= l < n && is_first(files, l) && #[trigger] members(files, l, n) == groups(files, n)[g];
    lemma_members(files, l, n);
    let m = members(files, l, n);
    assert(same_content(files, l, m[a]));
    assert(same_content(files, l, m[b]));
    if a < b {
        assert(stands_before(files, m[a], m[b]));
    } else if b < a {
        assert(stands_before(files, m[b], m[a]));
    }
}

/// No file is in two groups.
pub proof fn law_groups_disjoint(files: Seq<ScannedFile>, g: int, h: int, a: int, b: int)
    requires
        0 <= g < groups(files, files.len() as int).len(),
        0 <= h < groups(files, files.len() as int).len(),
        0 <= a < groups(files, files.len() as int)[g].len(),
        0 <= b < groups(files, files.len() as int)[h].len(),
        groups(files, files.len() as int)[g][a] == groups(files, files.len() as int)[h][b],
    ensures
        groups(files, files.len() as int)[g] == groups(files, files.len() as int)[h],
{
    let n = files.len() as int;
    lemma_groups_origin(files, n, g);
    lemma_groups_origin(files, n, h);
    let l1 = choose|l: int| 0 <= l < n && is_first(files, l) && #[trigger] members(files, l, n) == groups(files, n)[g];
    let l2 = choose|l: int| 0 <= l < n && is_first(files, l) && #[trigger] members(files, l, n) == groups(files, n)[h];
    lemma_members(files, l1, n);
    lemma_members(files, l2, n);
    let x = groups(files, n)[g][a];
    assert(same_content(files, l1, x));
    assert(same_content(files, l2, x));
    assert(same_content(files, l1, l2));
    assert(same_content(files, l2, l1));
    assert(l1 == l2);
}

/// The oldest member of a group stands first, and the others follow by age:
/// of two members the one in front was created earlier, or at the same time
/// and found earlier. A member without a time of creation is held to be
/// younger than every member that has one.
pub proof fn law_oldest_first(files: Seq<ScannedFile>, g: int, a: int, b: int)
    requires
        0 <= g < groups(files, files.len() as int).len(),
        0 <= a < b < groups(files, files.len() as int)[g].len(),
    ensures
        stands_before(files, groups(files, files.len() as int)[g][a], groups(files, files.len() as int)[g][b]),
        time_key(files[groups(files, files.len() as int)[g][0]].created) <= time_key(files[groups(files, files.len() as int)[g][b]].created),
{
    let n = files.len() as int;
    lemma_groups_origin(files, n, g);
    let l = choose|l: int| 0 <= l < n && is_first(files, l) && #[trigger] members(files, l, n) == groups(files, n)[g];
    lemma_members(files, l, n);
    let m = members(files, l, n);
    assert(stands_before(files, m[a], m[b]));
    assert(stands_before(files, m[0], m[b]));
}

} // verus!
