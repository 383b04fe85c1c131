use vstd::prelude::*;
use vstd::string::*;
use crate::file_analyzer::extension_of;
use crate::path_resolver::{decimal, digit_text, first_free, is_first_free, numbered, numbered_name, stem_of};
use crate::snapshot::path_set;
use crate::types::{FilePath, PathView};

verus! {

/// The digit that a character stands for.
pub open spec fn digit_value(c: char) -> int {
    if c == '0' {
        0
    } else if c == '1' {
        1
    } else if c == '2' {
        2
    } else if c == '3' {
        3
    } else if c == '4' {
        4
    } else if c == '5' {
        5
    } else if c == '6' {
        6
    } else if c == '7' {
        7
    } else if c == '8' {
        8
    } else {
        9
    }
}

/// The number that a run of digits stands for.
pub open spec fn decimal_value(s: Seq<char>) -> int
    decreases s.len(),
{
    if s.len() == 0 {
        0
    } else {
        decimal_value(s.drop_last()) * 10 + digit_value(s.last())
    }
}

/// A digit is written as the one character that stands for it.
pub proof fn lemma_digit_text(d: int)
    requires
        0 <= d < 10,
    ensures
        digit_text(d).len() == 1,
        digit_value(digit_text(d)[0]) == d,
{
    reveal_strlit("0");
    reveal_strlit("1");
    reveal_strlit("2");
    reveal_strlit("3");
    reveal_strlit("4");
    reveal_strlit("5");
    reveal_strlit("6");
    reveal_strlit("7");
    reveal_strlit("8");
    reveal_strlit("9");
}

/// The digits of a number stand for that number.
pub proof fn lemma_decimal_value(n: nat)
    ensures
        decimal_value(decimal(n)) == n,
    decreases n,
{
    if n < 10 {
        lemma_digit_text(n as int);
        let s = decimal(n);
        assert(s.drop_last().len() == 0);
        assert(decimal_value(s.drop_last()) == 0);
    } else {
        lemma_decimal_value(n / 10);
        lemma_digit_text((n % 10) as int);
        let a = decimal(n / 10);
        let d = digit_text((n % 10) as int);
        let s = a + d;
        assert(s.drop_last() =~= a);
        assert(s.last() == d[0]);
    }
}

/// Two numbers with the same digits are the same number.
pub proof fn lemma_decimal_injective(a: nat, b: nat)
    requires
        decimal(a) == decimal(b),
    ensures
        a == b,
{
    lemma_decimal_value(a);
    lemma_decimal_value(b);
}

/// A name takes different forms under different numbers.
pub proof fn lemma_numbered_injective(p: PathView, a: nat, b: nat)
    requires
        numbered(p, a) == numbered(p, b),
    ensures
        a == b,
{
    let head = stem_of(p.name) + " ("@;
    let x = numbered_name(p.name, a);
    let y = numbered_name(p.name, b);
    let da = decimal(a);
    let db = decimal(b);
    let tail = match extension_of(p.name) {
        Some(e) => if e.len() == 0 {
            ")"@
        } else {
            ")"@ + "."@ + e
        },
        None => ")"@,
    };
    assert(x =~= head + da + tail);
    assert(y =~= head + db + tail);
    assert(x == y);
    assert(da.len() == db.len()) by {
        assert((head + da + tail).len() == head.len() + da.len() + tail.len());
        assert((head + db + tail).len() == head.len() + db.len() + tail.len());
    }
    assert forall|i: int| 0 <= i < da.len() implies da[i] == db[i] by {
        assert((head + da + tail)[head.len() + i] == da[i]);
        assert((head + db + tail)[head.len() + i] == db[i]);
    }
    assert(da =~= db);
    lemma_decimal_injective(a, b);
}

/// The forms of a path under the numbers from 1 to `m`.
pub open spec fn candidates(p: PathView, m: nat) -> Set<PathView>
    decreases m,
{
    if m == 0 {
        Set::empty()
    } else {
        candidates(p, (m - 1) as nat).insert(numbered(p, m))
    }
}

proof fn lemma_candidates(p: PathView, m: nat)
    ensures
        candidates(p, m).finite(),
        candidates(p, m).len() == m,
        forall|q: PathView| candidates(p, m).contains(q) ==> exists|k: nat| 1 <= k <= m && q == numbered(p, k),
        forall|k: nat| 1 <= k <= m ==> candidates(p, m).contains(#[trigger] numbered(p, k)),
    decreases m,
{
    if m > 0 {
        let prev = candidates(p, (m - 1) as nat);
        lemma_candidates(p, (m - 1) as nat);
        if prev.contains(numbered(p, m)) {
            let k = choose|k: nat| 1 <= k <= m - 1 && numbered(p, m) == numbered(p, k);
            lemma_numbered_injective(p, m, k);
        }
        assert forall|q: PathView| candidates(p, m).contains(q) implies exists|k: nat| 1 <= k <= m && q == numbered(p, k) by {
            if q == numbered(p, m) {
            } else {
                assert(prev.contains(q));
                let k = choose|k: nat| 1 <= k <= m - 1 && q == numbered(p, k);
                assert(1 <= k <= m && q == numbered(p, k));
            }
        }
    }
}

/// A run of paths names finitely many paths, no more than it is long.
pub proof fn lemma_path_set_len(paths: Seq<FilePath>)
    ensures
        path_set(paths).finite(),
        path_set(paths).len() <= paths.len(),
    decreases paths.len(),
{
    if paths.len() == 0 {
        assert(path_set(paths) =~= Set::<PathView>::empty());
    } else {
        let front = paths.drop_last();
        lemma_path_set_len(front);
        assert forall|q: PathView| path_set(paths).contains(q) == path_set(front).insert(paths.last()@).contains(q) by {
            if path_set(paths).contains(q) {
                let i = choose|i: int| 0 <= i < paths.len() && (#[trigger] paths[i])@ == q;
                if i < front.len() {
                    assert(front[i]@ == q);
                }
            }
            if path_set(front).contains(q) {
                let i = choose|i: int| 0 <= i < front.len() && (#[trigger] front[i])@ == q;
                assert(paths[i]@ == q);
            }
            if q == paths.last()@ {
                assert(paths[paths.len() - 1]@ == q);
            }
        }
        assert(path_set(paths) =~= path_set(front).insert(paths.last()@));
    }
}

/// Among the numbers from 1 to one more than there are paths, some number
/// is free: the path does not exist under it.
pub proof fn lemma_some_number_is_free(paths: Seq<FilePath>, p: PathView)
    ensures
        exists|k: nat| 1 <= k <= paths.len() + 1 && !path_set(paths).contains(#[trigger] numbered(p, k)),
{
    let m = paths.len() + 1;
    if forall|k: nat| 1 <= k <= m ==> path_set(paths).contains(#[trigger] numbered(p, k)) {
        lemma_candidates(p, m);
        lemma_path_set_len(paths);
        assert(candidates(p, m).subset_of(path_set(paths))) by {
            assert forall|q: PathView| candidates(p, m).contains(q) implies path_set(paths).contains(q) by {
                let k = choose|k: nat| 1 <= k <= m && q == numbered(p, k);
                assert(path_set(paths).contains(numbered(p, k)));
            }
        }
        vstd::set_lib::lemma_len_subset(candidates(p, m), path_set(paths));
        assert(false);
    }
}

/// In a finite set of paths some number is free for every path.
pub proof fn lemma_finite_has_free(fs: Set<PathView>, p: PathView)
    requires
        fs.finite(),
    ensures
        exists|k: nat| 1 <= k && !fs.contains(#[trigger] numbered(p, k)),
{
    let m = fs.len() + 1;
    if forall|k: nat| 1 <= k <= m ==> fs.contains(#[trigger] numbered(p, k)) {
        lemma_candidates(p, m);
        assert(candidates(p, m).subset_of(fs)) by {
            assert forall|q: PathView| candidates(p, m).contains(q) implies fs.contains(q) by {
                let k = choose|k: nat| 1 <= k <= m && q == numbered(p, k);
                assert(fs.contains(numbered(p, k)));
            }
        }
        vstd::set_lib::lemma_len_subset(candidates(p, m), fs);
        assert(false);
    }
}

/// Below a free number there is a smallest free number.
pub proof fn lemma_smallest_free(fs: Set<PathView>, p: PathView, k: nat) -> (m: nat)
    requires
        1 <= k,
        !fs.contains(numbered(p, k)),
    ensures
        is_first_free(fs, p, m),
    decreases k,
{
    if forall|j: nat| 1 <= j < k ==> fs.contains(#[trigger] numbered(p, j)) {
        k
    } else {
        let j = choose|j: nat| 1 <= j < k && !fs.contains(#[trigger] numbered(p, j));
        lemma_smallest_free(fs, p, j)
    }
}

/// In a finite set of paths, the free path that is found for a target does
/// not exist.
pub proof fn lemma_unique_path_free(fs: Set<PathView>, target: PathView)
    requires
        fs.finite(),
    ensures
        !fs.contains(crate::path_resolver::unique_path(fs, target)),
{
    let clean = crate::path_resolver::clean_path(target);
    if fs.contains(clean) {
        lemma_finite_has_free(fs, clean);
        let k = choose|k: nat| 1 <= k && !fs.contains(#[trigger] numbered(clean, k));
        let m = lemma_smallest_free(fs, clean, k);
        lemma_first_free_is(fs, clean, m);
    }
}

/// The smallest free number is the one before which every number is taken.
pub proof fn lemma_first_free_is(fs: Set<PathView>, p: PathView, k: nat)
    requires
        is_first_free(fs, p, k),
    ensures
        first_free(fs, p) == k,
{
    let c = first_free(fs, p);
    assert(is_first_free(fs, p, c));
    if c < k {
        assert(fs.contains(numbered(p, c)));
    } else if k < c {
        assert(fs.contains(numbered(p, k)));
    }
}

} // verus!
