use vstd::prelude::*;
use vstd::string::*;
use crate::file_analyzer::{extension_of, find_last_dot, last_dot};
use crate::naming_laws::{lemma_first_free_is, lemma_some_number_is_free};
use crate::organizer::Organizer;
use crate::snapshot::DirSnapshot;
use crate::types::{FilePath, PathView};

verus! {

/// What `Regex::replace` of the crate regex gives for a pattern, a text and a
/// replacement: nothing where the pattern does not compile.
pub uninterp spec fn regex_replaced(pattern: Seq<char>, text: Seq<char>, rep: Seq<char>) -> Option<Seq<char>>;

/// Compiles the pattern with `Regex::new` and calls `Regex::replace`, which
/// replaces the leftmost match in the text. The contract only names the
/// result, which depends on the three texts alone; it is nothing exactly
/// where the pattern does not compile.
#[verifier::external_body]
fn regex_replace(pattern: &str, text: &str, rep: &str) -> (r: Option<String>)
    ensures
        r is Some == regex_replaced(pattern@, text@, rep@) is Some,
        r matches Some(s) ==> regex_replaced(pattern@, text@, rep@) == Some(s@),
{
    match regex::Regex::new(pattern) {
        Ok(re) => Some(re.replace(text, rep).into_owned()),
        Err(_) => None,
    }
}

/// The pattern of a numeric suffix: an underscore and digits at the end.
pub open spec fn suffix_pattern() -> Seq<char> {
    "_\\d+$"@
}

/// Where the stem of a file name ends: at its last dot, or at the end of
/// the name where it has no dot or only the one it starts with.
pub open spec fn stem_end(name: Seq<char>) -> int {
    match last_dot(name) {
        Some(i) => if i == 0 {
            name.len() as int
        } else {
            i
        },
        None => name.len() as int,
    }
}

/// A name put together again from a stem, with its suffix taken off or not,
/// and the rest of the name from the place `dot` on.
pub open spec fn rebuilt(p: PathView, dot: int, replaced: Option<Seq<char>>) -> PathView {
    match replaced {
        Some(stem) => PathView { dir: p.dir, name: stem + p.name.subrange(dot, p.name.len() as int) },
        None => p,
    }
}

/// A path without the numeric suffix of its stem: the pattern is applied
/// to the stem of the name, and what follows the stem is put back behind
/// it. The stem of a name without an extension is the whole name.
pub open spec fn clean_path(p: PathView) -> PathView {
    rebuilt(p, stem_end(p.name), regex_replaced(suffix_pattern(), stem_of(p.name), Seq::empty()))
}

/// One decimal digit as text.
pub open spec fn digit_text(d: int) -> Seq<char> {
    if d == 0 {
        "0"@
    } else if d == 1 {
        "1"@
    } else if d == 2 {
        "2"@
    } else if d == 3 {
        "3"@
    } else if d == 4 {
        "4"@
    } else if d == 5 {
        "5"@
    } else if d == 6 {
        "6"@
    } else if d == 7 {
        "7"@
    } else if d == 8 {
        "8"@
    } else {
        "9"@
    }
}

/// A number in decimal digits.
pub open spec fn decimal(n: nat) -> Seq<char>
    decreases n,
{
    if n < 10 {
        digit_text(n as int)
    } else {
        decimal(n / 10) + digit_text((n % 10) as int)
    }
}

fn digit_str(d: u128) -> (r: &'static str)
    requires
        d < 10,
    ensures
        r@ == digit_text(d as int),
{
    if d == 0 {
        "0"
    } else if d == 1 {
        "1"
    } else if d == 2 {
        "2"
    } else if d == 3 {
        "3"
    } else if d == 4 {
        "4"
    } else if d == 5 {
        "5"
    } else if d == 6 {
        "6"
    } else if d == 7 {
        "7"
    } else if d == 8 {
        "8"
    } else {
        "9"
    }
}

/// Writes a number in decimal digits.
pub fn decimal_string(n: u128) -> (r: String)
    ensures
        r@ == decimal(n as nat),
    decreases n,
{
    if n < 10 {
        digit_str(n).to_owned()
    } else {
        let mut s = decimal_string(n / 10);
        s.append(digit_str(n % 10));
        s
    }
}

/// The stem of a file name: what stands before its last dot, or the whole
/// name where it has no dot or only the one it starts with.
pub open spec fn stem_of(name: Seq<char>) -> Seq<char> {
    match last_dot(name) {
        Some(i) => if i == 0 {
            name
        } else {
            name.subrange(0, i)
        },
        None => name,
    }
}

/// A name with a number in brackets between its stem and its extension.
pub open spec fn numbered_name(name: Seq<char>, k: nat) -> Seq<char> {
    let base = stem_of(name) + " ("@ + decimal(k) + ")"@;
    match extension_of(name) {
        Some(e) => if e.len() == 0 {
            base
        } else {
            base + "."@ + e
        },
        None => base,
    }
}

/// A path with a number in brackets in its name.
pub open spec fn numbered(p: PathView, k: nat) -> PathView {
    PathView { dir: p.dir, name: numbered_name(p.name, k) }
}

/// Whether `k` is the smallest number from 1 on under which the path does
/// not exist yet.
pub open spec fn is_first_free(fs: Set<PathView>, p: PathView, k: nat) -> bool {
    &&& k >= 1
    &&& !fs.contains(numbered(p, k))
    &&& forall|j: nat| 1 <= j < k ==> fs.contains(#[trigger] numbered(p, j))
}

/// The smallest number from 1 on under which the path does not exist yet.
pub open spec fn first_free(fs: Set<PathView>, p: PathView) -> nat {
    choose|k: nat| is_first_free(fs, p, k)
}

/// The path under which a file can be put down without touching what
/// exists: the cleaned path where that is free, else the cleaned path with
/// the smallest number from 1 on that is free.
pub open spec fn unique_path(fs: Set<PathView>, target: PathView) -> PathView {
    let clean = clean_path(target);
    if !fs.contains(clean) {
        clean
    } else {
        numbered(clean, first_free(fs, clean))
    }
}

/// The characters of a text that may be missing.
pub open spec fn text_of(t: Option<String>) -> Option<Seq<char>> {
    match t {
        Some(s) => Some(s@),
        None => None,
    }
}

/// Puts a name together again from the stem that the pattern left and the
/// rest of the name from the place `dot` on. Without a stem the path is
/// returned as it came.
pub fn with_clean_stem(filepath: &FilePath, dot: usize, replaced: Option<String>) -> (r: FilePath)
    requires
        dot <= filepath.name@.len(),
    ensures
        r@ == rebuilt(filepath@, dot as int, text_of(replaced)),
{
    match replaced {
        Some(stem) => {
            let n = filepath.name.as_str().unicode_len();
            let mut name = stem;
            name.append(filepath.name.as_str().substring_char(dot, n));
            FilePath { dir: filepath.dir.clone(), name }
        },
        None => filepath.clone(),
    }
}

/// A file name with a number in brackets between its stem and its
/// extension: `test.txt` and 1 give `test (1).txt`.
pub fn numbered_file_name(name: &str, k: u128) -> (r: String)
    ensures
        r@ == numbered_name(name@, k as nat),
{
    let n = name.unicode_len();
    let dot = find_last_dot(name);
    let mut out = match dot {
        Some(i) => if i == 0 {
            name.to_owned()
        } else {
            name.substring_char(0, i).to_owned()
        },
        None => name.to_owned(),
    };
    out.append(" (");
    out.append(decimal_string(k).as_str());
    out.append(")");
    match dot {
        Some(i) => {
            if i > 0 && i + 1 < n {
                out.append(".");
                out.append(name.substring_char(i + 1, n));
            }
        },
        None => {},
    }
    out
}

impl Organizer {
    /// Takes the numeric suffix off the stem of a file name, so that
    /// `file_12.txt` becomes `file.txt` and `file_12` becomes `file`.
    pub fn clean_filename(&self, filepath: &FilePath) -> (r: FilePath)
        ensures
            r@ == clean_path(filepath@),
    {
        let name = filepath.name.as_str();
        let n = name.unicode_len();
        let cut = match find_last_dot(name) {
            Some(i) => if i == 0 {
                n
            } else {
                i
            },
            None => n,
        };
        let stem = name.substring_char(0, cut);
        let replaced = regex_replace("_\\d+$", stem, "");
        proof {
            reveal_strlit("");
            assert(""@ =~= Seq::<char>::empty());
            assert(stem@ =~= stem_of(filepath.name@));
        }
        with_clean_stem(filepath, cut, replaced)
    }

    /// The path under which a file can be put down in the snapshot without
    /// touching what exists there. It does not exist in the snapshot.
    pub fn get_unique_path(&self, target_path: &FilePath, fs: &DirSnapshot) -> (r: FilePath)
        ensures
            r@ == unique_path(fs@, target_path@),
            !fs@.contains(r@),
    {
        let clean = self.clean_filename(target_path);
        if !fs.contains(&clean) {
            return clean;
        }
        let mut counter: u128 = 1;
        while counter < u128::MAX
            invariant
                1 <= counter <= u128::MAX,
                clean@ == clean_path(target_path@),
                fs@.contains(clean@),
                forall|j: nat| 1 <= j < counter ==> fs@.contains(#[trigger] numbered(clean@, j)),
            decreases u128::MAX - counter,
        {
            let candidate = FilePath { dir: clean.dir.clone(), name: numbered_file_name(clean.name.as_str(), counter) };
            assert(candidate@ == numbered(clean@, counter as nat));
            if !fs.contains(&candidate) {
                proof {
                    lemma_first_free_is(fs@, clean@, counter as nat);
                }
                return candidate;
            }
            counter += 1;
        }
        // The search has ended before this point: among the numbers up to
        // one more than there are paths, one is free.
        let taken = fs.paths.len();
        proof {
            lemma_some_number_is_free(fs.paths@, clean@);
            let k = choose|k: nat| 1 <= k <= fs.paths@.len() + 1 && !crate::snapshot::path_set(fs.paths@).contains(#[trigger] numbered(clean@, k));
            assert(fs.paths@.len() == taken);
            assert(k < counter);
            assert(fs@.contains(numbered(clean@, k)));
            assert(false);
        }
        clean
    }
}

} // verus!
